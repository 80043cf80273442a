use rust_snell::addr::SocketAddr;
use rust_snell::client::{plan, ClientAction, ClientPhase, ClientPlan, ClientSession, SnellClient};
use rust_snell::handshake::{server_handshake, take_part, write_error, write_header, ErrorPart, Handshake};
use rust_snell::server::{Phase, ServerAction, ServerSession, SessionFault};
use rust_snell::snell::{SnellConn, CMD_CONNECT, CMD_CONNECT_V2, CMD_UDP, RESP_ERROR, RESP_PONG, RESP_READY, RESP_TUNNEL};
use rust_snell::socks5::{SocksAddr, CMD_UDP_ASSOCIATE};
use rust_snell::udp::FrameFault;
use rust_snell::wire::{IoError, Wire};

fn conns() -> (SnellConn, SnellConn) {
    (
        SnellConn::new_client_conn(Wire::new(), b"secret", "", "h", "1", true).unwrap(),
        SnellConn::new_server_conn(Wire::new(), b"secret", "").unwrap(),
    )
}

fn carry(from: &mut SnellConn, to: &mut SnellConn) {
    let out = from.take_output();
    to.feed(&out);
}

fn open(target: &str, obfs: &str, is_v2: bool) -> (ClientSession, ServerSession) {
    let client = SnellClient::new("server:443", obfs, "bing.com", "secret", is_v2);
    let mut c = client.create_session(target).unwrap();
    let mut s = ServerSession::new("secret", obfs).unwrap();
    carry(&mut c.conn, &mut s.conn);
    (c, s)
}

fn asked(action: ServerAction) -> String {
    match action {
        ServerAction::Connect(target) => target,
        other => panic!("{:?}", other),
    }
}

#[test]
fn a_header_names_the_target() {
    let (mut c, mut s) = conns();
    write_header(&mut c, "example.com:443", true).unwrap();
    carry(&mut c, &mut s);
    assert_eq!(s.read_up_to(100).unwrap(), b"\x01\x05\x00\x0bexample.com\x01\xbb".to_vec());
    write_header(&mut c, "[::1]:80", false).unwrap();
    carry(&mut c, &mut s);
    assert_eq!(s.read_up_to(100).unwrap(), b"\x01\x01\x00\x05[::1]\x00\x50".to_vec());
    for (target, expected) in [("host", &b"\x01\x05\x00\x04host\x00\x00"[..]), ("h:x", b"\x01\x05\x00\x01h\x00\x00"), ("h:65536", b"\x01\x05\x00\x01h\x00\x00"), ("", b"\x01\x05\x00\x00\x00\x00")] {
        write_header(&mut c, target, true).unwrap();
        carry(&mut c, &mut s);
        assert_eq!(s.read_up_to(100).unwrap(), expected.to_vec());
    }
}

#[test]
fn a_handshake_reads_the_header() {
    for is_v2 in [true, false] {
        let (mut c, mut s) = conns();
        write_header(&mut c, "a:b:8080", is_v2).unwrap();
        carry(&mut c, &mut s);
        let mut progress = Handshake::Head;
        let (target, command) = server_handshake(&mut s, &mut progress).unwrap();
        assert_eq!(target, "a:b:8080");
        assert_eq!(command, if is_v2 { CMD_CONNECT_V2 } else { CMD_CONNECT });
        assert_eq!(progress, Handshake::Head);
    }
}

#[test]
fn a_handshake_keeps_its_progress() {
    let (mut c, mut s) = conns();
    let mut progress = Handshake::Head;
    let mut done = None;
    for part in [&b"\x01\x05\x02"[..], b"id", b"\x04", b"host\x00\x50"] {
        assert!(done.is_none());
        assert!(matches!(server_handshake(&mut s, &mut progress), Err(IoError::WouldBlock)));
        c.snell_write(part).unwrap();
        carry(&mut c, &mut s);
        done = server_handshake(&mut s, &mut progress).ok();
    }
    assert_eq!(done.unwrap(), ("host:80".to_string(), 5));
}

#[test]
fn short_parts_read_as_zeros() {
    let (mut c, mut s) = conns();
    let mut progress = Handshake::Head;
    for part in [&b"\x01"[..], b"\x04", b"ho"] {
        c.snell_write(part).unwrap();
    }
    carry(&mut c, &mut s);
    assert_eq!(server_handshake(&mut s, &mut progress).unwrap(), ("ho\0\0:0".to_string(), 0));
}

#[test]
fn unknown_versions_are_refused() {
    let (mut c, mut s) = conns();
    let mut progress = Handshake::Head;
    c.snell_write(&[0xab, 5, 0]).unwrap();
    carry(&mut c, &mut s);
    let e = server_handshake(&mut s, &mut progress).unwrap_err();
    assert!(matches!(e, IoError::InvalidVersion(0xab)));
    assert_eq!(e.message(), "invalid snell version ab");
    assert_eq!(progress, Handshake::Head);
}

#[test]
fn parts_of_a_request() {
    let mut p = Handshake::Head;
    assert!(take_part(&mut p, &[1, 6, 0]).unwrap() == Some((String::new(), CMD_UDP)));
    assert!(take_part(&mut p, &[1, 6, 1]).unwrap().is_none());
    assert_eq!(p, Handshake::ClientId { command: 6, len: 1 });
    assert!(take_part(&mut p, b"x").unwrap() == Some((String::new(), CMD_UDP)));
    assert!(take_part(&mut p, &[1, 1, 0]).unwrap().is_none());
    assert_eq!(p, Handshake::HostLen { command: 1 });
    assert!(take_part(&mut p, &[1]).unwrap().is_none());
    assert_eq!(p, Handshake::Host { command: 1, len: 1 });
    assert!(take_part(&mut p, &[0xff, 1, 0]).unwrap() == Some(("\u{fffd}:256".to_string(), 1)));
    assert_eq!(p, Handshake::Head);
}

#[test]
fn errors_reach_the_client() {
    for (message, expected) in [("refused", "refused".to_string()), ("", String::new())] {
        let (mut c, mut s) = conns();
        write_error(&mut s, message).unwrap();
        carry(&mut s, &mut c);
        assert_eq!(c.read_response().unwrap(), RESP_ERROR);
        let mut part = ErrorPart::Code;
        assert_eq!(c.read_error_response(&mut part).unwrap(), expected);
        assert_eq!(part, ErrorPart::Code);
    }
    let (mut c, mut s) = conns();
    write_error(&mut s, &"x".repeat(300)).unwrap();
    carry(&mut s, &mut c);
    assert_eq!(c.read_response().unwrap(), RESP_ERROR);
    assert_eq!(c.read_error_response(&mut ErrorPart::Code).unwrap(), "x".repeat(250));
    assert!(matches!(c.read_response(), Err(IoError::WouldBlock)));
}

#[test]
fn an_error_may_arrive_in_pieces() {
    let (mut c, mut s) = conns();
    let mut part = ErrorPart::Code;
    for bytes in [&b"\x00"[..], b"\x03", b"ab"] {
        assert!(matches!(c.read_error_response(&mut part), Err(IoError::WouldBlock)));
        s.snell_write(bytes).unwrap();
        carry(&mut s, &mut c);
    }
    assert_eq!(part, ErrorPart::Message { len: 3 });
    assert_eq!(c.read_error_response(&mut part).unwrap(), "ab\0");
    assert_eq!(part, ErrorPart::Code);
}

#[test]
fn a_session_of_either_version_in_every_disguise() {
    for obfs in ["", "tls", "http"] {
        for is_v2 in [true, false] {
            let (mut c, mut s) = open("example.com:80", obfs, is_v2);
            assert_eq!(asked(s.step()), "example.com:80");
            assert_eq!(s.is_v2, is_v2);
            assert!(matches!(s.step(), ServerAction::AwaitAnswer));
            s.connected();
            assert!(matches!(c.step(), ClientAction::AwaitServer));
            carry(&mut s.conn, &mut c.conn);
            assert!(matches!(c.step(), ClientAction::Again));
            assert_eq!(c.phase, ClientPhase::Relaying);
            assert!(matches!(c.step(), ClientAction::AwaitEither));
            c.app_data(b"GET /");
            carry(&mut c.conn, &mut s.conn);
            assert!(matches!(s.step(), ServerAction::ToTarget(data) if data == b"GET /"));
            assert!(matches!(s.step(), ServerAction::AwaitEither));
            s.target_data(b"200 OK");
            carry(&mut s.conn, &mut c.conn);
            assert!(matches!(c.step(), ClientAction::ToApp(data) if data == b"200 OK"));
        }
    }
}

#[test]
fn a_connection_of_version_2_is_reused() {
    let (mut c, mut s) = open("one:1", "tls", true);
    asked(s.step());
    s.connected();
    carry(&mut s.conn, &mut c.conn);
    c.step();
    // The application ends, and the client ends its stream.
    c.app_data(b"");
    assert_eq!(c.phase, ClientPhase::Draining);
    carry(&mut c.conn, &mut s.conn);
    assert!(matches!(s.step(), ServerAction::Again));
    assert!(matches!(s.phase, Phase::Handshake(Handshake::Head)));
    // The server has ended its stream too.
    carry(&mut s.conn, &mut c.conn);
    assert!(matches!(c.step(), ClientAction::Close));
    // The next request on the same connection.
    assert!(matches!(s.step(), ServerAction::AwaitClient));
    write_header(&mut c.conn, "two:2", true).unwrap();
    carry(&mut c.conn, &mut s.conn);
    assert_eq!(asked(s.step()), "two:2");
    assert!(s.is_v2);
}

#[test]
fn the_server_drains_where_the_target_ends_first() {
    let (mut c, mut s) = open("one:1", "", true);
    asked(s.step());
    s.connected();
    carry(&mut s.conn, &mut c.conn);
    c.step();
    s.target_data(b"");
    assert!(matches!(s.phase, Phase::Draining));
    assert!(matches!(s.step(), ServerAction::AwaitClient));
    c.app_data(b"late");
    carry(&mut c.conn, &mut s.conn);
    assert!(matches!(s.step(), ServerAction::Again));
    assert!(matches!(s.step(), ServerAction::AwaitClient));
    carry(&mut s.conn, &mut c.conn);
    assert!(matches!(c.step(), ClientAction::Again));
    assert_eq!(c.phase, ClientPhase::Closed);
    assert!(matches!(c.step(), ClientAction::Close));
    carry(&mut c.conn, &mut s.conn);
    assert!(matches!(s.step(), ServerAction::Again));
    assert!(matches!(s.phase, Phase::Handshake(Handshake::Head)));
}

#[test]
fn a_connection_of_version_1_closes() {
    let (mut c, mut s) = open("one:1", "", false);
    asked(s.step());
    s.connected();
    carry(&mut s.conn, &mut c.conn);
    c.step();
    s.target_ended();
    assert!(matches!(s.step(), ServerAction::Close));
    assert!(s.conn.take_output().is_empty());
    c.conn.close();
    assert!(matches!(c.step(), ClientAction::Again));
    assert!(matches!(c.step(), ClientAction::Close));
    assert!(c.conn.take_output().is_empty());
}

#[test]
fn a_failed_connection_is_reported() {
    for is_v2 in [true, false] {
        let (mut c, mut s) = open("one:1", "http", is_v2);
        asked(s.step());
        s.connect_failed("Connection refused");
        carry(&mut s.conn, &mut c.conn);
        assert!(matches!(c.step(), ClientAction::Again));
        match c.step() {
            ClientAction::Fail(e) => assert_eq!(e.message(), "server error: Connection refused"),
            other => panic!("{:?}", other),
        }
        assert!(matches!(c.step(), ClientAction::Close));
        if is_v2 {
            assert!(matches!(s.step(), ServerAction::AwaitClient));
        } else {
            assert!(matches!(s.step(), ServerAction::Close));
        }
    }
}

#[test]
fn unknown_responses_are_refused() {
    let (mut c, mut s) = open("one:1", "", true);
    asked(s.step());
    s.conn.snell_write(&[9]).unwrap();
    carry(&mut s.conn, &mut c.conn);
    match c.step() {
        ClientAction::Fail(e) => {
            assert!(matches!(e, IoError::UnsupportedResponse));
            assert_eq!(e.message(), "command not supported");
        }
        other => panic!("{:?}", other),
    }
    let (mut c, _) = open("one:1", "", true);
    c.conn.close();
    assert!(matches!(c.step(), ClientAction::Fail(IoError::ConnectionClosed)));
}

fn request(bytes: &[u8]) -> (SnellConn, ServerSession) {
    let (mut c, _) = conns();
    let mut s = ServerSession::new("secret", "").unwrap();
    c.snell_write(bytes).unwrap();
    carry(&mut c, &mut s.conn);
    (c, s)
}

#[test]
fn a_ping_is_answered() {
    let (mut c, mut s) = request(&[1, 0, 0, 1, b'h', 0, 80]);
    assert!(matches!(s.step(), ServerAction::Close));
    carry(&mut s.conn, &mut c);
    assert_eq!(c.read_response().unwrap(), RESP_PONG);
    assert!(matches!(s.step(), ServerAction::Close));
}

#[test]
fn unknown_commands_and_bad_requests_close() {
    let (_, mut s) = request(&[1, 9, 0, 1, b'h', 0, 80]);
    assert!(matches!(s.step(), ServerAction::Fail(SessionFault::Command(9))));
    assert!(matches!(s.step(), ServerAction::Close));
    let (_, mut s) = request(&[2, 1, 0]);
    assert!(matches!(s.step(), ServerAction::Fail(SessionFault::Handshake(IoError::InvalidVersion(2)))));
    let mut s = ServerSession::new("secret", "").unwrap();
    s.conn.feed(&[0u8; 64]);
    assert!(matches!(s.step(), ServerAction::Fail(SessionFault::Handshake(IoError::Aead(_)))));
    let mut s = ServerSession::new("secret", "").unwrap();
    assert!(matches!(s.step(), ServerAction::AwaitClient));
    s.conn.close();
    assert!(matches!(s.step(), ServerAction::Fail(SessionFault::Handshake(IoError::ConnectionClosed))));
    let mut s = ServerSession::new("secret", "tls").unwrap();
    s.conn.close();
    assert!(matches!(s.step(), ServerAction::Fail(SessionFault::Handshake(IoError::UnexpectedEof))));
}

#[test]
fn a_udp_session_passes_datagrams_on() {
    let to = SocketAddr::V4 { ip: [8, 8, 8, 8], port: 53 };
    let (mut c, mut s) = request(&[1, 6, 0]);
    assert!(matches!(s.step(), ServerAction::BindUdp));
    assert!(matches!(s.step(), ServerAction::AwaitAnswer));
    s.udp_bound();
    carry(&mut s.conn, &mut c);
    assert_eq!(c.read_response().unwrap(), RESP_READY);
    assert!(matches!(s.step(), ServerAction::AwaitClient));
    c.snell_write(b"\x01\x03dns\x00\x35query").unwrap();
    c.snell_write(b"\x01\x03dns\x00\x35again").unwrap();
    c.snell_write(b"\x01\x03dns\x00\x35").unwrap();
    c.snell_write(b"\x02").unwrap();
    carry(&mut c, &mut s.conn);
    assert!(matches!(s.step(), ServerAction::Resolve(t) if t == "dns:53"));
    assert!(matches!(s.udp_resolved(Some(to)), ServerAction::SendUdp { to: a, data } if a == to && data == b"query"));
    assert!(matches!(s.step(), ServerAction::SendUdp { to: a, data } if a == to && data == b"again"));
    assert!(matches!(s.step(), ServerAction::Again));
    assert!(matches!(s.step(), ServerAction::Fail(SessionFault::Frame(FrameFault::Short(1)))));
    assert!(matches!(s.step(), ServerAction::Close));
}

#[test]
fn a_udp_session_ends_with_its_stream() {
    let (_, mut s) = request(&[1, 6, 0]);
    s.step();
    s.udp_bound();
    s.conn.close();
    assert!(matches!(s.step(), ServerAction::Fail(SessionFault::Udp(IoError::ConnectionClosed))));
}

#[test]
fn a_udp_session_ends_with_its_socket() {
    let (_, mut s) = request(&[1, 6, 0]);
    s.step();
    s.target_ended();
    assert!(matches!(s.step(), ServerAction::Close));
    let (mut c, mut s) = request(&[1, 6, 0]);
    s.step();
    s.udp_bound();
    c.snell_write(b"\x01\x03dns\x00\x35query").unwrap();
    carry(&mut c, &mut s.conn);
    s.step();
    assert!(matches!(s.udp_resolved(None), ServerAction::Again));
    assert!(matches!(s.step(), ServerAction::AwaitClient));
    s.target_ended();
    assert!(matches!(s.step(), ServerAction::Close));
}

#[test]
fn reports_out_of_turn_change_nothing() {
    let mut s = ServerSession::new("secret", "").unwrap();
    s.connected();
    s.connect_failed("x");
    s.target_data(b"x");
    s.target_ended();
    s.udp_bound();
    assert!(matches!(s.udp_resolved(None), ServerAction::Again));
    assert!(s.conn.take_output().is_empty());
    assert!(matches!(s.step(), ServerAction::AwaitClient));
    let (mut c, _) = open("t:1", "", true);
    c.app_data(b"x");
    c.app_ended();
    assert_eq!(c.phase, ClientPhase::Response);
    assert!(c.conn.take_output().is_empty());
}

#[test]
fn what_a_client_plans() {
    let addr = SocksAddr { data: vec![1, 1, 2, 3, 4, 0, 80] };
    assert!(matches!(plan(&addr, CMD_UDP_ASSOCIATE), ClientPlan::Hold));
    assert!(matches!(plan(&addr, 1), ClientPlan::Tunnel(t) if t == "1.2.3.4:80"));
}

#[test]
fn the_disguise_presents_host_and_port() {
    let client = SnellClient::new("server:8443", "http", "bing.com", "secret", true);
    let out = client.create_session("t:1").unwrap().conn.take_output();
    assert!(out.starts_with(b"GET / HTTP/1.1\r\nHost: bing.com:8443\r\n"));
    let client = SnellClient::new("server", "http", "bing.com", "secret", true);
    let out = client.create_session("t:1").unwrap().conn.take_output();
    assert!(out.starts_with(b"GET / HTTP/1.1\r\nHost: bing.com:server\r\n"));
    assert_eq!(RESP_TUNNEL, 0);
}
