use rust_snell::addr::SocketAddr;
use rust_snell::socks5::{server_handshake, SocksAddr, SocksPart, ATYP_DOMAIN, ATYP_IPV4, ATYP_IPV6, CMD_CONNECT, CMD_UDP_ASSOCIATE, MAX_ADDR_LEN};
use rust_snell::wire::{IoError, OsError, Wire};

const LOCAL: SocketAddr = SocketAddr::V4 { ip: [127, 0, 0, 1], port: 1080 };

fn text(data: &[u8]) -> String {
    SocksAddr { data: data.to_vec() }.to_string_addr()
}

#[test]
fn addresses_as_text() {
    assert_eq!(text(&[ATYP_IPV4, 1, 2, 3, 4, 0, 80]), "1.2.3.4:80");
    assert_eq!(text(&[ATYP_DOMAIN, 3, b'a', b'.', b'b', 1, 187]), "a.b:443");
    let mut v6 = vec![ATYP_IPV6];
    v6.extend_from_slice(&[0u8; 15]);
    v6.extend_from_slice(&[1, 0, 53]);
    assert_eq!(text(&v6), "[::1]:53");
}

#[test]
fn bytes_that_are_no_address_have_no_text() {
    assert_eq!(text(&[]), "");
    assert_eq!(text(&[9, 1, 2, 3, 4, 5, 6, 7]), "");
    assert_eq!(text(&[ATYP_IPV4, 1, 2, 3, 4, 0]), "");
    assert_eq!(text(&[ATYP_DOMAIN, 3, b'a']), "");
    assert_eq!(text(&[ATYP_DOMAIN, 3, b'a', b'b', b'c', 0]), "");
    assert_eq!(text(&[ATYP_IPV6; 18]), "");
    assert_eq!(MAX_ADDR_LEN, 259);
}

#[test]
fn socket_addresses_keep_host_and_port() {
    let v4 = SocksAddr::from_socket_addr(&LOCAL);
    assert_eq!(v4.data, vec![1, 127, 0, 0, 1, 4, 56]);
    assert_eq!(v4.to_string_addr(), "127.0.0.1:1080");
    let mut ip = [0u8; 16];
    ip[15] = 1;
    let v6 = SocksAddr::from_socket_addr(&SocketAddr::V6 { ip, port: 65535, flowinfo: 1, scope_id: 2 });
    assert_eq!(v6.data.len(), 19);
    assert_eq!(v6.to_string_addr(), "[::1]:65535");
}

#[test]
fn a_handshake_in_one_go() {
    let mut wire = Wire::new();
    wire.feed(&[5, 2, 0, 2, 5, 1, 0, 3, 1, b'h', 0, 80, b'x']);
    let mut part = SocksPart::Greeting;
    let (addr, command) = server_handshake(&mut wire, &mut part, &Ok(LOCAL)).unwrap();
    assert_eq!(addr.data, vec![3, 1, b'h', 0, 80]);
    assert_eq!(addr.to_string_addr(), "h:80");
    assert_eq!(command, CMD_CONNECT);
    assert_eq!(wire.take_output(), vec![5, 0, 5, 0, 0, 1, 127, 0, 0, 1, 4, 56]);
    assert_eq!(wire.inbox, vec![b'x']);
}

#[test]
fn a_handshake_byte_by_byte() {
    for request in [
        vec![5u8, 3, 0, 1, 1, 2, 3, 4, 0, 80],
        vec![5, 3, 0, 4, 0, 0, 0, 0, 0, 0, 0, 0, 0, 0, 0, 0, 0, 0, 0, 1, 0, 80],
        vec![5, 3, 0, 3, 0, 0, 80],
    ] {
        let mut all = vec![5u8, 1, 0];
        all.extend_from_slice(&request);
        let mut wire = Wire::new();
        let mut part = SocksPart::Greeting;
        let last = all.len() - 1;
        for (i, b) in all.iter().enumerate() {
            wire.feed(&[*b]);
            let r = server_handshake(&mut wire, &mut part, &Ok(LOCAL));
            if i < last {
                assert!(matches!(r, Err(IoError::WouldBlock)));
            } else {
                let (addr, command) = r.unwrap();
                assert_eq!(addr.data, request[3..].to_vec());
                assert_eq!(command, CMD_UDP_ASSOCIATE);
            }
        }
        assert_eq!(wire.take_output().len(), 12);
    }
}

#[test]
fn handshakes_that_fail() {
    let run = |bytes: &[u8], local: Result<SocketAddr, OsError>, eof: bool| {
        let mut wire = Wire::new();
        wire.feed(bytes);
        if eof {
            wire.close();
        }
        let mut part = SocksPart::Greeting;
        let e = server_handshake(&mut wire, &mut part, &local).unwrap_err();
        (e, wire.take_output())
    };
    let (e, out) = run(&[4, 0], Ok(LOCAL), false);
    assert!(matches!(e, IoError::NotSocks5) && out.is_empty());
    assert_eq!(e.message(), "not SOCKS5");
    let (e, out) = run(&[5, 0, 5, 1, 0, 2], Ok(LOCAL), false);
    assert!(matches!(e, IoError::InvalidAddressType));
    assert_eq!(e.message(), "invalid address type");
    assert_eq!(out, vec![5, 0]);
    let (e, out) = run(&[5, 0, 5, 2, 0, 1, 1, 2, 3, 4, 0, 80], Ok(LOCAL), false);
    assert!(matches!(e, IoError::UnsupportedCommand));
    assert_eq!(e.message(), "command not supported");
    assert_eq!(out, vec![5, 0]);
    let gone = OsError { code: Some(107), text: "Transport endpoint is not connected".to_string() };
    let (e, out) = run(&[5, 0, 5, 1, 0, 1, 1, 2, 3, 4, 0, 80], Err(gone), false);
    assert!(matches!(&e, IoError::Os(OsError { code: Some(107), .. })));
    assert_eq!(e.message(), "Transport endpoint is not connected");
    assert_eq!(out, vec![5, 0]);
    let (e, _) = run(&[5, 1], Ok(LOCAL), true);
    assert!(matches!(e, IoError::UnexpectedEof));
    assert_eq!(e.message(), "early eof");
    assert!(matches!(run(&[5, 1], Ok(LOCAL), false).0, IoError::WouldBlock));
}

#[test]
fn a_refusal_reads_no_further() {
    let run = |bytes: &[u8]| {
        let mut wire = Wire::new();
        wire.feed(bytes);
        let mut part = SocksPart::Greeting;
        assert!(server_handshake(&mut wire, &mut part, &Ok(LOCAL)).is_err());
        wire.inbox
    };
    assert_eq!(run(&[4, 1, 0, 7]), vec![0, 7]);
    assert_eq!(run(&[5, 1, 0, 5, 1, 0, 2, 8, 9]), vec![8, 9]);
    assert_eq!(run(&[5, 0, 5, 2, 0, 1, 1, 2, 3, 4, 0, 80, 6]), vec![6]);
    assert_eq!(run(&[5, 0, 5, 1, 0, 1, 1, 2]), vec![5, 1, 0, 1, 1, 2]);
}

#[test]
fn the_end_of_the_stream_ends_a_handshake() {
    for bytes in [vec![5u8], vec![5, 3, 0], vec![5, 0, 5, 1], vec![5, 0, 5, 1, 0, 3, 9, b'h']] {
        let mut wire = Wire::new();
        wire.feed(&bytes);
        let mut part = SocksPart::Greeting;
        assert!(matches!(server_handshake(&mut wire, &mut part, &Ok(LOCAL)), Err(IoError::WouldBlock)));
        wire.close();
        assert!(matches!(server_handshake(&mut wire, &mut part, &Ok(LOCAL)), Err(IoError::UnexpectedEof)));
        assert!(wire.inbox.is_empty());
        assert_eq!(part, SocksPart::Greeting);
    }
}
