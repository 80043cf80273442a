//! What a call of an operation comes to, stated of the call itself: of its arguments and its result.
use crate::addr::SocketAddr;
use crate::aead;
use crate::aead::Suite;
use crate::client::{ClientAction, ClientPhase, ClientSession, SnellClient};
use crate::config::{Config, Launch};
use crate::handshake;
use crate::handshake::Handshake;
use crate::http;
use crate::obfs;
use crate::obfs::Kind;
use crate::opening;
use crate::reading;
use crate::server;
use crate::server::{Phase, ServerAction, ServerSession};
use crate::snell;
use crate::snell::SnellConn;
use crate::socks5;
use crate::socks5::{SocksAddr, SocksPart};
use crate::text;
use crate::tls;
use crate::udp;
use crate::udp::{UdpRelay, UdpStep};
use crate::wire::{IoError, OsError, Wire};
use vstd::prelude::*;

verus! {

// ---- A client ----

/// A session of a client that is made with the type "tls" and a host opens with a client hello whose
/// server name is that host, whatever the target.
pub proof fn lemma_create_tls_session(
    server: &str,
    host: &str,
    psk: &str,
    is_v2: bool,
    c: SnellClient,
    target: &str,
    r: Result<ClientSession, IoError>,
) -> (first: (Seq<u8>, int))
    requires
        call_ensures(SnellClient::new, (server, "tls", host, psk, is_v2), c),
        call_ensures(SnellClient::create_session, (&c, target), r),
    ensures
        r is Ok,
        first.0.len() == 16,
        0 <= first.1 <= r->Ok_0.conn.wire().outbox@.len(),
        tls::is_client_hello(r->Ok_0.conn.wire().outbox@.take(first.1), first.0, vstd::utf8::encode_utf8(host@)),
        r->Ok_0.conn.decoder().obfs == obfs::fresh_reader(Kind::TlsClient),
        r->Ok_0.phase == ClientPhase::Response,
        r->Ok_0.is_v2 == is_v2,
{
    reading::lemma_sides("tls"@, host@, c.server());
    reading::lemma_sides("tls"@, host@, crate::client::port_text(server@));
    opening::lemma_tls_client_presents(c, target@, r->Ok_0.conn)
}

/// A session of a client that is made with any type, for a host and a port: its first bytes, and the
/// request behind them.
pub proof fn lemma_create_session(
    server: &str,
    obfs_type: &str,
    obfs_host: &str,
    psk: &str,
    is_v2: bool,
    c: SnellClient,
    host: Seq<char>,
    port: u16,
    target: &str,
    r: Result<ClientSession, IoError>,
) -> (first: (Seq<u8>, int))
    requires
        target@ == host + seq![':'] + text::decimal(port as nat),
        vstd::utf8::encode_utf8(host).len() <= 255,
        call_ensures(SnellClient::new, (server, obfs_type, obfs_host, psk, is_v2), c),
        call_ensures(SnellClient::create_session, (&c, target), r),
    ensures
        r is Ok,
        ({
            let (salt, k) = first;
            let out = r->Ok_0.conn.wire().outbox@;
            let name = vstd::utf8::encode_utf8(host);
            let request = seq![
                1u8,
                if is_v2 {
                    5u8
                } else {
                    1u8
                },
                0u8,
                name.len() as u8,
            ] + name + seq![(port / 256) as u8, (port % 256) as u8];
            let length = seq![(request.len() / 256) as u8, (request.len() % 256) as u8];
            let derived = aead::argon2id_output(8, 3, 1, vstd::utf8::encode_utf8(psk@), salt, 32);
            let record = if is_v2 {
                aead::aes128_gcm_seal(derived.take(16), opening::nonce_zero(), length) + aead::aes128_gcm_seal(
                    derived.take(16),
                    opening::nonce_one(),
                    request,
                )
            } else {
                aead::chacha20_poly1305_seal(derived.take(32), opening::nonce_zero(), length) + aead::chacha20_poly1305_seal(
                    derived.take(32),
                    opening::nonce_one(),
                    request,
                )
            };
            &&& salt.len() == 16
            &&& 0 <= k <= out.len()
            &&& obfs_type@ == "tls"@ ==> tls::is_client_hello(out.take(k), salt, vstd::utf8::encode_utf8(obfs_host@)) && out.skip(k)
                == seq![0x17u8, 0x03u8, 0x03u8, (record.len() / 256) as u8, (record.len() % 256) as u8] + record
            &&& obfs_type@ == "http"@ ==> obfs::is_http_request(
                out.take(k),
                salt,
                obfs_host@,
                crate::client::port_text(server@),
            ) && out.skip(k) == record
            &&& obfs_type@ != "tls"@ && obfs_type@ != "http"@ ==> out == salt + record
        }),
        r->Ok_0.phase == ClientPhase::Response,
        r->Ok_0.is_v2 == is_v2,
        r->Ok_0.conn.decoder().psk == vstd::utf8::encode_utf8(psk@),
        r->Ok_0.conn.decoder().suite == (if is_v2 {
            Suite::Aes128Gcm
        } else {
            Suite::ChaCha20Poly1305
        }),
        r->Ok_0.conn.decoder().fallback_suite is None,
{
    opening::lemma_client_opens(c, host, port, r->Ok_0.conn)
}

/// Bytes from the application go to the server as they are, in the records of the connection; no bytes,
/// and an application that fails, end the stream in version 2 with a record without payload, and the
/// session in version 1. Outside a relay they change nothing.
pub proof fn lemma_application(s: &mut ClientSession, data: &[u8])
    requires
        call_ensures(ClientSession::app_data, (s, data), ()),
    ensures
        old(s).phase == ClientPhase::Relaying && data@.len() > 0 ==> final(s).phase == ClientPhase::Relaying && sends(
            old(s).conn,
            data@,
            final(s).conn,
        ),
        old(s).phase == ClientPhase::Relaying && data@.len() == 0 && old(s).is_v2 ==> final(s).phase == ClientPhase::Draining && sends(
            old(s).conn,
            seq![],
            final(s).conn,
        ),
        old(s).phase == ClientPhase::Relaying && data@.len() == 0 && !old(s).is_v2 ==> final(s).phase == ClientPhase::Closed
            && final(s).conn.wire().outbox@ == old(s).conn.wire().outbox@,
        old(s).phase != ClientPhase::Relaying ==> *final(s) == *old(s),
        final(s).is_v2 == old(s).is_v2,
{
}

/// An application whose stream fails ends the relay as one whose stream ends.
pub proof fn lemma_application_fails(s: &mut ClientSession)
    requires
        call_ensures(ClientSession::app_ended, (s,), ()),
    ensures
        old(s).phase == ClientPhase::Relaying && old(s).is_v2 ==> final(s).phase == ClientPhase::Draining && sends(
            old(s).conn,
            seq![],
            final(s).conn,
        ),
        old(s).phase == ClientPhase::Relaying && !old(s).is_v2 ==> final(s).phase == ClientPhase::Closed && final(s).conn.wire().outbox@ == old(s).conn.wire().outbox@,
        old(s).phase != ClientPhase::Relaying ==> *final(s) == *old(s),
{
}

/// Whether data goes out in records behind what was to be sent before, and nothing is read.
pub open spec fn sends(before: SnellConn, data: Seq<u8>, after: SnellConn) -> bool {
    &&& snell::sent(before, snell::write_suite(before.decoder()), before.decoder().psk, data, after)
    &&& after.decoder() == before.decoder()
    &&& after.wire().inbox@ == before.wire().inbox@
    &&& after.wire().eof == before.wire().eof
}

// ---- A server ----

/// A session of a server is fresh: it knows both suites, reads and writes under the disguise of its type,
/// and awaits a request.
pub proof fn lemma_server_session(psk: &str, obfs_type: &str, r: Result<ServerSession, IoError>)
    requires
        call_ensures(ServerSession::new, (psk, obfs_type), r),
    ensures
        r is Ok,
        ({
            let s = r->Ok_0;
            let kind = if obfs_type@ == "tls"@ {
                Kind::TlsServer
            } else if obfs_type@ == "http"@ {
                Kind::HttpServer
            } else {
                Kind::Plain
            };
            &&& s.phase == Phase::Handshake(Handshake::Head)
            &&& s.is_v2
            &&& s.conn.decoder().psk == vstd::utf8::encode_utf8(psk@)
            &&& s.conn.decoder().suite is Aes128Gcm
            &&& s.conn.decoder().fallback_suite == Some(Suite::ChaCha20Poly1305)
            &&& s.conn.decoder().key is None && s.conn.decoder().leftover.len() == 0 && !s.conn.decoder().switched
            &&& s.conn.decoder().obfs.kind == kind && s.conn.decoder().obfs.first && s.conn.decoder().obfs.pending.len() == 0
            &&& s.conn.encoder().obfs.kind == kind && s.conn.encoder().obfs.first && s.conn.encoder().key is None
            &&& s.conn.wire().inbox@.len() == 0 && s.conn.wire().outbox@.len() == 0 && !s.conn.wire().eof
        }),
{
    reading::lemma_sides(obfs_type@, seq![], seq![]);
}

/// A target that is connected is answered with 0, and the relay begins.
pub proof fn lemma_connected(s: &mut ServerSession)
    requires
        call_ensures(ServerSession::connected, (s,), ()),
    ensures
        old(s).phase is Connecting ==> sends(old(s).conn, seq![0u8], final(s).conn) && final(s).phase is Relaying && final(s).is_v2
            == old(s).is_v2,
        old(s).phase !is Connecting ==> *final(s) == *old(s),
{
}

/// A target that could not be connected is answered with 2, 0, and the message behind its length, of
/// which up to 250 bytes go out. In version 2 the next request is read.
pub proof fn lemma_connect_failed(s: &mut ServerSession, message: &str)
    requires
        call_ensures(ServerSession::connect_failed, (s, message), ()),
    ensures
        ({
            let bytes = vstd::utf8::encode_utf8(message@);
            let shown = if bytes.len() <= 250 {
                bytes
            } else {
                bytes.take(250)
            };
            old(s).phase is Connecting ==> sends(old(s).conn, seq![2u8, 0u8, shown.len() as u8] + shown, final(s).conn) && final(s).is_v2
                == old(s).is_v2
        }),
        old(s).phase is Connecting && old(s).is_v2 ==> final(s).phase == Phase::Handshake(Handshake::Head),
        old(s).phase is Connecting && !old(s).is_v2 ==> final(s).phase is Closed,
        old(s).phase !is Connecting ==> *final(s) == *old(s),
{
    handshake::lemma_error_bytes(message@);
}

/// Bytes from the target go to the client as they are, in the records of the connection. No bytes end the
/// stream in version 2 with a record without payload, and the session in version 1.
pub proof fn lemma_target_data(s: &mut ServerSession, data: &[u8])
    requires
        call_ensures(ServerSession::target_data, (s, data), ()),
    ensures
        old(s).phase is Relaying && data@.len() > 0 ==> final(s).phase is Relaying && sends(old(s).conn, data@, final(s).conn),
        old(s).phase is Relaying && data@.len() == 0 && old(s).is_v2 ==> final(s).phase is Draining && sends(
            old(s).conn,
            seq![],
            final(s).conn,
        ),
        old(s).phase is Relaying && data@.len() == 0 && !old(s).is_v2 ==> final(s).phase is Closed && final(s).conn.wire().outbox@ == old(s).conn.wire().outbox@,
        old(s).phase is Relaying ==> final(s).is_v2 == old(s).is_v2,
        old(s).phase !is Relaying ==> *final(s) == *old(s),
{
}

/// A target that fails ends the relay as one whose stream ends; a UDP socket that fails ends the session.
pub proof fn lemma_target_ended(s: &mut ServerSession)
    requires
        call_ensures(ServerSession::target_ended, (s,), ()),
    ensures
        old(s).phase is Relaying && old(s).is_v2 ==> final(s).phase is Draining && sends(old(s).conn, seq![], final(s).conn),
        old(s).phase is Relaying && !old(s).is_v2 ==> final(s).phase is Closed && final(s).conn.wire().outbox@ == old(s).conn.wire().outbox@,
        old(s).phase is BindingUdp || old(s).phase is Udp ==> final(s).phase is Closed && final(s).conn.wire().outbox@ == old(s).conn.wire().outbox@,
        old(s).phase !is Relaying && old(s).phase !is BindingUdp && old(s).phase !is Udp ==> *final(s) == *old(s),
{
}

/// A UDP socket that is open is answered with 0, and frames are taken in, with no target known.
pub proof fn lemma_udp_bound(s: &mut ServerSession)
    requires
        call_ensures(ServerSession::udp_bound, (s,), ()),
    ensures
        old(s).phase is BindingUdp ==> sends(old(s).conn, seq![0u8], final(s).conn) && final(s).phase is Udp && final(s).phase->Udp_0.known().len() == 0 && final(s).phase->Udp_0.waiting() is None,
        old(s).phase !is BindingUdp ==> *final(s) == *old(s),
{
}

/// What a session does with bytes that have arrived, and with a lookup that was answered, is a step of it.
pub proof fn lemma_steps(
    s: &mut ServerSession,
    action: ServerAction,
    t: &mut ServerSession,
    a: Option<SocketAddr>,
    answer: ServerAction,
    c: &mut ClientSession,
    client_action: ClientAction,
)
    requires
        call_ensures(ServerSession::step, (s,), action),
        call_ensures(ServerSession::udp_resolved, (t, a), answer),
        call_ensures(ClientSession::step, (c,), client_action),
    ensures
        server::stepped(*old(s), action, *final(s)),
        old(t).phase is Udp ==> final(t).phase is Udp && udp::lookup_taken(
            old(t).phase->Udp_0,
            a,
            server::udp_step(answer),
            final(t).phase->Udp_0,
        ) && final(t).conn.wire().outbox@ == old(t).conn.wire().outbox@,
        old(t).phase !is Udp ==> answer is Again && *final(t) == *old(t),
        crate::client::stepped(*old(c), client_action, *final(c)),
{
}

// ---- UDP ----

/// Where the address of the target of a frame is known, taking in the frame sends its datagram there as
/// it is, whatever its length but zero.
pub proof fn lemma_take_frame(
    relay: &mut UdpRelay,
    frame: &[u8],
    step: UdpStep,
    host: Seq<char>,
    port: u16,
    datagram: Seq<u8>,
    i: int,
    to: SocketAddr,
)
    requires
        call_ensures(UdpRelay::take_frame, (relay, frame), step),
        udp::frames(frame@, host, port, datagram),
        datagram.len() > 0,
        old(relay).wf(),
        0 <= i < old(relay).known().len(),
        old(relay).known()[i] == (host + seq![':'] + text::decimal(port as nat), to),
    ensures
        step matches UdpStep::Send { to: a, data } && a == to && data@ == datagram,
{
    udp::lemma_known_target(frame@, host, port, datagram, i, to, *old(relay), step, *final(relay));
}

/// Where it is not known, the target is looked up, and with the answer the datagram is sent as it is.
pub proof fn lemma_take_frame_and_answer(
    relay: &mut UdpRelay,
    frame: &[u8],
    first: UdpStep,
    later: &mut UdpRelay,
    second: UdpStep,
    host: Seq<char>,
    port: u16,
    datagram: Seq<u8>,
    to: SocketAddr,
)
    requires
        call_ensures(UdpRelay::take_frame, (relay, frame), first),
        *old(later) == *final(relay),
        call_ensures(UdpRelay::resolved, (later, Some(to)), second),
        udp::frames(frame@, host, port, datagram),
        datagram.len() > 0,
        old(relay).wf(),
        forall|i: int|
            0 <= i < old(relay).known().len() ==> (#[trigger] old(relay).known()[i]).0 != host + seq![':'] + text::decimal(port as nat),
    ensures
        first matches UdpStep::Resolve(target) && target@ == host + seq![':'] + text::decimal(port as nat),
        second matches UdpStep::Send { to: a, data } && a == to && data@ == datagram,
        final(later).known().len() > 0 && final(later).known()[0] == (host + seq![':'] + text::decimal(port as nat), to),
{
    udp::lemma_target_is_looked_up(
        frame@,
        host,
        port,
        datagram,
        to,
        *old(relay),
        first,
        *final(relay),
        second,
        *final(later),
    );
}

// ---- SOCKS5 ----

/// A handshake for a tunnel or for UDP, with each type of address, succeeds.
pub proof fn lemma_socks_handshake(
    stream: &mut Wire,
    part: &mut SocksPart,
    local: &Result<SocketAddr, OsError>,
    r: Result<(SocksAddr, u8), IoError>,
    methods: Seq<u8>,
    version: u8,
    command: u8,
    reserved: u8,
    host: Seq<u8>,
    port: u16,
    address: Seq<u8>,
    more: Seq<u8>,
)
    requires
        call_ensures(socks5::server_handshake, (stream, part, local), r),
        *old(part) == SocksPart::Greeting,
        *local is Ok,
        methods.len() <= 255,
        command == 1 || command == 3,
        ({
            ||| host.len() == 4 && address == seq![1u8] + host + seq![(port / 256) as u8, (port % 256) as u8]
            ||| host.len() == 16 && address == seq![4u8] + host + seq![(port / 256) as u8, (port % 256) as u8]
            ||| host.len() <= 255 && address == seq![3u8, host.len() as u8] + host + seq![(port / 256) as u8, (port % 256) as u8]
        }),
        old(stream).inbox@ == seq![5u8, methods.len() as u8] + methods + seq![version, command, reserved] + address + more,
    ensures
        r matches Ok(v) && v.0.data@ == address && v.1 == command,
        final(stream).inbox@ == more,
        *final(part) == SocksPart::Greeting,
        match local->Ok_0 {
            SocketAddr::V4 { ip, port: p } => final(stream).outbox@ == old(stream).outbox@ + seq![5u8, 0u8] + seq![5u8, 0u8, 0u8] + (
            seq![1u8] + ip@ + seq![(p / 256) as u8, (p % 256) as u8]),
            SocketAddr::V6 { ip, port: p, .. } => final(stream).outbox@ == old(stream).outbox@ + seq![5u8, 0u8] + seq![5u8, 0u8, 0u8] + (
            seq![4u8] + ip@ + seq![(p / 256) as u8, (p % 256) as u8]),
        },
{
    socks5::lemma_handshake_succeeds(
        methods,
        version,
        command,
        reserved,
        host,
        port,
        address,
        more,
        local->Ok_0,
        *old(stream),
        r,
        *final(part),
        *final(stream),
    );
}

/// The text of an address of a host name of up to 255 bytes is the name, a colon and the port.
pub proof fn lemma_domain_text(a: SocksAddr, r: String, host: Seq<char>, port: u16)
    requires
        call_ensures(SocksAddr::to_string_addr, (&a,), r),
        vstd::utf8::encode_utf8(host).len() <= 255,
        a.data@ == seq![3u8, vstd::utf8::encode_utf8(host).len() as u8] + vstd::utf8::encode_utf8(host) + seq![
            (port / 256) as u8,
            (port % 256) as u8,
        ],
    ensures
        r@ == host + seq![':'] + text::decimal(port as nat),
{
    socks5::lemma_domain_address(host, port, seq![]);
    assert(a.data@ + Seq::<u8>::empty() =~= a.data@);
}

/// The text of an IPv4 address is its numbers with points between them, a colon and the port; that of an
/// IPv6 address is the address in brackets, a colon and the port. Both are kept through the form that
/// SOCKS5 writes.
pub proof fn lemma_socket_text(a: SocketAddr, s: SocksAddr, r: String)
    requires
        call_ensures(SocksAddr::from_socket_addr, (&a,), s),
        call_ensures(SocksAddr::to_string_addr, (&s,), r),
    ensures
        match a {
            SocketAddr::V4 { ip, port } => r@ == text::decimal(ip@[0] as nat) + seq!['.'] + text::decimal(ip@[1] as nat) + seq!['.']
                + text::decimal(ip@[2] as nat) + seq!['.'] + text::decimal(ip@[3] as nat) + seq![':'] + text::decimal(port as nat),
            SocketAddr::V6 { ip, port, .. } => r@ == seq!['['] + crate::addr::ipv6_text(ip@) + seq![']', ':'] + text::decimal(port as nat),
        },
{
    let none: Seq<u8> = seq![];
    assert(s.data@ + none =~= s.data@);
    socks5::lemma_socket_address_bytes(a);
    match a {
        SocketAddr::V4 { ip, port } => socks5::lemma_ipv4_address(ip@, port, none),
        SocketAddr::V6 { ip, port, .. } => socks5::lemma_ipv6_address(ip@, port, none),
    }
}

// ---- A configuration ----

/// A configuration launches the type that it sets: "tls" for "tls", "http" for "http", none for "none" and
/// "off", and for every other setting that setting.
pub proof fn lemma_launch(c: Config, l: Launch)
    requires
        call_ensures(Config::launch, (&c,), l),
    ensures
        l matches Launch::Server { listen, psk, obfs } ==> {
            &&& c.obfs@ == "tls"@ ==> obfs@ == "tls"@
            &&& c.obfs@ == "http"@ ==> obfs@ == "http"@
            &&& c.obfs@ == "none"@ || c.obfs@ == "off"@ ==> obfs@.len() == 0
            &&& c.obfs@ != "none"@ && c.obfs@ != "off"@ ==> obfs@ == c.obfs@
            &&& listen@ == c.listen@ && psk@ == c.psk@
        },
        l matches Launch::Client { listen, client } ==> {
            &&& c.obfs@ == "tls"@ ==> client.obfs() == "tls"@
            &&& c.obfs@ == "http"@ ==> client.obfs() == "http"@
            &&& c.obfs@ == "none"@ || c.obfs@ == "off"@ ==> client.obfs().len() == 0
            &&& c.obfs@ != "none"@ && c.obfs@ != "off"@ ==> client.obfs() == c.obfs@
            &&& c.obfs_host@.len() > 0 ==> client.obfs_host() == c.obfs_host@
            &&& c.obfs_host@.len() == 0 ==> client.obfs_host() == "www.bing.com"@
            &&& client.is_v2() == (c.version@ != seq!['1'])
            &&& listen@ == c.listen@ && client.psk() == c.psk@ && client.server() == c.server_addr@
        },
        l is NoPsk <==> c.psk@.len() == 0,
        l is Server <==> c.psk@.len() > 0 && c.server,
        l is NoServer <==> c.psk@.len() > 0 && !c.server && c.server_addr@.len() == 0,
        l is Client <==> c.psk@.len() > 0 && !c.server && c.server_addr@.len() > 0,
{
    crate::config::lemma_launched_type(c, l);
    crate::config::lemma_launched(c, l);
    if l is Client {
        crate::config::lemma_launched_client(c, l);
    }
}

/// A file of a server, as the documentation shows one, is read as what it says.
pub proof fn lemma_read_server_file(content: &str, c: Config, listen: Seq<char>, psk: Seq<char>, obfs: Seq<char>)
    requires
        call_ensures(Config::parse_file_auto, (content,), c),
        crate::config::fits_line(listen),
        crate::config::fits_line(psk),
        crate::config::fits_line(obfs),
        content@ == seq!['['] + "snell-server"@ + seq![']'] + seq!['\n'] + ("listen"@ + seq![' ', '=', ' '] + listen + seq!['\n'] + (
        "psk"@ + seq![' ', '=', ' '] + psk + seq!['\n'] + ("obfs"@ + seq![' ', '=', ' '] + obfs + seq!['\n'] + seq![]))),
    ensures
        c.server,
        c.listen@ == text::trim(listen),
        c.psk@ == text::trim(psk),
        c.obfs@ == text::trim(obfs),
{
    crate::config::lemma_server_file(listen, psk, obfs);
}

// ---- Connections ----

/// A connection takes in what arrives behind what has arrived before, and hands out all that is to be
/// sent, once.
pub proof fn lemma_wire_of_connection(fed: &mut SnellConn, data: &[u8], closed: &mut SnellConn, drained: &mut SnellConn, out: Vec<u8>)
    requires
        call_ensures(SnellConn::feed, (fed, data), ()),
        call_ensures(SnellConn::close, (closed,), ()),
        call_ensures(SnellConn::take_output, (drained,), out),
    ensures
        final(fed).wire().inbox@ == old(fed).wire().inbox@ + data@,
        final(fed).wire().outbox@ == old(fed).wire().outbox@,
        final(fed).wire().eof == old(fed).wire().eof,
        final(fed).decoder() == old(fed).decoder() && final(fed).encoder() == old(fed).encoder(),
        final(closed).wire().eof,
        final(closed).wire().inbox@ == old(closed).wire().inbox@,
        final(closed).wire().outbox@ == old(closed).wire().outbox@,
        final(closed).decoder() == old(closed).decoder() && final(closed).encoder() == old(closed).encoder(),
        out@ == old(drained).wire().outbox@,
        final(drained).wire().outbox@.len() == 0,
        final(drained).wire().inbox@ == old(drained).wire().inbox@,
        final(drained).decoder() == old(drained).decoder() && final(drained).encoder() == old(drained).encoder(),
{
}

/// Writes send all of the data, and tell how much that was; a request and an error are sent as the
/// protocol has them.
pub proof fn lemma_writes(
    conn: &mut SnellConn,
    data: &[u8],
    n: Result<usize, IoError>,
    asking: &mut SnellConn,
    target: &str,
    is_v2: bool,
    asked: Result<(), IoError>,
    ending: &mut SnellConn,
    ended: Result<(), IoError>,
)
    requires
        call_ensures(SnellConn::snell_write, (conn, data), n),
        call_ensures(handshake::write_header, (asking, target, is_v2), asked),
        call_ensures(SnellConn::write_zero_chunk, (ending,), ended),
    ensures
        n matches Ok(count) && count == data@.len(),
        sends(*old(conn), data@, *final(conn)),
        asked is Ok,
        sends(*old(asking), handshake::request(target@, is_v2), *final(asking)),
        ended is Ok,
        sends(*old(ending), seq![], *final(ending)),
{
}

// ---- Texts ----

/// The text of every error.
pub proof fn lemma_message(e: IoError, r: String)
    requires
        call_ensures(IoError::message, (&e,), r),
    ensures
        match e {
            IoError::WouldBlock => r@ == "operation would block"@,
            IoError::UnexpectedEof => r@ == "early eof"@,
            IoError::ConnectionClosed => r@ == "connection closed"@,
            IoError::ZeroChunk(_) => r@ == "Snell ZERO_CHUNK occurred"@,
            IoError::Aead(t) => r@ == t@,
            IoError::InvalidVersion(v) => r@ == "invalid snell version "@ + text::hexadecimal(v as nat),
            IoError::NotSocks5 => r@ == "not SOCKS5"@,
            IoError::InvalidAddressType => r@ == "invalid address type"@,
            IoError::UnsupportedCommand => r@ == "command not supported"@,
            IoError::Os(o) => r@ == o.text@,
            IoError::Server(m) => r@ == "server error: "@ + m@,
            IoError::UnsupportedResponse => r@ == "command not supported"@,
        },
{
}

/// A date is the one whose day number was asked for, and the text of a time names it.
pub proof fn lemma_date(days: u64, r: (u64, u64, u64), seconds: u64, shown: String)
    requires
        call_ensures(http::days_to_date, (days,), r),
        call_ensures(http::rfc1123_date, (seconds,), shown),
    ensures
        http::valid_date(r.0 as int, r.1 as int, r.2 as int),
        http::day_number(r.0 as int, r.1 as int, r.2 as int) == days,
        days == seconds / 86400 ==> ({
            let w = days as int % 7 * 3;
            let (m, d) = (r.1 as int, r.2 as int);
            let time = seconds as int % 86400;
            shown@ == "ThuFriSatSunMonTueWed"@.subrange(w, w + 3) + ", "@ + http::two_digits(d) + " "@
                + "JanFebMarAprMayJunJulAugSepOctNovDec"@.subrange(3 * m - 3, 3 * m) + " "@ + text::decimal(r.0 as nat) + " "@
                + http::two_digits(time / 3600) + ":"@ + http::two_digits(time % 3600 / 60) + ":"@ + http::two_digits(time % 60) + " GMT"@
        }),
{
    if days == seconds / 86400 {
        http::lemma_date_text(seconds as nat, r.0 as int, r.1 as int, r.2 as int);
    }
}

/// The body length of a header block is the number in its first line for it.
pub proof fn lemma_content_length(headers: &str, r: Option<usize>, before: Seq<Seq<char>>, n: usize, after: Seq<Seq<char>>)
    requires
        call_ensures(http::extract_content_length, (headers,), r),
        forall|i: int|
            0 <= i < before.len() ==> text::one_line(#[trigger] before[i]) && !"Content-Length:"@.is_prefix_of(before[i])
                && !"content-length:"@.is_prefix_of(before[i]),
        forall|i: int| 0 <= i < after.len() ==> text::one_line(#[trigger] after[i]),
    ensures
        headers@ == http::joined(before) ==> r is None,
        headers@ == http::joined(before + seq!["Content-Length:"@ + (seq![' '] + text::decimal(n as nat) + seq![])] + after) ==> r == Some(n),
        headers@ == http::joined(before + seq!["content-length:"@ + (seq![' '] + text::decimal(n as nat) + seq![])] + after) ==> r == Some(n),
{
    let shown = seq![' '] + text::decimal(n as nat) + seq![];
    http::lemma_announced(before, seq![' '], n as nat, seq![], seq![], after);
    http::lemma_lines_of_joined(before);
    text::lemma_decimal_is_digits(n as nat);
    reveal_strlit("Content-Length:");
    reveal_strlit("content-length:");
    let a = before + seq!["Content-Length:"@ + shown] + after;
    let b = before + seq!["content-length:"@ + shown] + after;
    assert(text::one_line("Content-Length:"@ + shown)) by {
        lemma_digits_in_line("Content-Length:"@, n as nat);
    }
    assert(text::one_line("content-length:"@ + shown)) by {
        lemma_digits_in_line("content-length:"@, n as nat);
    }
    lemma_lines_around(before, "Content-Length:"@ + shown, after);
    lemma_lines_around(before, "content-length:"@ + shown, after);
}

proof fn lemma_digits_in_line(name: Seq<char>, n: nat)
    requires
        text::one_line(name),
    ensures
        text::one_line(name + (seq![' '] + text::decimal(n) + seq![])),
{
    text::lemma_decimal_is_digits(n);
    let line = name + (seq![' '] + text::decimal(n) + seq![]);
    assert forall|i: int| 0 <= i < line.len() implies line[i] != '\n' by {
        if i > name.len() {
            assert(text::is_digit(text::decimal(n)[i - name.len() - 1]));
        }
    }
}

proof fn lemma_lines_around(before: Seq<Seq<char>>, line: Seq<char>, after: Seq<Seq<char>>)
    requires
        forall|i: int| 0 <= i < before.len() ==> text::one_line(#[trigger] before[i]),
        text::one_line(line),
        forall|i: int| 0 <= i < after.len() ==> text::one_line(#[trigger] after[i]),
    ensures
        text::lines(http::joined(before + seq![line] + after)) == before + seq![line] + after,
{
    let all = before + seq![line] + after;
    assert forall|i: int| 0 <= i < all.len() implies text::one_line(#[trigger] all[i]) by {
        if i < before.len() {
            assert(all[i] == before[i]);
        } else if i > before.len() {
            assert(all[i] == after[i - before.len() - 1]);
        }
    }
    http::lemma_lines_of_joined(all);
}

/// From a file to the wire: the file of a client with the type "tls" and a host to present launches a
/// client whose sessions open with a client hello for that host.
pub proof fn lemma_file_to_hello(
    content: &str,
    c: Config,
    listen: Seq<char>,
    server: Seq<char>,
    psk: Seq<char>,
    host: Seq<char>,
    version: Seq<char>,
    l: Launch,
    target: &str,
    r: Result<ClientSession, IoError>,
) -> (first: (Seq<u8>, int))
    requires
        crate::config::fits_line(listen),
        crate::config::fits_line(server),
        crate::config::fits_line(psk),
        crate::config::fits_line(host),
        crate::config::fits_line(version),
        text::trim(server).len() > 0,
        text::trim(psk).len() > 0,
        text::trim(host).len() > 0,
        content@ == seq!['['] + "snell-client"@ + seq![']'] + seq!['\n'] + ("listen"@ + seq![' ', '=', ' '] + listen + seq!['\n'] + (
        "server"@ + seq![' ', '=', ' '] + server + seq!['\n'] + ("psk"@ + seq![' ', '=', ' '] + psk + seq!['\n'] + ("obfs"@ + seq![
            ' ',
            '=',
            ' ',
        ] + "tls"@ + seq!['\n'] + ("obfs-host"@ + seq![' ', '=', ' '] + host + seq!['\n'] + ("version"@ + seq![' ', '=', ' '] + version
            + seq!['\n'] + seq![])))))),
        call_ensures(Config::parse_file_auto, (content,), c),
        call_ensures(Config::launch, (&c,), l),
        l matches Launch::Client { client, .. } ==> call_ensures(SnellClient::create_session, (&client, target), r),
    ensures
        l matches Launch::Client { client, .. } && client.server() == text::trim(server) && client.psk() == text::trim(psk)
            && client.is_v2() == (text::trim(version) != seq!['1']),
        r is Ok,
        first.0.len() == 16,
        0 <= first.1 <= r->Ok_0.conn.wire().outbox@.len(),
        tls::is_client_hello(r->Ok_0.conn.wire().outbox@.take(first.1), first.0, vstd::utf8::encode_utf8(text::trim(host))),
{
    lemma_type_fits_line();
    crate::config::lemma_client_file(listen, server, psk, "tls"@, host, version);
    lemma_launch(c, l);
    let client = l->client;
    opening::lemma_tls_client_presents(client, target@, r->Ok_0.conn)
}

proof fn lemma_type_fits_line()
    ensures
        crate::config::fits_line("tls"@),
        text::trim("tls"@) == "tls"@,
{
    reveal_strlit("tls");
    text::lemma_trim_id("tls"@);
}

// ---- Reads ----

/// A read into a buffer puts what is left of an opened record into its front, as much as the buffer
/// holds, tells how much that was, and leaves the rest of the buffer as it was.
pub proof fn lemma_read_into(conn: &mut SnellConn, buf: &mut [u8], r: Result<usize, IoError>, data: Seq<u8>)
    requires
        call_ensures(SnellConn::snell_read, (conn, buf), r),
        data.len() > 0,
        old(conn).decoder().leftover == data,
    ensures
        r is Ok,
        ({
            let n: int = if data.len() <= old(buf)@.len() {
                data.len() as int
            } else {
                old(buf)@.len() as int
            };
            &&& r->Ok_0 == n
            &&& final(buf)@ == data.take(n) + old(buf)@.skip(n)
            &&& final(conn).decoder().leftover == data.skip(n)
            &&& final(conn).wire().outbox@ == old(conn).wire().outbox@
        }),
{
    reveal(snell::snell_read);
    let n = r->Ok_0 as int;
    assert(final(buf)@ =~= final(buf)@.take(n) + final(buf)@.skip(n));
}

/// A response code is the next byte of what is left of an opened record.
pub proof fn lemma_read_response(conn: &mut SnellConn, r: Result<u8, IoError>, code: u8, more: Seq<u8>)
    requires
        call_ensures(SnellConn::read_response, (conn,), r),
        old(conn).decoder().leftover == seq![code] + more,
    ensures
        r matches Ok(c) && c == code,
        final(conn).decoder().leftover == more,
{
    snell::lemma_read_leftover(old(conn).decoder(), old(conn).wire().inbox@, old(conn).wire().eof, 1);
    assert(old(conn).decoder().leftover.take(1) =~= seq![code]);
    assert(old(conn).decoder().leftover.skip(1) =~= more);
    handshake::lemma_buffer(seq![code], 1);
}

/// An exact read off the wire takes as many bytes as were asked for, or none: where they are not there, it
/// would block, or fails for good where the stream has ended.
pub proof fn lemma_read_exact(w: &mut Wire, n: usize, r: Result<Vec<u8>, IoError>)
    requires
        call_ensures(Wire::read_exact, (w, n), r),
    ensures
        n <= old(w).inbox@.len() ==> (r matches Ok(v) && v@ == old(w).inbox@.take(n as int)) && final(w).inbox@ == old(w).inbox@.skip(
            n as int,
        ),
        n > old(w).inbox@.len() && old(w).eof ==> (r matches Err(e) && e is UnexpectedEof) && final(w).inbox@.len() == 0,
        n > old(w).inbox@.len() && !old(w).eof ==> (r matches Err(e) && e is WouldBlock) && final(w).inbox@ == old(w).inbox@,
        final(w).outbox@ == old(w).outbox@,
        final(w).eof == old(w).eof,
{
}

/// The server reads the target and the command of a request, whatever the client id.
pub proof fn lemma_read_request(
    conn: &mut SnellConn,
    progress: &mut Handshake,
    r: Result<(String, u8), IoError>,
    command: u8,
    id: Seq<u8>,
    host: Seq<char>,
    port: u16,
    more: Seq<u8>,
)
    requires
        call_ensures(handshake::server_handshake, (conn, progress), r),
        *old(progress) == Handshake::Head,
        command != 6,
        id.len() <= 255,
        vstd::utf8::encode_utf8(host).len() <= 255,
        old(conn).decoder().leftover == seq![1u8, command, id.len() as u8] + id + seq![vstd::utf8::encode_utf8(host).len() as u8]
            + vstd::utf8::encode_utf8(host) + seq![(port / 256) as u8, (port % 256) as u8] + more,
    ensures
        r matches Ok(v) && v.0@ == host + seq![':'] + text::decimal(port as nat) && v.1 == command,
        final(conn).decoder().leftover == more,
        final(conn).wire().outbox@ == old(conn).wire().outbox@,
        *final(progress) == Handshake::Head,
{
    handshake::lemma_any_request(
        command,
        id,
        vstd::utf8::encode_utf8(host),
        port,
        old(conn).decoder(),
        more,
        old(conn).wire().inbox@,
        old(conn).wire().eof,
    );
    text::lemma_text_of_bytes(host);
}

/// A frame for a host and a port is parsed as that, with the datagram behind it.
pub proof fn lemma_parse_frame(
    f: &[u8],
    r: Result<(String, Vec<u8>), udp::FrameFault>,
    host: Seq<char>,
    port: u16,
    datagram: Seq<u8>,
)
    requires
        call_ensures(udp::parse_frame, (f,), r),
        udp::frames(f@, host, port, datagram),
    ensures
        r matches Ok(v) && v.0@ == host + seq![':'] + text::decimal(port as nat) && v.1@ == datagram,
{
    udp::lemma_frame(f@, host, port, datagram);
}

/// A key is the front of what Argon2id derives, and a nonce steps to the next number.
pub proof fn lemma_keys_and_nonces(psk: &[u8], salt: &[u8], key_size: usize, key: Vec<u8>, nonce: &mut [u8])
    requires
        call_ensures(aead::snell_kdf, (psk, salt, key_size), key),
        call_ensures(aead::increment_nonce, (nonce,), ()),
    ensures
        key@ == aead::argon2id_output(8, 3, 1, psk@, salt@, 32).take(key_size as int),
        final(nonce)@.len() == old(nonce)@.len(),
        aead::nonce_value(final(nonce)@) == (if aead::nonce_value(old(nonce)@) + 1 == vstd::arithmetic::power::pow(
            256,
            old(nonce)@.len(),
        ) {
            0
        } else {
            aead::nonce_value(old(nonce)@) + 1
        }),
{
}

}
