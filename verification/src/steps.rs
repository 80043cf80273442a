//! What the sessions of both sides do, in terms of the bytes that they have before them: each request,
//! each response, and each way in which a relay ends.
use crate::addr::SocketAddr;
use crate::client;
use crate::client::{ClientAction, ClientPhase, ClientSession};
use crate::handshake;
use crate::handshake::{ErrorPart, Handshake, HandshakeStop};
use crate::server;
use crate::server::{Phase, ServerAction, ServerSession, SessionFault};
use crate::session;
use crate::snell;
use crate::snell::{SnellConn, Stop};
use crate::text;
use crate::udp;
use crate::udp::{FrameFault, UdpRelay};
use crate::wire::IoError;
use vstd::prelude::*;

verus! {

/// Whether a step leaves `left` of the opened payload, and has nothing to send.
pub open spec fn only_reads(before: SnellConn, left: Seq<u8>, after: SnellConn) -> bool {
    &&& after.decoder().leftover == left
    &&& after.wire().inbox@ == before.wire().inbox@
    &&& after.wire().outbox@ == before.wire().outbox@
    &&& after.encoder() == before.encoder()
}

// ---- Requests ----

/// A request for a tunnel, of either version, has the server connect to the host and port that it names.
/// The connection is kept for further requests only where all of them were of version 2.
pub proof fn lemma_tunnel_request(
    command: u8,
    id: Seq<u8>,
    host: Seq<char>,
    port: u16,
    more: Seq<u8>,
    before: ServerSession,
    action: ServerAction,
    after: ServerSession,
)
    requires
        command == 1 || command == 5,
        id.len() <= 255,
        vstd::utf8::encode_utf8(host).len() <= 255,
        before.phase == Phase::Handshake(Handshake::Head),
        before.conn.decoder().leftover == seq![1u8, command, id.len() as u8] + id + seq![vstd::utf8::encode_utf8(host).len() as u8]
            + vstd::utf8::encode_utf8(host) + seq![(port / 256) as u8, (port % 256) as u8] + more,
        server::stepped(before, action, after),
    ensures
        action matches ServerAction::Connect(target) && target@ == host + seq![':'] + text::decimal(port as nat),
        after.phase is Connecting,
        after.is_v2 == (before.is_v2 && command == 5),
        only_reads(before.conn, more, after.conn),
{
    handshake::lemma_any_request(
        command,
        id,
        vstd::utf8::encode_utf8(host),
        port,
        before.conn.decoder(),
        more,
        before.conn.wire().inbox@,
        before.conn.wire().eof,
    );
    text::lemma_text_of_bytes(host);
}

/// A request with any other command ends the session: a ping with the answer 1, and a command that is
/// not known with a fault that tells which it is.
pub proof fn lemma_other_request(
    command: u8,
    id: Seq<u8>,
    host: Seq<u8>,
    port: u16,
    more: Seq<u8>,
    before: ServerSession,
    action: ServerAction,
    after: ServerSession,
)
    requires
        command != 1 && command != 5 && command != 6,
        id.len() <= 255,
        host.len() <= 255,
        before.phase == Phase::Handshake(Handshake::Head),
        before.conn.decoder().leftover == seq![1u8, command, id.len() as u8] + id + seq![host.len() as u8] + host + seq![
            (port / 256) as u8,
            (port % 256) as u8,
        ] + more,
        server::stepped(before, action, after),
    ensures
        after.phase is Closed,
        after.is_v2 == before.is_v2,
        command == 0 ==> action is Close && snell::sent(
            before.conn,
            snell::write_suite(before.conn.decoder()),
            before.conn.decoder().psk,
            seq![1u8],
            after.conn,
        ),
        command != 0 ==> (action matches ServerAction::Fail(SessionFault::Command(c)) && c == command) && only_reads(
            before.conn,
            more,
            after.conn,
        ),
{
    handshake::lemma_any_request(
        command,
        id,
        host,
        port,
        before.conn.decoder(),
        more,
        before.conn.wire().inbox@,
        before.conn.wire().eof,
    );
}

/// A request for UDP has the server open a socket, and holds no target. One of another version of the
/// protocol ends the session with a fault that tells which it is.
pub proof fn lemma_udp_request(id: Seq<u8>, version: u8, more: Seq<u8>, before: ServerSession, action: ServerAction, after: ServerSession)
    requires
        id.len() <= 255,
        before.phase == Phase::Handshake(Handshake::Head),
        before.conn.decoder().leftover == seq![version, 6u8, id.len() as u8] + id + more,
        server::stepped(before, action, after),
    ensures
        version == 1 ==> action is BindUdp && after.phase is BindingUdp && only_reads(before.conn, more, after.conn),
        version != 1 ==> (action matches ServerAction::Fail(SessionFault::Handshake(e)) && (e matches IoError::InvalidVersion(v) && v
            == version)) && after.phase is Closed && only_reads(before.conn, id + more, after.conn),
        after.is_v2 == before.is_v2,
{
    let d = before.conn.decoder();
    let s = before.conn.wire().inbox@;
    let eof = before.conn.wire().eof;
    if version == 1 {
        handshake::lemma_udp_request(id, d, more, s, eof);
    } else {
        assert(d.leftover =~= seq![version, 6u8, id.len() as u8] + (id + more));
        handshake::lemma_other_version(version, 6u8, id.len() as u8, d, id + more, s, eof);
    }
}

// ---- Responses ----

/// The client's tunnel is open where the response is 0; where it is 2, the message of the error is read;
/// any other response ends the session.
pub proof fn lemma_response(code: u8, more: Seq<u8>, before: ClientSession, action: ClientAction, after: ClientSession)
    requires
        before.phase == ClientPhase::Response,
        before.conn.decoder().leftover == seq![code] + more,
        client::stepped(before, action, after),
    ensures
        code == 0 ==> action is Again && after.phase == ClientPhase::Relaying,
        code == 2 ==> action is Again && after.phase == ClientPhase::Details(ErrorPart::Code),
        code != 0 && code != 2 ==> (action matches ClientAction::Fail(IoError::UnsupportedResponse)) && after.phase
            == ClientPhase::Closed,
        only_reads(before.conn, more, after.conn),
        after.is_v2 == before.is_v2,
{
    let d = before.conn.decoder();
    snell::lemma_read_leftover(d, before.conn.wire().inbox@, before.conn.wire().eof, 1);
    assert(d.leftover.take(1) =~= seq![code]);
    assert(d.leftover.skip(1) =~= more);
}

/// The client's session fails with the message of an error, whatever the error code.
pub proof fn lemma_error_response(
    code: u8,
    message: Seq<char>,
    more: Seq<u8>,
    before: ClientSession,
    action: ClientAction,
    after: ClientSession,
)
    requires
        vstd::utf8::encode_utf8(message).len() <= 255,
        before.phase == ClientPhase::Details(ErrorPart::Code),
        before.conn.decoder().leftover == seq![code, vstd::utf8::encode_utf8(message).len() as u8] + vstd::utf8::encode_utf8(message)
            + more,
        client::stepped(before, action, after),
    ensures
        action matches ClientAction::Fail(IoError::Server(m)) && m@ == message,
        after.phase == ClientPhase::Closed,
        only_reads(before.conn, more, after.conn),
{
    handshake::lemma_any_error(
        code,
        vstd::utf8::encode_utf8(message),
        before.conn.decoder(),
        more,
        before.conn.wire().inbox@,
        before.conn.wire().eof,
    );
    text::lemma_text_of_bytes(message);
}

// ---- Relays ----

/// What a peer sent goes to the target, or to the application, as it is: all that was opened of it, of
/// any length up to what a relay reads at once.
pub proof fn lemma_relayed(
    data: Seq<u8>,
    before: ServerSession,
    action: ServerAction,
    after: ServerSession,
    other: ClientSession,
    other_action: ClientAction,
    other_after: ClientSession,
)
    requires
        0 < data.len() <= 20480,
        before.phase is Relaying,
        before.conn.decoder().leftover == data,
        server::stepped(before, action, after),
        other.phase == ClientPhase::Relaying,
        other.conn.decoder().leftover == data,
        client::stepped(other, other_action, other_after),
    ensures
        action matches ServerAction::ToTarget(out) && out@ == data,
        after.phase is Relaying,
        after.is_v2 == before.is_v2,
        only_reads(before.conn, seq![], after.conn),
        other_action matches ClientAction::ToApp(out) && out@ == data,
        other_after.phase == ClientPhase::Relaying,
        only_reads(other.conn, seq![], other_after.conn),
{
    reveal(snell::snell_read);
    assert(data.take(data.len() as int) =~= data);
    assert(data.skip(data.len() as int) =~= seq![]);
}

/// How the relay of a server goes on where nothing can be read. Bytes that may still come are waited
/// for. Else, in version 2, the server ends its own stream with a record without payload, and reads the
/// next request where the client has ended its stream, and drops what the client still sends where it
/// has not; in version 1 the session is over, and nothing is sent.
pub proof fn lemma_server_relay_ends(stop: Stop, before: ServerSession, action: ServerAction, after: ServerSession)
    requires
        before.phase is Relaying,
        snell::snell_read(before.conn.decoder(), before.conn.wire().inbox@, before.conn.wire().eof, 20480).result == Err::<Seq<u8>, Stop>(
            stop,
        ),
        server::stepped(before, action, after),
    ensures
        after.is_v2 == before.is_v2,
        stop is Lacking ==> action is AwaitEither && after.phase is Relaying && after.conn.wire().outbox@ == before.conn.wire().outbox@,
        stop !is Lacking && before.is_v2 ==> action is Again && snell::sent(
            before.conn,
            snell::write_suite(after.conn.decoder()),
            after.conn.decoder().psk,
            seq![],
            after.conn,
        ),
        stop is ZeroChunk && before.is_v2 ==> after.phase == Phase::Handshake(Handshake::Head),
        stop !is Lacking && stop !is ZeroChunk && before.is_v2 ==> after.phase is Draining,
        stop !is Lacking && !before.is_v2 ==> action is Close && after.phase is Closed && after.conn.wire().outbox@
            == before.conn.wire().outbox@,
{
}

/// How the relay of a client goes on where nothing can be read: as that of a server, but that the session
/// is over where both streams have ended.
pub proof fn lemma_client_relay_ends(stop: Stop, before: ClientSession, action: ClientAction, after: ClientSession)
    requires
        before.phase == ClientPhase::Relaying,
        snell::snell_read(before.conn.decoder(), before.conn.wire().inbox@, before.conn.wire().eof, 20480).result == Err::<Seq<u8>, Stop>(
            stop,
        ),
        client::stepped(before, action, after),
    ensures
        after.is_v2 == before.is_v2,
        stop is Lacking ==> action is AwaitEither && after.phase == ClientPhase::Relaying && after.conn.wire().outbox@
            == before.conn.wire().outbox@,
        stop !is Lacking && before.is_v2 ==> action is Again && snell::sent(
            before.conn,
            snell::write_suite(after.conn.decoder()),
            after.conn.decoder().psk,
            seq![],
            after.conn,
        ),
        stop is ZeroChunk && before.is_v2 ==> after.phase == ClientPhase::Closed,
        stop !is Lacking && stop !is ZeroChunk && before.is_v2 ==> after.phase == ClientPhase::Draining,
        stop !is Lacking && !before.is_v2 ==> action is Again && after.phase == ClientPhase::Closed && after.conn.wire().outbox@
            == before.conn.wire().outbox@,
{
}

/// While a stream is drained, whatever is opened of it is dropped, and nothing is sent; where it ends, in
/// whatever way, a server reads the next request and a client closes.
pub proof fn lemma_drained(
    before: ServerSession,
    action: ServerAction,
    after: ServerSession,
    other: ClientSession,
    other_action: ClientAction,
    other_after: ClientSession,
)
    requires
        before.phase is Draining,
        server::stepped(before, action, after),
        other.phase == ClientPhase::Draining,
        client::stepped(other, other_action, other_after),
    ensures
        ({
            let r = snell::snell_read(before.conn.decoder(), before.conn.wire().inbox@, before.conn.wire().eof, 20480).result;
            &&& r is Ok ==> action is Again && after.phase is Draining
            &&& r == Err::<Seq<u8>, Stop>(Stop::Lacking) ==> action is AwaitClient && after.phase is Draining
            &&& r is Err && r != Err::<Seq<u8>, Stop>(Stop::Lacking) ==> action is Again && after.phase == Phase::Handshake(Handshake::Head)
            &&& after.conn.wire().outbox@ == before.conn.wire().outbox@
            &&& after.is_v2 == before.is_v2
        }),
        ({
            let r = snell::snell_read(other.conn.decoder(), other.conn.wire().inbox@, other.conn.wire().eof, 20480).result;
            &&& r is Ok ==> other_action is Again && other_after.phase == ClientPhase::Draining
            &&& r == Err::<Seq<u8>, Stop>(Stop::Lacking) ==> other_action is AwaitServer && other_after.phase == ClientPhase::Draining
            &&& r is Err && r != Err::<Seq<u8>, Stop>(Stop::Lacking) ==> other_action is Close && other_after.phase == ClientPhase::Closed
            &&& other_after.conn.wire().outbox@ == other.conn.wire().outbox@
        }),
{
}

/// A relay that this side ends: in version 2 its stream ends with a record without payload, and what the
/// peer still sends is dropped, unless it has ended its stream; in version 1 nothing is sent, and the
/// session is over.
pub proof fn lemma_ends_of_relays(is_v2: bool, server_ended: bool)
    ensures
        session::relay_reply(true) == Some(Seq::<u8>::empty()),
        session::relay_reply(false) == None::<Seq<u8>>,
        server::behind_relay(true) is Draining,
        server::behind_relay(false) is Closed,
        client::behind_relay(true, false) is Draining,
        client::behind_relay(true, true) is Closed,
        client::behind_relay(false, server_ended) is Closed,
{
}

/// What a report to a server session has it send: the reply, in the suite in which it writes, behind what
/// it had to send before, or nothing; and nothing is read for it.
pub proof fn lemma_reported(data: Seq<u8>, phase: Phase, before: ServerSession, with: ServerSession, without: ServerSession)
    requires
        server::reported(before, Some(data), phase, with),
        server::reported(before, None, phase, without),
    ensures
        snell::sent(before.conn, snell::write_suite(before.conn.decoder()), before.conn.decoder().psk, data, with.conn),
        with.conn.decoder() == before.conn.decoder(),
        with.conn.wire().inbox@ == before.conn.wire().inbox@,
        with.phase == phase,
        with.is_v2 == before.is_v2,
        without.conn.decoder() == before.conn.decoder(),
        without.conn.encoder() == before.conn.encoder(),
        without.conn.wire().inbox@ == before.conn.wire().inbox@,
        without.conn.wire().outbox@ == before.conn.wire().outbox@,
        without.phase == phase,
        without.is_v2 == before.is_v2,
{
}

/// A server writes in its own suite, until a client has been heard in the other one: from then on in
/// that.
pub proof fn lemma_write_suite(d: snell::Decoder)
    ensures
        d.fallback_suite is None || !d.switched ==> snell::write_suite(d) == d.suite,
        d.fallback_suite is Some && d.switched ==> Some(snell::write_suite(d)) == d.fallback_suite,
{
}

// ---- Datagrams ----

/// A datagram that a client sends for a known target is sent to its address as it is, whatever its length
/// but zero.
pub proof fn lemma_datagram_is_sent(
    frame: Seq<u8>,
    host: Seq<char>,
    port: u16,
    datagram: Seq<u8>,
    i: int,
    to: SocketAddr,
    relay: UdpRelay,
    before: ServerSession,
    action: ServerAction,
    after: ServerSession,
)
    requires
        udp::frames(frame, host, port, datagram),
        datagram.len() > 0,
        frame.len() <= 20480,
        relay.wf(),
        0 <= i < relay.known().len(),
        relay.known()[i] == (host + seq![':'] + text::decimal(port as nat), to),
        before.phase == Phase::Udp(relay),
        before.conn.decoder().leftover == frame,
        server::stepped(before, action, after),
    ensures
        action matches ServerAction::SendUdp { to: a, data } && a == to && data@ == datagram,
        after.phase is Udp,
        only_reads(before.conn, seq![], after.conn),
{
    reveal(snell::snell_read);
    udp::lemma_frame(frame, host, port, datagram);
    assert(frame.take(frame.len() as int) =~= frame);
    assert(frame.skip(frame.len() as int) =~= seq![]);
    let next = after.phase->Udp_0;
    udp::lemma_known_target(frame, host, port, datagram, i, to, relay, server::udp_step(action), next);
}

/// A datagram for another target has the server look the target up under its host and port, and once the
/// address is there it is sent to it as it is.
pub proof fn lemma_datagram_is_sent_later(
    frame: Seq<u8>,
    host: Seq<char>,
    port: u16,
    datagram: Seq<u8>,
    to: SocketAddr,
    relay: UdpRelay,
    before: ServerSession,
    first: ServerAction,
    mid: ServerSession,
    second: ServerAction,
    next: UdpRelay,
)
    requires
        udp::frames(frame, host, port, datagram),
        datagram.len() > 0,
        frame.len() <= 20480,
        relay.wf(),
        forall|i: int|
            0 <= i < relay.known().len() ==> (#[trigger] relay.known()[i]).0 != host + seq![':'] + text::decimal(port as nat),
        before.phase == Phase::Udp(relay),
        before.conn.decoder().leftover == frame,
        server::stepped(before, first, mid),
        mid.phase is Udp ==> udp::lookup_taken(mid.phase->Udp_0, Some(to), server::udp_step(second), next),
    ensures
        first matches ServerAction::Resolve(target) && target@ == host + seq![':'] + text::decimal(port as nat),
        mid.phase is Udp,
        only_reads(before.conn, seq![], mid.conn),
        second matches ServerAction::SendUdp { to: a, data } && a == to && data@ == datagram,
{
    reveal(snell::snell_read);
    udp::lemma_frame(frame, host, port, datagram);
    assert(frame.take(frame.len() as int) =~= frame);
    assert(frame.skip(frame.len() as int) =~= seq![]);
    udp::lemma_target_is_looked_up(
        frame,
        host,
        port,
        datagram,
        to,
        relay,
        server::udp_step(first),
        mid.phase->Udp_0,
        server::udp_step(second),
        next,
    );
}

/// A frame without a datagram, and an answer without an address, have the server go on; a bad frame ends
/// the session with a fault that tells what is wrong with it.
pub proof fn lemma_frame_without_datagram(
    frame: Seq<u8>,
    host: Seq<char>,
    port: u16,
    i: int,
    to: SocketAddr,
    relay: UdpRelay,
    before: ServerSession,
    action: ServerAction,
    after: ServerSession,
)
    requires
        0 < frame.len() <= 20480,
        relay.wf(),
        before.phase == Phase::Udp(relay),
        before.conn.decoder().leftover == frame,
        server::stepped(before, action, after),
    ensures
        udp::frames(frame, host, port, seq![]) && 0 <= i < relay.known().len() && relay.known()[i] == (
            host + seq![':'] + text::decimal(port as nat),
            to,
        ) ==> action is Again && after.phase is Udp,
        frame.len() < 5 ==> (action matches ServerAction::Fail(SessionFault::Frame(FrameFault::Short(n))) && n == frame.len())
            && after.phase is Closed,
        frame.len() >= 5 && frame[0] != 1 ==> (action matches ServerAction::Fail(SessionFault::Frame(FrameFault::Command(c))) && c
            == frame[0]) && after.phase is Closed,
        frame.len() >= 5 && frame[0] == 1 && frame[1] == 0 && frame[2] != 4 && frame[2] != 6 ==> (action matches ServerAction::Fail(
            SessionFault::Frame(FrameFault::IpVersion(v)),
        ) && v == frame[2]) && after.phase is Closed,
        frame.len() >= 5 && frame[0] == 1 && frame[1] > 0 && frame.len() < 4 + frame[1] ==> (action matches ServerAction::Fail(
            SessionFault::Frame(FrameFault::Truncated),
        )) && after.phase is Closed,
        only_reads(before.conn, seq![], after.conn),
        after.is_v2 == before.is_v2,
{
    reveal(snell::snell_read);
    assert(frame.take(frame.len() as int) =~= frame);
    assert(frame.skip(frame.len() as int) =~= seq![]);
    if udp::frames(frame, host, port, seq![]) && 0 <= i < relay.known().len() && relay.known()[i] == (
        host + seq![':'] + text::decimal(port as nat),
        to,
    ) {
        udp::lemma_frame(frame, host, port, seq![]);
        udp::lemma_known_target(frame, host, port, seq![], i, to, relay, server::udp_step(action), after.phase->Udp_0);
    }
}

/// What each stop of a read is told as, to whoever runs a session: bytes that may still come would block,
/// and the others fail with an error of their own.
pub proof fn lemma_stops_are_told(e: IoError, stop: Stop)
    ensures
        snell::tells(e, Stop::Lacking) <==> e is WouldBlock,
        snell::tells(e, Stop::Cut) <==> e is UnexpectedEof,
        snell::tells(e, Stop::Closed) <==> e is ConnectionClosed,
        snell::tells(e, Stop::ZeroChunk) <==> e is ZeroChunk,
        snell::tells(e, Stop::Rejected) <==> (e matches IoError::Aead(t) && t@ == "aead::Error"@),
        handshake::tells(e, HandshakeStop::Read(stop)) <==> snell::tells(e, stop),
{
}

/// A session that can read no request, no response or no frame waits where bytes may still come, and
/// else fails with what stopped the read.
pub proof fn lemma_failed_reads(
    stop: Stop,
    relay: UdpRelay,
    before: ServerSession,
    action: ServerAction,
    after: ServerSession,
    other: ClientSession,
    other_action: ClientAction,
    other_after: ClientSession,
)
    requires
        server::stepped(before, action, after),
        client::stepped(other, other_action, other_after),
    ensures
        before.phase == Phase::Udp(relay) && snell::snell_read(
            before.conn.decoder(),
            before.conn.wire().inbox@,
            before.conn.wire().eof,
            20480,
        ).result == Err::<Seq<u8>, Stop>(stop) ==> {
            &&& stop is Lacking ==> action is AwaitClient && after.phase == Phase::Udp(relay)
            &&& stop !is Lacking ==> (action matches ServerAction::Fail(SessionFault::Udp(e)) && snell::tells(e, stop)) && after.phase
                is Closed
            &&& after.conn.wire().outbox@ == before.conn.wire().outbox@
        },
        before.phase == Phase::Handshake(Handshake::Head) && snell::snell_read(
            before.conn.decoder(),
            before.conn.wire().inbox@,
            before.conn.wire().eof,
            3,
        ).result == Err::<Seq<u8>, Stop>(stop) ==> {
            &&& stop is Lacking ==> action is AwaitClient && after.phase == Phase::Handshake(Handshake::Head)
            &&& stop !is Lacking ==> (action matches ServerAction::Fail(SessionFault::Handshake(e)) && snell::tells(e, stop))
                && after.phase is Closed
            &&& after.conn.wire().outbox@ == before.conn.wire().outbox@
        },
        other.phase == ClientPhase::Response && snell::snell_read(
            other.conn.decoder(),
            other.conn.wire().inbox@,
            other.conn.wire().eof,
            1,
        ).result == Err::<Seq<u8>, Stop>(stop) ==> {
            &&& stop is Lacking ==> other_action is AwaitServer && other_after.phase == ClientPhase::Response
            &&& stop !is Lacking ==> (other_action matches ClientAction::Fail(e) && snell::tells(e, stop)) && other_after.phase
                == ClientPhase::Closed
            &&& other_after.conn.wire().outbox@ == other.conn.wire().outbox@
        },
{
}

/// A session that is over stays so, and one that waits for an answer goes on waiting.
pub proof fn lemma_nothing_to_do(
    before: ServerSession,
    action: ServerAction,
    after: ServerSession,
    other: ClientSession,
    other_action: ClientAction,
    other_after: ClientSession,
)
    requires
        server::stepped(before, action, after),
        client::stepped(other, other_action, other_after),
    ensures
        before.phase is Closed ==> action is Close && after == before,
        before.phase is Connecting || before.phase is BindingUdp ==> action is AwaitAnswer && after == before,
        other.phase == ClientPhase::Closed ==> other_action is Close && other_after == other,
{
}

}
