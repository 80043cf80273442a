//! What holds of the two ends of a connection together: requests reach the server, responses reach
//! the client, and a connection of version 2 serves one request after the other.
use crate::aead;
use crate::aead::Suite;
use crate::arrival;
use crate::client;
use crate::client::{ClientAction, ClientPhase, ClientSession, SnellClient};
use crate::decode;
use crate::delivery;
use crate::handshake;
use crate::handshake::Handshake;
use crate::records;
use crate::server;
use crate::server::{Phase, ServerAction, ServerSession, SessionFault};
use crate::snell;
use crate::snell::{Decoder, Encoder, SnellConn, Stop, RELAY_BUF_SIZE, RESP_TUNNEL};
use crate::text;
use crate::wire::IoError;
use vstd::prelude::*;

verus! {

/// Whether the names that a client presents fit its disguise: a TLS hello holds the length of the
/// host in 16 bits, and an upgrade request holds host and port in one line.
pub open spec fn presentable(c: SnellClient) -> bool {
    &&& c.obfs() == "tls"@ ==> vstd::utf8::encode_utf8(c.obfs_host()).len() < 0x1_0000
    &&& c.obfs() == "http"@ ==> text::one_line(c.obfs_host()) && text::one_line(client::port_text(c.server()))
}

/// Whether a server session is fresh, shares the pre-shared key and the obfuscation type of a
/// client, and has received what the client's connection has to send.
pub open spec fn receives(server: ServerSession, c: SnellClient, conn: SnellConn) -> bool {
    &&& server.phase == Phase::Handshake(Handshake::Head)
    &&& server.is_v2
    &&& server.conn.decoder() == snell::fresh_decoder(
        snell::server_mode(c.obfs()),
        vstd::utf8::encode_utf8(c.psk()),
        Suite::Aes128Gcm,
        Some(Suite::ChaCha20Poly1305),
    )
    &&& server.conn.wire().inbox@ == conn.wire().outbox@
}

/// Whether AES-128-GCM rejects the request that a ChaCha20-Poly1305 client has to send.
pub open spec fn told_apart(c: SnellClient, target: Seq<char>, conn: SnellConn) -> bool {
    forall|salt: Seq<u8>| #[trigger]
        snell::sends(
            snell::fresh_encoder(c.writer()),
            Suite::ChaCha20Poly1305,
            vstd::utf8::encode_utf8(c.psk()),
            salt,
            snell::chunks(handshake::request(target, false)),
            conn.wire().outbox@,
            conn.encoder(),
        ) ==> records::rejects(
            Suite::Aes128Gcm,
            Suite::ChaCha20Poly1305,
            vstd::utf8::encode_utf8(c.psk()),
            salt,
            handshake::request(target, false),
        )
}

/// The request of a client of version 2 reaches the server: the server's next step asks for a
/// connection to the target, and it will answer in AES-128-GCM.
pub proof fn lemma_v2_request_connects(
    c: SnellClient,
    host: Seq<char>,
    port: nat,
    conn: SnellConn,
    before: ServerSession,
    action: ServerAction,
    after: ServerSession,
)
    requires
        c.is_v2(),
        presentable(c),
        port <= 0xffff,
        vstd::utf8::encode_utf8(host).len() <= 255,
        client::asks(c, handshake::target_text(host, port), conn),
        receives(before, c, conn),
        server::stepped(before, action, after),
    ensures
        action matches ServerAction::Connect(target) && target@ == handshake::target_text(host, port),
        after.phase is Connecting,
        after.is_v2,
        records::in_step(conn.encoder(), after.conn.decoder(), after.conn.wire().inbox@),
        snell::write_suite(after.conn.decoder()) == Suite::Aes128Gcm,
{
    let w = c.writer();
    let psk = vstd::utf8::encode_utf8(c.psk());
    let target = handshake::target_text(host, port);
    let e = snell::fresh_encoder(w);
    let d = before.conn.decoder();
    let out = conn.wire().outbox@;
    let salt = choose|salt: Seq<u8>| #[trigger]
        snell::sends(e, Suite::Aes128Gcm, psk, salt, snell::chunks(handshake::request(target, true)), out, conn.encoder());
    records::lemma_fresh_in_step(w, psk, Suite::Aes128Gcm, Some(Suite::ChaCha20Poly1305));
    lemma_modes(c);
    handshake::lemma_request_arrives(
        host,
        port,
        true,
        e,
        Suite::Aes128Gcm,
        psk,
        salt,
        out,
        conn.encoder(),
        d,
        seq![],
        before.conn.wire().eof,
    );
    assert(Seq::<u8>::empty() + out =~= before.conn.wire().inbox@);
}

/// The two sides of an obfuscation type face each other, and the names of a presentable client fit.
proof fn lemma_modes(c: SnellClient)
    requires
        presentable(c),
    ensures
        snell::server_mode(c.obfs()) == decode::peer(c.writer().kind),
        c.writer().first,
        forall|salt: Seq<u8>| salt.len() == aead::SALT_SIZE ==> #[trigger] decode::comes_through(c.writer(), salt),
{
}

/// The request of a client of version 1 reaches the server too, which falls back on
/// ChaCha20-Poly1305 for it: the next step asks for a connection to the target, and the server will
/// answer in ChaCha20-Poly1305.
pub proof fn lemma_v1_request_connects(
    c: SnellClient,
    host: Seq<char>,
    port: nat,
    conn: SnellConn,
    before: ServerSession,
    action: ServerAction,
    after: ServerSession,
)
    requires
        !c.is_v2(),
        presentable(c),
        port <= 0xffff,
        vstd::utf8::encode_utf8(host).len() <= 255,
        client::asks(c, handshake::target_text(host, port), conn),
        told_apart(c, handshake::target_text(host, port), conn),
        receives(before, c, conn),
        server::stepped(before, action, after),
    ensures
        action matches ServerAction::Connect(target) && target@ == handshake::target_text(host, port),
        after.phase is Connecting,
        !after.is_v2,
        records::in_step(conn.encoder(), after.conn.decoder(), after.conn.wire().inbox@),
        snell::write_suite(after.conn.decoder()) == Suite::ChaCha20Poly1305,
{
    let w = c.writer();
    let psk = vstd::utf8::encode_utf8(c.psk());
    let target = handshake::target_text(host, port);
    let e = snell::fresh_encoder(w);
    let d = before.conn.decoder();
    let out = conn.wire().outbox@;
    let salt = choose|salt: Seq<u8>| #[trigger]
        snell::sends(
            e,
            Suite::ChaCha20Poly1305,
            psk,
            salt,
            snell::chunks(handshake::request(target, false)),
            out,
            conn.encoder(),
        );
    assert(records::rejects(
        Suite::Aes128Gcm,
        Suite::ChaCha20Poly1305,
        psk,
        salt,
        handshake::request(target, false),
    ));
    records::lemma_fresh_in_step(w, psk, Suite::Aes128Gcm, Some(Suite::ChaCha20Poly1305));
    lemma_modes(c);
    handshake::lemma_fallback_request_arrives(
        host,
        port,
        false,
        e,
        Suite::ChaCha20Poly1305,
        psk,
        salt,
        out,
        conn.encoder(),
        d,
        seq![],
        before.conn.wire().eof,
    );
    assert(Seq::<u8>::empty() + out =~= before.conn.wire().inbox@);
}

/// What one side of a connection sends, and the reading half of the other side that receives it,
/// which has taken in everything before it.
pub open spec fn reaches(
    e: Encoder,
    salt: Seq<u8>,
    data: Seq<u8>,
    out: Seq<u8>,
    after: Encoder,
    d: Decoder,
    s: Seq<u8>,
) -> bool {
    &&& snell::sends(e, d.suite, d.psk, salt, snell::chunks(data), out, after)
    &&& records::gets_through(e, salt)
    &&& records::in_step(e, d, s)
}

/// The server's word that the target is connected reaches the client, and the relay begins.
pub proof fn lemma_tunnel_opens(
    e: Encoder,
    salt: Seq<u8>,
    out: Seq<u8>,
    next: Encoder,
    s: Seq<u8>,
    before: ClientSession,
    action: ClientAction,
    after: ClientSession,
)
    requires
        before.phase == ClientPhase::Response,
        reaches(e, salt, seq![RESP_TUNNEL], out, next, before.conn.decoder(), s),
        before.conn.wire().inbox@ == s + out,
        client::stepped(before, action, after),
    ensures
        action is Again,
        after.phase == ClientPhase::Relaying,
        records::in_step(next, after.conn.decoder(), after.conn.wire().inbox@),
{
    let d = before.conn.decoder();
    let eof = before.conn.wire().eof;
    let payload = seq![RESP_TUNNEL];
    assert(snell::chunks(payload) =~= seq![payload]);
    records::lemma_chunks(payload);
    let r = records::lemma_round_trip(e, d.suite, d.psk, salt, seq![payload], out, next, d, s, eof, 1);
    handshake::lemma_whole_record(d, s + out, eof, 1, payload, r.0, r.1);
}

/// The server's word that the target could not be connected reaches the client: in two steps the
/// session fails with the server's message, as far as the response holds it.
pub proof fn lemma_error_reaches_client(
    message: Seq<char>,
    e: Encoder,
    salt: Seq<u8>,
    out: Seq<u8>,
    next: Encoder,
    s: Seq<u8>,
    before: ClientSession,
    first: ClientAction,
    mid: ClientSession,
    second: ClientAction,
    after: ClientSession,
)
    requires
        before.phase == ClientPhase::Response,
        reaches(e, salt, handshake::error_response(message), out, next, before.conn.decoder(), s),
        before.conn.wire().inbox@ == s + out,
        client::stepped(before, first, mid),
        client::stepped(mid, second, after),
    ensures
        first is Again,
        second matches ClientAction::Fail(IoError::Server(m)) && m@ == text::lossy_text(handshake::cut_message(message)),
        vstd::utf8::encode_utf8(message).len() <= handshake::MAX_MESSAGE ==> text::lossy_text(
            handshake::cut_message(message),
        ) == message,
        after.phase == ClientPhase::Closed,
{
    let d = before.conn.decoder();
    let eof = before.conn.wire().eof;
    let payload = handshake::error_response(message);
    let cap = aead::PAYLOAD_SIZE_MASK as nat;
    assert(snell::chunks(payload) =~= seq![payload]);
    records::lemma_chunks(payload);
    let r = records::lemma_round_trip(e, d.suite, d.psk, salt, seq![payload], out, next, d, s, eof, cap);
    handshake::lemma_whole_record(d, s + out, eof, cap, payload, r.0, r.1);
    records::lemma_part_of_record(d, s + out, eof, cap, 1, payload);
    let full = Decoder { leftover: payload, ..r.0 };
    assert(payload + Seq::<u8>::empty() =~= payload);
    handshake::lemma_error_understood(message, full, seq![], r.1, eof);
}

/// A connection of version 2 serves one request after the other. Where the client ends its stream
/// while a relay runs, the server's next step ends its own stream; and where the client then sends
/// another request on the same connection, the step after that asks for a connection to the new
/// target.
pub proof fn lemma_connection_is_reused(
    e: Encoder,
    salt: Seq<u8>,
    out: Seq<u8>,
    next: Encoder,
    s: Seq<u8>,
    before: ServerSession,
    first: ServerAction,
    mid: ServerSession,
    host: Seq<char>,
    port: nat,
    other_salt: Seq<u8>,
    more: Seq<u8>,
    last: Encoder,
    fed: ServerSession,
    second: ServerAction,
    after: ServerSession,
)
    requires
        before.phase is Relaying,
        before.is_v2,
        e.key is Some,
        snell::sends(e, before.conn.decoder().suite, before.conn.decoder().psk, salt, snell::chunks(seq![]), out, next),
        records::gets_through(e, salt),
        records::in_step(e, before.conn.decoder(), s),
        before.conn.wire().inbox@ == s + out,
        server::stepped(before, first, mid),
        port <= 0xffff,
        vstd::utf8::encode_utf8(host).len() <= 255,
        snell::sends(
            next,
            before.conn.decoder().suite,
            before.conn.decoder().psk,
            other_salt,
            snell::chunks(handshake::request(handshake::target_text(host, port), true)),
            more,
            last,
        ),
        fed.phase == mid.phase,
        fed.is_v2 == mid.is_v2,
        fed.conn.decoder() == mid.conn.decoder(),
        fed.conn.wire().inbox@ == mid.conn.wire().inbox@ + more,
        server::stepped(fed, second, after),
    ensures
        first is Again,
        snell::sent(
            before.conn,
            snell::write_suite(mid.conn.decoder()),
            mid.conn.decoder().psk,
            seq![],
            mid.conn,
        ),
        second matches ServerAction::Connect(target) && target@ == handshake::target_text(host, port),
        after.phase is Connecting,
        after.is_v2,
        records::in_step(last, after.conn.decoder(), after.conn.wire().inbox@),
{
    let d = before.conn.decoder();
    let eof = before.conn.wire().eof;
    let none: Seq<u8> = seq![];
    assert(snell::chunks(none) =~= seq![none]);
    records::lemma_chunks(none);
    let r = records::lemma_round_trip(
        e,
        d.suite,
        d.psk,
        salt,
        seq![none],
        out,
        next,
        d,
        s,
        eof,
        RELAY_BUF_SIZE as nat,
    );
    let t = snell::snell_read(d, s + out, eof, RELAY_BUF_SIZE as nat);
    assert(seq![none].drop_first() =~= seq![]);
    assert(records::reads_back(t.next, t.rest, eof, RELAY_BUF_SIZE as nat, seq![], r.0, r.1));
    assert(t.result == Err::<Seq<u8>, Stop>(Stop::ZeroChunk));
    assert(mid.phase == Phase::Handshake(Handshake::Head));
    handshake::lemma_request_arrives(
        host,
        port,
        true,
        next,
        d.suite,
        d.psk,
        other_salt,
        more,
        last,
        mid.conn.decoder(),
        mid.conn.wire().inbox@,
        fed.conn.wire().eof,
    );
}

/// Where the target ends a relay first, the server waits for the client to end its stream, and is
/// then ready for the next request.
pub proof fn lemma_drain_ends(
    e: Encoder,
    salt: Seq<u8>,
    out: Seq<u8>,
    next: Encoder,
    s: Seq<u8>,
    before: ServerSession,
    action: ServerAction,
    after: ServerSession,
)
    requires
        before.phase is Draining,
        reaches(e, salt, seq![], out, next, before.conn.decoder(), s),
        before.conn.wire().inbox@ == s + out,
        server::stepped(before, action, after),
    ensures
        action is Again,
        after.phase == Phase::Handshake(Handshake::Head),
        records::in_step(next, after.conn.decoder(), after.conn.wire().inbox@),
{
    let d = before.conn.decoder();
    let eof = before.conn.wire().eof;
    let cap = RELAY_BUF_SIZE as nat;
    let none: Seq<u8> = seq![];
    assert(snell::chunks(none) =~= seq![none]);
    records::lemma_chunks(none);
    let r = records::lemma_round_trip(e, d.suite, d.psk, salt, seq![none], out, next, d, s, eof, cap);
    let t = snell::snell_read(d, s + out, eof, cap);
    assert(seq![none].drop_first() =~= seq![]);
    assert(records::reads_back(t.next, t.rest, eof, cap, seq![], r.0, r.1));
}

/// What an application sends reaches the target: where the client writes up to a record's worth of
/// data while a relay runs, the server's next step sends just that to the target.
pub proof fn lemma_relay_to_target(
    data: Seq<u8>,
    e: Encoder,
    salt: Seq<u8>,
    out: Seq<u8>,
    next: Encoder,
    s: Seq<u8>,
    before: ServerSession,
    action: ServerAction,
    after: ServerSession,
)
    requires
        before.phase is Relaying,
        0 < data.len() <= aead::PAYLOAD_SIZE_MASK,
        reaches(e, salt, data, out, next, before.conn.decoder(), s),
        before.conn.wire().inbox@ == s + out,
        server::stepped(before, action, after),
    ensures
        action matches ServerAction::ToTarget(sent) && sent@ == data,
        after.phase is Relaying,
        records::in_step(next, after.conn.decoder(), after.conn.wire().inbox@),
{
    let d = before.conn.decoder();
    let eof = before.conn.wire().eof;
    let cap = RELAY_BUF_SIZE as nat;
    assert(snell::chunks(data) =~= seq![data]);
    records::lemma_chunks(data);
    let r = records::lemma_round_trip(e, d.suite, d.psk, salt, seq![data], out, next, d, s, eof, cap);
    handshake::lemma_whole_record(d, s + out, eof, cap, data, r.0, r.1);
}

/// What a target sends reaches the application, in the same way.
pub proof fn lemma_relay_to_application(
    data: Seq<u8>,
    e: Encoder,
    salt: Seq<u8>,
    out: Seq<u8>,
    next: Encoder,
    s: Seq<u8>,
    before: ClientSession,
    action: ClientAction,
    after: ClientSession,
)
    requires
        before.phase == ClientPhase::Relaying,
        0 < data.len() <= aead::PAYLOAD_SIZE_MASK,
        reaches(e, salt, data, out, next, before.conn.decoder(), s),
        before.conn.wire().inbox@ == s + out,
        client::stepped(before, action, after),
    ensures
        action matches ClientAction::ToApp(sent) && sent@ == data,
        after.phase == ClientPhase::Relaying,
        records::in_step(next, after.conn.decoder(), after.conn.wire().inbox@),
{
    let d = before.conn.decoder();
    let eof = before.conn.wire().eof;
    let cap = RELAY_BUF_SIZE as nat;
    assert(snell::chunks(data) =~= seq![data]);
    records::lemma_chunks(data);
    let r = records::lemma_round_trip(e, d.suite, d.psk, salt, seq![data], out, next, d, s, eof, cap);
    handshake::lemma_whole_record(d, s + out, eof, cap, data, r.0, r.1);
}

/// A relay passes on everything that is on the way, record by record and in order, however much the
/// client has written: each step of the server sends the next payload to the target, and leaves the
/// others on the way.
pub proof fn lemma_relay_step_to_target(
    e: Encoder,
    salt: Seq<u8>,
    queue: Seq<Seq<u8>>,
    before: ServerSession,
    action: ServerAction,
    after: ServerSession,
)
    requires
        before.phase is Relaying,
        delivery::on_the_way(e, salt, before.conn.decoder(), before.conn.wire().inbox@, queue),
        queue.len() > 0,
        0 < queue[0].len() <= aead::PAYLOAD_SIZE_MASK,
        server::stepped(before, action, after),
    ensures
        action matches ServerAction::ToTarget(sent) && sent@ == queue[0],
        after.phase is Relaying,
        delivery::on_the_way(e, salt, after.conn.decoder(), after.conn.wire().inbox@, queue.drop_first()),
{
    let t = delivery::lemma_read_serves(
        e,
        salt,
        before.conn.decoder(),
        before.conn.wire().inbox@,
        queue,
        before.conn.wire().eof,
        RELAY_BUF_SIZE as nat,
    );
    assert(queue[0].take(queue[0].len() as int) =~= queue[0]);
}

/// The same holds of what a target sends to the application.
pub proof fn lemma_relay_step_to_application(
    e: Encoder,
    salt: Seq<u8>,
    queue: Seq<Seq<u8>>,
    before: ClientSession,
    action: ClientAction,
    after: ClientSession,
)
    requires
        before.phase == ClientPhase::Relaying,
        delivery::on_the_way(e, salt, before.conn.decoder(), before.conn.wire().inbox@, queue),
        queue.len() > 0,
        0 < queue[0].len() <= aead::PAYLOAD_SIZE_MASK,
        client::stepped(before, action, after),
    ensures
        action matches ClientAction::ToApp(sent) && sent@ == queue[0],
        after.phase == ClientPhase::Relaying,
        delivery::on_the_way(e, salt, after.conn.decoder(), after.conn.wire().inbox@, queue.drop_first()),
{
    let t = delivery::lemma_read_serves(
        e,
        salt,
        before.conn.decoder(),
        before.conn.wire().inbox@,
        queue,
        before.conn.wire().eof,
        RELAY_BUF_SIZE as nat,
    );
    assert(queue[0].take(queue[0].len() as int) =~= queue[0]);
}

// ---- Sessions whose bytes arrive in pieces ----

/// Whether two actions of a server ask for the same.
pub open spec fn same_server_action(a: ServerAction, b: ServerAction) -> bool {
    match (a, b) {
        (ServerAction::Connect(x), ServerAction::Connect(y)) => x@ == y@,
        (ServerAction::ToTarget(x), ServerAction::ToTarget(y)) => x@ == y@,
        (ServerAction::Fail(SessionFault::Handshake(x)), ServerAction::Fail(SessionFault::Handshake(y))) => same_error(x, y),
        (ServerAction::Fail(SessionFault::Command(x)), ServerAction::Fail(SessionFault::Command(y))) => x == y,
        _ => {
            ||| a is Again && b is Again
            ||| a is AwaitClient && b is AwaitClient
            ||| a is AwaitEither && b is AwaitEither
            ||| a is BindUdp && b is BindUdp
            ||| a is Close && b is Close
        },
    }
}

/// Whether a session goes on where another stands, with `b` arrived behind what was unread.
pub open spec fn fed_with(mid: SnellConn, b: Seq<u8>, fed: SnellConn) -> bool {
    &&& fed.decoder() == mid.decoder()
    &&& fed.wire().inbox@ == mid.wire().inbox@ + b
}

/// Whether a connection has at once what another has with `b` behind it.
pub open spec fn has_at_once(before: SnellConn, b: Seq<u8>, fed: SnellConn, once: SnellConn) -> bool {
    &&& once.decoder() == before.decoder()
    &&& once.wire().inbox@ == before.wire().inbox@ + b
    &&& once.wire().eof == fed.wire().eof
}

/// It does not matter to a server in which pieces the client's bytes arrive: a session that waits in
/// the middle of a request, of a relay or of draining does, once the rest has arrived, what a session
/// does to which all the bytes arrive at once. The bytes are whole pieces of the disguise and then
/// `tail`, the front of a piece that a read takes as a whole.
pub proof fn lemma_server_goes_on(
    b: Seq<u8>,
    before: ServerSession,
    first: ServerAction,
    mid: ServerSession,
    fed: ServerSession,
    second: ServerAction,
    after: ServerSession,
    once: ServerSession,
    action: ServerAction,
    done: ServerSession,
    tail: Seq<u8>,
)
    requires
        before.phase is Handshake || before.phase is Relaying || before.phase is Draining,
        !before.conn.wire().eof,
        arrival::settled(before.conn.decoder(), before.conn.wire().inbox@ + b, tail),
        server::stepped(before, first, mid),
        first is AwaitClient || first is AwaitEither,
        fed.phase == mid.phase,
        fed.is_v2 == mid.is_v2,
        fed_with(mid.conn, b, fed.conn),
        server::stepped(fed, second, after),
        once.phase == before.phase,
        once.is_v2 == before.is_v2,
        has_at_once(before.conn, b, fed.conn, once.conn),
        server::stepped(once, action, done),
    ensures
        same_server_action(second, action),
        after.phase == done.phase,
        after.is_v2 == done.is_v2,
        arrival::alike(
            after.conn.decoder(),
            after.conn.wire().inbox@,
            done.conn.decoder(),
            done.conn.wire().inbox@,
            tail,
        ),
{
    let d = before.conn.decoder();
    let a = before.conn.wire().inbox@;
    let eof = fed.conn.wire().eof;
    let none: Seq<u8> = seq![];
    match before.phase {
        Phase::Handshake(p) => {
            handshake::lemma_handshake_in_pieces(p, d, a, b, eof, tail);
            let t = handshake::handshake(p, d, a, false);
            let again = handshake::handshake(t.progress, t.next, t.rest + b, eof);
            assert(again.rest + none =~= again.rest);
        },
        _ => {
            arrival::lemma_arrives_in_pieces(d, a, b, eof, RELAY_BUF_SIZE as nat, tail);
        },
    }
}

/// Whether two errors tell the same.
pub open spec fn same_error(e: IoError, f: IoError) -> bool {
    match (e, f) {
        (IoError::Aead(m), IoError::Aead(n)) => m@ == n@,
        (IoError::ZeroChunk(_), IoError::ZeroChunk(_)) => true,
        (IoError::Server(m), IoError::Server(n)) => m@ == n@,
        _ => e == f,
    }
}

/// Whether two actions of a client ask for the same.
pub open spec fn same_client_action(a: ClientAction, b: ClientAction) -> bool {
    match (a, b) {
        (ClientAction::ToApp(x), ClientAction::ToApp(y)) => x@ == y@,
        (ClientAction::Fail(e), ClientAction::Fail(f)) => same_error(e, f),
        _ => {
            ||| a is Again && b is Again
            ||| a is AwaitServer && b is AwaitServer
            ||| a is AwaitEither && b is AwaitEither
            ||| a is Close && b is Close
        },
    }
}

/// It does not matter to a client either in which pieces the server's bytes arrive.
pub proof fn lemma_client_goes_on(
    b: Seq<u8>,
    before: ClientSession,
    first: ClientAction,
    mid: ClientSession,
    fed: ClientSession,
    second: ClientAction,
    after: ClientSession,
    once: ClientSession,
    action: ClientAction,
    done: ClientSession,
    tail: Seq<u8>,
)
    requires
        !before.conn.wire().eof,
        arrival::settled(before.conn.decoder(), before.conn.wire().inbox@ + b, tail),
        client::stepped(before, first, mid),
        first is AwaitServer || first is AwaitEither,
        fed.phase == mid.phase,
        fed.is_v2 == mid.is_v2,
        fed_with(mid.conn, b, fed.conn),
        client::stepped(fed, second, after),
        once.phase == before.phase,
        once.is_v2 == before.is_v2,
        has_at_once(before.conn, b, fed.conn, once.conn),
        client::stepped(once, action, done),
    ensures
        same_client_action(second, action),
        after.phase == done.phase,
        after.is_v2 == done.is_v2,
        arrival::alike(
            after.conn.decoder(),
            after.conn.wire().inbox@,
            done.conn.decoder(),
            done.conn.wire().inbox@,
            tail,
        ),
{
    let d = before.conn.decoder();
    let a = before.conn.wire().inbox@;
    let eof = fed.conn.wire().eof;
    let none: Seq<u8> = seq![];
    match before.phase {
        ClientPhase::Response => {
            arrival::lemma_arrives_in_pieces(d, a, b, eof, 1, tail);
        },
        ClientPhase::Details(p) => {
            handshake::lemma_error_in_pieces(p, d, a, b, eof, tail);
            let t = handshake::error_read(p, d, a, false);
            let again = handshake::error_read(t.progress, t.next, t.rest + b, eof);
            assert(again.rest + none =~= again.rest);
        },
        _ => {
            arrival::lemma_arrives_in_pieces(d, a, b, eof, RELAY_BUF_SIZE as nat, tail);
        },
    }
}

}
