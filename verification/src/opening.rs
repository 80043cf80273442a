//! What each side puts on the wire first, in terms of what it was set up with.
use crate::aead;
use crate::aead::Suite;
use crate::client;
use crate::client::SnellClient;
use crate::handshake;
use crate::http;
use crate::obfs;
use crate::obfs::Writer;
use crate::session;
use crate::snell;
use crate::snell::{Encoder, SessionKey, SnellConn};
use crate::text;
use crate::tls;
use vstd::prelude::*;

verus! {

/// A writing half that has written nothing puts its salt on the wire, and then the record.
proof fn lemma_opening(
    w: Writer,
    suite: Suite,
    psk: Seq<u8>,
    salt: Seq<u8>,
    payload: Seq<u8>,
    out: Seq<u8>,
    after: Encoder,
) -> (k: int)
    requires
        snell::sends(snell::fresh_encoder(w), suite, psk, salt, seq![payload], out, after),
    ensures
        salt.len() == 16,
        0 <= k <= out.len(),
        obfs::writes(w, salt, out.take(k)),
        obfs::writes(
            obfs::after_write(w),
            snell::record(snell::session(suite, psk, salt), aead::zero_nonce(), payload),
            out.skip(k),
        ),
        snell::record_opens(snell::session(suite, psk, salt), aead::zero_nonce(), payload),
{
    let e = snell::fresh_encoder(w);
    let key = snell::session(suite, psk, salt);
    let nonce = aead::zero_nonce();
    let all = snell::messages(e, suite, psk, salt, seq![payload]);
    let record = snell::record(key, nonce, payload);
    assert(seq![payload].drop_last() =~= seq![]);
    assert(snell::nonce_behind_all(nonce, seq![payload].drop_last()) == nonce);
    assert(snell::records(key, nonce, seq![payload].drop_last()) =~= seq![]);
    assert(snell::records(key, nonce, seq![payload]) =~= seq![record]);
    assert(all =~= seq![salt, record]);
    let k = obfs::lemma_first_write(w, all, out);
    assert(all.drop_first() =~= seq![record]);
    lemma_one_write(obfs::after_write(w), record, out.skip(k));
    k
}

/// What one write puts on the wire.
proof fn lemma_one_write(w: Writer, message: Seq<u8>, out: Seq<u8>)
    requires
        obfs::writes_each(w, seq![message], out),
    ensures
        obfs::writes(w, message, out),
{
    let k = obfs::lemma_first_write(w, seq![message], out);
    assert(seq![message].drop_first() =~= seq![]);
    assert(out.skip(k).len() == 0);
    assert(out.take(k) =~= out);
}

/// The nonce of the first sealed message of a direction.
pub open spec fn nonce_zero() -> Seq<u8> {
    seq![0u8, 0u8, 0u8, 0u8, 0u8, 0u8, 0u8, 0u8, 0u8, 0u8, 0u8, 0u8]
}

/// The nonce of the second sealed message of a direction.
pub open spec fn nonce_one() -> Seq<u8> {
    seq![1u8, 0u8, 0u8, 0u8, 0u8, 0u8, 0u8, 0u8, 0u8, 0u8, 0u8, 0u8]
}

/// The first record of a direction, in each of the suites: its length and its payload, each sealed
/// under the front of what Argon2id derives from the pre-shared key and the salt, and 16 bytes longer
/// for it.
proof fn lemma_first_record(suite: Suite, psk: Seq<u8>, salt: Seq<u8>, payload: Seq<u8>)
    requires
        0 < payload.len() <= 0x3fff,
        snell::record_opens(snell::session(suite, psk, salt), aead::zero_nonce(), payload),
    ensures
        ({
            let record = snell::record(snell::session(suite, psk, salt), aead::zero_nonce(), payload);
            let derived = aead::argon2id_output(8, 3, 1, psk, salt, 32);
            let length = seq![(payload.len() / 256) as u8, (payload.len() % 256) as u8];
            &&& record.len() == payload.len() + 34
            &&& suite is Aes128Gcm ==> record == aead::aes128_gcm_seal(derived.take(16), nonce_zero(), length)
                + aead::aes128_gcm_seal(derived.take(16), nonce_one(), payload)
            &&& suite is ChaCha20Poly1305 ==> record == aead::chacha20_poly1305_seal(derived.take(32), nonce_zero(), length)
                + aead::chacha20_poly1305_seal(derived.take(32), nonce_one(), payload)
        }),
{
    assert(aead::zero_nonce() =~= nonce_zero());
    assert(aead::next_nonce(aead::zero_nonce()) =~= nonce_one());
    assert(tls::be16(payload.len() as int) =~= seq![(payload.len() / 256) as u8, (payload.len() % 256) as u8]);
}

/// A client that is set to the type "tls" opens with a client hello that carries its salt and names
/// the host that it is set to present, whatever the target.
pub proof fn lemma_tls_client_presents(c: SnellClient, target: Seq<char>, conn: SnellConn) -> (r: (Seq<u8>, int))
    requires
        c.obfs() == "tls"@,
        client::asks(c, target, conn),
    ensures
        r.0.len() == 16,
        0 <= r.1 <= conn.wire().outbox@.len(),
        tls::is_client_hello(conn.wire().outbox@.take(r.1), r.0, vstd::utf8::encode_utf8(c.obfs_host())),
{
    lemma_client_presents(c, target, conn)
}

/// A client that is set to the type "http" opens with an upgrade request that carries its salt and
/// names the host that it is set to present and the port of its server; a client of another type than
/// these two opens with its salt as it is.
pub proof fn lemma_http_client_presents(c: SnellClient, target: Seq<char>, conn: SnellConn) -> (r: (Seq<u8>, int))
    requires
        c.obfs() != "tls"@,
        client::asks(c, target, conn),
    ensures
        r.0.len() == 16,
        0 <= r.1 <= conn.wire().outbox@.len(),
        c.obfs() == "http"@ ==> obfs::is_http_request(
            conn.wire().outbox@.take(r.1),
            r.0,
            c.obfs_host(),
            client::port_text(c.server()),
        ),
        c.obfs() != "http"@ ==> conn.wire().outbox@.take(r.1) == r.0,
{
    lemma_client_presents(c, target, conn)
}

proof fn lemma_client_presents(c: SnellClient, target: Seq<char>, conn: SnellConn) -> (r: (Seq<u8>, int))
    requires
        client::asks(c, target, conn),
    ensures
        r.0.len() == 16,
        0 <= r.1 <= conn.wire().outbox@.len(),
        obfs::writes(c.writer(), r.0, conn.wire().outbox@.take(r.1)),
{
    let e = snell::fresh_encoder(c.writer());
    let suite = snell::client_suite(c.is_v2());
    let psk = vstd::utf8::encode_utf8(c.psk());
    let payloads = snell::chunks(handshake::request(target, c.is_v2()));
    let out = conn.wire().outbox@;
    let salt = choose|salt: Seq<u8>| #[trigger] snell::sends(e, suite, psk, salt, payloads, out, conn.encoder());
    let all = snell::messages(e, suite, psk, salt, payloads);
    assert(all[0] == salt);
    let k = obfs::lemma_first_write(c.writer(), all, out);
    (salt, k)
}

/// All that a fresh session of a client puts on the wire: its salt under the disguise that it is set
/// to, and behind it the request for the target, sealed in the suite of its version.
pub proof fn lemma_client_opens(c: SnellClient, host: Seq<char>, port: u16, conn: SnellConn) -> (r: (Seq<u8>, int))
    requires
        vstd::utf8::encode_utf8(host).len() <= 255,
        client::asks(c, host + seq![':'] + text::decimal(port as nat), conn),
    ensures
        ({
            let (salt, k) = r;
            let out = conn.wire().outbox@;
            let name = vstd::utf8::encode_utf8(host);
            let request = seq![
                1u8,
                if c.is_v2() {
                    5u8
                } else {
                    1u8
                },
                0u8,
                name.len() as u8,
            ] + name + seq![(port / 256) as u8, (port % 256) as u8];
            let length = seq![(request.len() / 256) as u8, (request.len() % 256) as u8];
            let derived = aead::argon2id_output(8, 3, 1, vstd::utf8::encode_utf8(c.psk()), salt, 32);
            let record = if c.is_v2() {
                aead::aes128_gcm_seal(derived.take(16), nonce_zero(), length) + aead::aes128_gcm_seal(
                    derived.take(16),
                    nonce_one(),
                    request,
                )
            } else {
                aead::chacha20_poly1305_seal(derived.take(32), nonce_zero(), length) + aead::chacha20_poly1305_seal(
                    derived.take(32),
                    nonce_one(),
                    request,
                )
            };
            &&& salt.len() == 16
            &&& 0 <= k <= out.len()
            &&& c.obfs() == "tls"@ ==> tls::is_client_hello(out.take(k), salt, vstd::utf8::encode_utf8(c.obfs_host())) && out.skip(k)
                == seq![0x17u8, 0x03u8, 0x03u8, (record.len() / 256) as u8, (record.len() % 256) as u8] + record
            &&& c.obfs() == "http"@ ==> obfs::is_http_request(out.take(k), salt, c.obfs_host(), client::port_text(c.server()))
                && out.skip(k) == record
            &&& c.obfs() != "tls"@ && c.obfs() != "http"@ ==> out == salt + record
        }),
{
    reveal_strlit(":");
    reveal_strlit("tls");
    reveal_strlit("http");
    assert("tls"@.len() != "http"@.len());
    let target = host + seq![':'] + text::decimal(port as nat);
    assert(":"@ =~= seq![':']);
    assert(target == handshake::target_text(host, port as nat));
    handshake::lemma_target_parts(host, port as nat);
    let name = vstd::utf8::encode_utf8(host);
    let request = handshake::request(target, c.is_v2());
    assert(request =~= seq![
        1u8,
        if c.is_v2() {
            5u8
        } else {
            1u8
        },
        0u8,
        name.len() as u8,
    ] + name + seq![(port / 256) as u8, (port % 256) as u8]);
    let suite = snell::client_suite(c.is_v2());
    let psk = vstd::utf8::encode_utf8(c.psk());
    let out = conn.wire().outbox@;
    assert(snell::chunks(request) =~= seq![request]);
    let salt = choose|salt: Seq<u8>| #[trigger]
        snell::sends(
            snell::fresh_encoder(c.writer()),
            suite,
            psk,
            salt,
            snell::chunks(request),
            out,
            conn.encoder(),
        );
    let k = lemma_opening(c.writer(), suite, psk, salt, request, out, conn.encoder());
    lemma_first_record(suite, psk, salt, request);
    let record = snell::record(snell::session(suite, psk, salt), aead::zero_nonce(), request);
    tls::lemma_one_record(record);
    assert(out.take(k) + out.skip(k) =~= out);
    (salt, k)
}

/// All that a fresh connection of a server puts on the wire with its first reply: its salt under the
/// disguise of the type that it was opened with, and behind it the reply, sealed in the suite in which
/// the server writes.
pub proof fn lemma_server_opens(obfs_type: Seq<char>, data: Seq<u8>, before: SnellConn, after: SnellConn) -> (r: (Seq<u8>, int))
    requires
        0 < data.len() <= 0x3fff,
        before.wire().outbox@.len() == 0,
        before.encoder() == snell::fresh_encoder(
            Writer { kind: snell::server_mode(obfs_type), host: seq![], port: seq![], first: true },
        ),
        session::replies(before, Some(data), after),
    ensures
        ({
            let (salt, k) = r;
            let out = after.wire().outbox@;
            let length = seq![(data.len() / 256) as u8, (data.len() % 256) as u8];
            let derived = aead::argon2id_output(8, 3, 1, before.decoder().psk, salt, 32);
            let record = if snell::write_suite(before.decoder()) is Aes128Gcm {
                aead::aes128_gcm_seal(derived.take(16), nonce_zero(), length) + aead::aes128_gcm_seal(
                    derived.take(16),
                    nonce_one(),
                    data,
                )
            } else {
                aead::chacha20_poly1305_seal(derived.take(32), nonce_zero(), length) + aead::chacha20_poly1305_seal(
                    derived.take(32),
                    nonce_one(),
                    data,
                )
            };
            &&& salt.len() == 16
            &&& 0 <= k <= out.len()
            &&& obfs_type == "tls"@ ==> tls::is_server_hello(out.take(k), salt) && out.skip(k) == tls::app_data(record)
            &&& obfs_type == "http"@ ==> obfs::is_http_response(out.take(k), salt) && out.skip(k) == record
            &&& obfs_type != "tls"@ && obfs_type != "http"@ ==> out == salt + record
        }),
{
    reveal_strlit("tls");
    reveal_strlit("http");
    assert("tls"@.len() != "http"@.len());
    let w = before.encoder().obfs;
    let suite = snell::write_suite(before.decoder());
    let psk = before.decoder().psk;
    let out = after.wire().outbox@;
    assert(obfs::appended(before.wire(), after.wire()) =~= out);
    assert(snell::chunks(data) =~= seq![data]);
    let salt = choose|salt: Seq<u8>| #[trigger]
        snell::sends(before.encoder(), suite, psk, salt, snell::chunks(data), out, after.encoder());
    let k = lemma_opening(w, suite, psk, salt, data, out, after.encoder());
    lemma_first_record(suite, psk, salt, data);
    let record = snell::record(snell::session(suite, psk, salt), aead::zero_nonce(), data);
    assert(out.take(k) + out.skip(k) =~= out);
    (salt, k)
}

/// What a connection puts on the wire with a later write of data that fits into one record: the record,
/// under the session key and the next nonces, as application data of the TLS disguise or as it is.
/// Without data it is the sealed length alone, which ends the stream.
pub proof fn lemma_later_write(e: Encoder, suite: Suite, psk: Seq<u8>, salt: Seq<u8>, data: Seq<u8>, out: Seq<u8>, after: Encoder)
    requires
        e.key is Some,
        e.obfs.kind is Plain || !e.obfs.first,
        data.len() <= 0x3fff,
        snell::sends(e, suite, psk, salt, snell::chunks(data), out, after),
    ensures
        ({
            let k = e.key.unwrap();
            let length = seq![(data.len() / 256) as u8, (data.len() % 256) as u8];
            let record = if data.len() == 0 {
                sealed(k, e.nonce, length)
            } else {
                sealed(k, e.nonce, length) + sealed(k, aead::next_nonce(e.nonce), data)
            };
            if e.obfs.kind is TlsServer || e.obfs.kind is TlsClient {
                out == tls::app_data(record)
            } else {
                out == record
            }
        }),
        after.key == e.key,
        after.obfs == e.obfs,
        after.nonce == (if data.len() == 0 {
            aead::next_nonce(e.nonce)
        } else {
            aead::next_nonce(aead::next_nonce(e.nonce))
        }),
{
    let k = e.key.unwrap();
    let record = snell::record(k, e.nonce, data);
    assert(snell::chunks(data) =~= seq![data]);
    assert(seq![data].drop_last() =~= seq![]);
    assert(snell::nonce_behind_all(e.nonce, seq![data].drop_last()) == e.nonce);
    assert(snell::records(k, e.nonce, seq![data].drop_last()) =~= seq![]);
    assert(snell::messages(e, suite, psk, salt, seq![data]) =~= seq![record]);
    assert(snell::record_opens(k, e.nonce, data));
    lemma_one_write(e.obfs, record, out);
    assert(tls::be16(data.len() as int) =~= seq![(data.len() / 256) as u8, (data.len() % 256) as u8]);
}

/// A message under a key of either suite.
pub open spec fn sealed(k: SessionKey, nonce: Seq<u8>, p: Seq<u8>) -> Seq<u8> {
    match k.suite {
        Suite::Aes128Gcm => aead::aes128_gcm_seal(k.key, nonce, p),
        Suite::ChaCha20Poly1305 => aead::chacha20_poly1305_seal(k.key, nonce, p),
    }
}

/// More data than fits into one record goes out in records of 16383 bytes, and one with what is left.
pub proof fn lemma_records_of(front: Seq<u8>, rest: Seq<u8>)
    ensures
        front.len() <= 16383 ==> snell::chunks(front) == seq![front],
        front.len() == 16383 && rest.len() > 0 ==> snell::chunks(front + rest) == seq![front] + snell::chunks(rest),
{
    if front.len() == 16383 && rest.len() > 0 {
        assert((front + rest).take(16383) =~= front);
        assert((front + rest).skip(16383) =~= rest);
    }
}

/// The upgrade request of a client, character by character, with the data behind it: it names the host and
/// the port, some version of curl from 7.0.0 to 7.53.1 and a key of 16 bytes, and announces the data.
pub proof fn lemma_upgrade_request(out: Seq<u8>, data: Seq<u8>, host: Seq<char>, port: Seq<char>) -> (r: (nat, nat, Seq<u8>))
    requires
        obfs::is_http_request(out, data, host, port),
    ensures
        r.0 <= 53,
        r.1 <= 1,
        r.2.len() == 16,
        ({
            let end = seq!['\r', '\n'];
            out == vstd::utf8::encode_utf8(
                "GET / HTTP/1.1"@ + end + ("Host: "@ + host + seq![':'] + port) + end + ("User-Agent: curl/7."@ + text::decimal(r.0)
                    + seq!['.'] + text::decimal(r.1)) + end + "Upgrade: websocket"@ + end + "Connection: Upgrade"@ + end + (
                "Sec-WebSocket-Key: "@ + http::base64_url(r.2)) + end + ("Content-Length: "@ + text::decimal(data.len())) + end + end,
            ) + data
        }),
{
    let (minor, patch, token) = choose|minor: nat, patch: nat, token: Seq<u8>| {
        &&& minor < 54
        &&& patch < 2
        &&& token.len() == 16
        &&& out == vstd::utf8::encode_utf8(
            http::joined(#[trigger] http::request_lines(host, port, minor, patch, http::base64_url(token), data.len())),
        ) + data
    };
    http::lemma_request_text(host, port, minor, patch, http::base64_url(token), data.len());
    (minor, patch, token)
}

/// The upgrade response of a server, character by character, with the data behind it: it names some
/// version of nginx from 1.0.0 to 1.10.11, the date and a token of 16 bytes.
pub proof fn lemma_upgrade_response(out: Seq<u8>, data: Seq<u8>) -> (r: (nat, nat, u64, Seq<u8>))
    requires
        obfs::is_http_response(out, data),
    ensures
        r.0 <= 10,
        r.1 <= 11,
        r.3.len() == 16,
        ({
            let end = seq!['\r', '\n'];
            out == vstd::utf8::encode_utf8(
                "HTTP/1.1 101 Switching Protocols"@ + end + ("Server: nginx/1."@ + text::decimal(r.0) + seq!['.'] + text::decimal(r.1))
                    + end + ("Date: "@ + http::rfc1123(r.2 as int)) + end + "Upgrade: websocket"@ + end + "Connection: Upgrade"@ + end + (
                "Sec-WebSocket-Accept: "@ + http::base64_url(r.3)) + end + end,
            ) + data
        }),
{
    let (major, minor, seconds, token) = choose|major: nat, minor: nat, seconds: u64, token: Seq<u8>| {
        &&& major < 11
        &&& minor < 12
        &&& token.len() == 16
        &&& out == vstd::utf8::encode_utf8(
            http::joined(
                #[trigger] http::response_lines(major, minor, http::rfc1123(seconds as int), http::base64_url(token)),
            ),
        ) + data
    };
    http::lemma_response_text(major, minor, http::rfc1123(seconds as int), http::base64_url(token));
    (major, minor, seconds, token)
}

/// Behind its hello a side in the TLS disguise writes application data records, and in the HTTP disguise
/// the data as it is; without a disguise every write is as it is.
pub proof fn lemma_behind_the_hello(w: Writer, data: Seq<u8>, out: Seq<u8>)
    requires
        obfs::writes(obfs::after_write(w), data, out),
    ensures
        w.kind is TlsServer || w.kind is TlsClient ==> out == tls::app_data(data),
        w.kind is HttpServer || w.kind is HttpClient || w.kind is Plain ==> out == data,
{
}

}
