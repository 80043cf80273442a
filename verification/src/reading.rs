//! What a reader takes off the wire, in terms of the bytes that stand there: how each disguise is
//! taken off, whoever put it on.
use crate::aead;
use crate::aead::Suite;
use crate::decode;
use crate::http;
use crate::obfs;
use crate::obfs::{Kind, Outcome, Reader};
use crate::records;
use crate::snell;
use crate::snell::{Decoder, SessionKey, Stop};
use crate::text;
use vstd::prelude::*;

verus! {

/// The reading side that an obfuscation type names, for a server and for a client.
pub proof fn lemma_sides(obfs_type: Seq<char>, host: Seq<char>, port: Seq<char>)
    ensures
        obfs_type == "tls"@ ==> snell::server_mode(obfs_type) is TlsServer && snell::client_writer(obfs_type, host, port).kind is TlsClient,
        obfs_type == "http"@ ==> snell::server_mode(obfs_type) is HttpServer && snell::client_writer(obfs_type, host, port).kind
            is HttpClient,
        obfs_type != "tls"@ && obfs_type != "http"@ ==> snell::server_mode(obfs_type) is Plain && snell::client_writer(
            obfs_type,
            host,
            port,
        ).kind is Plain,
{
    reveal_strlit("tls");
    reveal_strlit("http");
    assert("tls"@.len() != "http"@.len());
}

/// A payload behind a head that ends with its length: all of it where it is no longer than what was
/// asked for, and else as much as was asked for, with the rest still to come.
pub open spec fn takes_payload(head: nat, data: Seq<u8>, cap: nat, next: Reader, outcome: Outcome) -> bool {
    if data.len() <= cap {
        outcome == (Outcome::Data { consumed: head + data.len(), out: data, next })
    } else {
        outcome == (Outcome::Data {
            consumed: head + cap,
            out: data.take(cap as int),
            next: Reader { remain: (data.len() - cap) as nat, ..next },
        })
    }
}

proof fn lemma_tls_payload(r: Reader, head: Seq<u8>, data: Seq<u8>, more: Seq<u8>, eof: bool, cap: nat)
    requires
        data.len() < 0x1_0000,
        r.remain == 0,
        0 < cap,
    ensures
        takes_payload(
            head.len() + 2,
            data,
            cap,
            r,
            obfs::tls_read(
                r,
                head + seq![(data.len() / 256) as u8, (data.len() % 256) as u8] + data + more,
                eof,
                head.len() + 2,
                cap,
            ),
        ),
{
    let two = seq![(data.len() / 256) as u8, (data.len() % 256) as u8];
    let s = head + two + data + more;
    let h = head.len() as int;
    assert(s[h] == two[0] && s[h + 1] == two[1]);
    assert(s.subrange(h + 2, h + 2 + data.len()) =~= data);
    if data.len() > cap {
        assert(s.subrange(h + 2, h + 2 + cap) =~= data.take(cap as int));
        assert(s.skip(h + 2).len() > 0);
    } else {
        assert(Reader { remain: 0, ..r } == r);
    }
}

/// A server in the TLS disguise takes the payload out of the session ticket of a client hello, which
/// stands behind 140 bytes and its length, whatever those bytes are.
pub proof fn lemma_client_hello_is_read(head: Seq<u8>, data: Seq<u8>, more: Seq<u8>, eof: bool, cap: nat)
    requires
        head.len() == 140,
        data.len() < 0x1_0000,
        0 < cap,
    ensures
        takes_payload(
            142,
            data,
            cap,
            Reader { kind: Kind::TlsServer, first: false, ticket_done: false, remain: 0, pending: seq![] },
            obfs::obfs_read(
                obfs::fresh_reader(Kind::TlsServer),
                head + seq![(data.len() / 256) as u8, (data.len() % 256) as u8] + data + more,
                eof,
                cap,
            ),
        ),
{
    reveal(obfs::obfs_read);
    let r = Reader { kind: Kind::TlsServer, first: false, ticket_done: false, remain: 0, pending: seq![] };
    lemma_tls_payload(r, head, data, more, eof, cap);
}

/// Behind the session ticket it drops what is left of the client hello, for a server name of any length,
/// and takes the payload of the record that follows.
pub proof fn lemma_rest_of_hello_is_dropped(
    seven: Seq<u8>,
    name: Seq<u8>,
    tail: Seq<u8>,
    three: Seq<u8>,
    data: Seq<u8>,
    more: Seq<u8>,
    eof: bool,
    cap: nat,
)
    requires
        seven.len() == 7,
        name.len() < 0x1_0000,
        tail.len() == 66,
        three.len() == 3,
        data.len() < 0x1_0000,
        0 < cap,
    ensures
        takes_payload(
            80 + name.len(),
            data,
            cap,
            Reader { kind: Kind::TlsServer, first: false, ticket_done: true, remain: 0, pending: seq![] },
            obfs::obfs_read(
                Reader { kind: Kind::TlsServer, first: false, ticket_done: false, remain: 0, pending: seq![] },
                seven + seq![(name.len() / 256) as u8, (name.len() % 256) as u8] + name + tail + three + seq![
                    (data.len() / 256) as u8,
                    (data.len() % 256) as u8,
                ] + data + more,
                eof,
                cap,
            ),
        ),
{
    reveal(obfs::obfs_read);
    let two = seq![(name.len() / 256) as u8, (name.len() % 256) as u8];
    let head = seven + two + name + tail + three;
    let r = Reader { kind: Kind::TlsServer, first: false, ticket_done: true, remain: 0, pending: seq![] };
    let s = head + seq![(data.len() / 256) as u8, (data.len() % 256) as u8] + data + more;
    assert(s[7] == two[0] && s[8] == two[1]);
    assert(s[7] * 256 + s[8] == name.len());
    lemma_tls_payload(r, head, data, more, eof, cap);
}

/// A client in the TLS disguise takes the payload that stands behind 105 bytes of the server's hello and
/// its length, whatever those bytes are.
pub proof fn lemma_server_hello_is_read(head: Seq<u8>, data: Seq<u8>, more: Seq<u8>, eof: bool, cap: nat)
    requires
        head.len() == 105,
        data.len() < 0x1_0000,
        0 < cap,
    ensures
        takes_payload(
            107,
            data,
            cap,
            Reader { kind: Kind::TlsClient, first: false, ticket_done: false, remain: 0, pending: seq![] },
            obfs::obfs_read(
                obfs::fresh_reader(Kind::TlsClient),
                head + seq![(data.len() / 256) as u8, (data.len() % 256) as u8] + data + more,
                eof,
                cap,
            ),
        ),
{
    reveal(obfs::obfs_read);
    let r = Reader { kind: Kind::TlsClient, first: false, ticket_done: false, remain: 0, pending: seq![] };
    lemma_tls_payload(r, head, data, more, eof, cap);
}

/// Behind the hellos both sides take the payload of each record, which stands behind three bytes and its
/// length; and what is left of a payload is taken first, as much as was asked for.
pub proof fn lemma_records_are_read(kind: Kind, three: Seq<u8>, data: Seq<u8>, left: Seq<u8>, more: Seq<u8>, eof: bool, cap: nat)
    requires
        kind is TlsServer || kind is TlsClient,
        three.len() == 3,
        data.len() < 0x1_0000,
        0 < cap,
        left.len() > 0,
    ensures
        takes_payload(
            5,
            data,
            cap,
            Reader { kind, first: false, ticket_done: kind is TlsServer, remain: 0, pending: seq![] },
            obfs::obfs_read(
                Reader { kind, first: false, ticket_done: kind is TlsServer, remain: 0, pending: seq![] },
                three + seq![(data.len() / 256) as u8, (data.len() % 256) as u8] + data + more,
                eof,
                cap,
            ),
        ),
        takes_payload(
            0,
            left,
            cap,
            Reader { kind, first: false, ticket_done: kind is TlsServer, remain: 0, pending: seq![] },
            obfs::obfs_read(
                Reader { kind, first: false, ticket_done: kind is TlsServer, remain: left.len(), pending: seq![] },
                left + more,
                eof,
                cap,
            ),
        ),
{
    reveal(obfs::obfs_read);
    let r = Reader { kind, first: false, ticket_done: kind is TlsServer, remain: 0, pending: seq![] };
    lemma_tls_payload(r, three, data, more, eof, cap);
    if left.len() <= cap {
        assert((left + more).take(left.len() as int) =~= left);
    } else {
        assert((left + more).take(cap as int) =~= left.take(cap as int));
    }
}

/// A hello that has not arrived as far as the length of its payload is waited for; where the stream has
/// ended, the read fails.
pub proof fn lemma_hello_is_awaited(kind: Kind, s: Seq<u8>, eof: bool, cap: nat)
    requires
        kind is TlsServer && s.len() < 142 || kind is TlsClient && s.len() < 107,
    ensures
        eof ==> obfs::obfs_read(obfs::fresh_reader(kind), s, eof, cap) is Cut,
        !eof ==> obfs::obfs_read(obfs::fresh_reader(kind), s, eof, cap) is Starved,
{
    reveal(obfs::obfs_read);
}

/// Without a disguise, and behind the header block of the HTTP disguise, up to as many bytes as were
/// asked for are taken as they stand there; where none stand there, they are waited for, and the end of
/// the stream is a read of no bytes.
pub proof fn lemma_plain_is_read(kind: Kind, first: bool, data: Seq<u8>, eof: bool, cap: nat)
    requires
        kind is Plain || ((kind is HttpServer || kind is HttpClient) && !first),
        0 < cap,
    ensures
        ({
            let r = Reader { kind, first, ticket_done: false, remain: 0, pending: seq![] };
            let outcome = obfs::obfs_read(r, data, eof, cap);
            &&& 0 < data.len() <= cap ==> outcome == (Outcome::Data { consumed: data.len(), out: data, next: r })
            &&& data.len() > cap ==> outcome == (Outcome::Data { consumed: cap, out: data.take(cap as int), next: r })
            &&& data.len() == 0 && !eof ==> outcome is Starved
            &&& data.len() == 0 && eof ==> outcome == (Outcome::Data { consumed: 0, out: seq![], next: r })
        }),
{
    reveal(obfs::obfs_read);
    assert(data.skip(0) =~= data);
    assert(data.subrange(0, data.len() as int) =~= data);
    if data.len() == 0 {
        assert(data =~= seq![]);
    }
    if data.len() > cap {
        assert(data.subrange(0, cap as int) =~= data.take(cap as int));
    }
}

/// Whether two line ends in a row, of a carriage return and a line feed each, stand at a position.
pub open spec fn two_ends_at(s: Seq<u8>, i: int) -> bool {
    0 <= i && i + 4 <= s.len() && s[i] == 13 && s[i + 1] == 10 && s[i + 2] == 13 && s[i + 3] == 10
}

/// A header block ends behind the first empty line.
pub proof fn lemma_head_end(s: Seq<u8>)
    ensures
        obfs::head_end(s) matches Some(e) ==> 4 <= e <= s.len() && two_ends_at(s, e - 4) && forall|i: int|
            0 <= i < e - 4 ==> !#[trigger] two_ends_at(s, i),
        obfs::head_end(s) is None ==> forall|i: int| !#[trigger] two_ends_at(s, i),
    decreases s.len(),
{
    if s.len() >= 4 && !two_ends_at(s, 0) {
        let t = s.drop_first();
        lemma_head_end(t);
        assert forall|i: int| i > 0 implies #[trigger] two_ends_at(s, i) == two_ends_at(t, i - 1) by {}
    }
}

/// A header block that has not arrived as a whole is waited for, and so is the body that it announces;
/// where the stream has ended, the read fails.
pub proof fn lemma_block_is_awaited(
    kind: Kind,
    s: Seq<u8>,
    lines: Seq<Seq<char>>,
    k: int,
    p: Seq<char>,
    n: nat,
    q: Seq<char>,
    part: Seq<u8>,
    eof: bool,
    cap: nat,
)
    requires
        kind is HttpServer || kind is HttpClient,
        forall|i: int| !#[trigger] two_ends_at(s, i),
        announcing(lines, k, p, n, q),
        part.len() < n,
    ensures
        eof ==> obfs::obfs_read(obfs::fresh_reader(kind), s, eof, cap) is Cut,
        !eof ==> obfs::obfs_read(obfs::fresh_reader(kind), s, eof, cap) is Starved,
        eof ==> obfs::obfs_read(obfs::fresh_reader(kind), vstd::utf8::encode_utf8(http::joined(lines)) + part, eof, cap) is Cut,
        !eof ==> obfs::obfs_read(obfs::fresh_reader(kind), vstd::utf8::encode_utf8(http::joined(lines)) + part, eof, cap) is Starved,
{
    lemma_head_end(s);
    if let Some(e) = obfs::head_end(s) {
        assert(two_ends_at(s, e - 4));
    }
    lemma_block(lines, part);
    lemma_announcing(lines, k, p, n, q);
    lemma_awaited(kind, s, vstd::utf8::encode_utf8(http::joined(lines)), n, part, eof, cap);
}

proof fn lemma_awaited(kind: Kind, s: Seq<u8>, block: Seq<u8>, n: nat, part: Seq<u8>, eof: bool, cap: nat)
    requires
        kind is HttpServer || kind is HttpClient,
        obfs::head_end(s) is None,
        obfs::head_end(block + part) == Some(block.len()),
        (block + part).take(block.len() as int) == block,
        obfs::body_length(block) == n,
        part.len() < n,
    ensures
        obfs::obfs_read(obfs::fresh_reader(kind), s, eof, cap) == obfs::lacks(
            Reader { first: false, ..obfs::fresh_reader(kind) },
            eof,
        ),
        obfs::obfs_read(obfs::fresh_reader(kind), block + part, eof, cap) == obfs::lacks(
            Reader { first: false, ..obfs::fresh_reader(kind) },
            eof,
        ),
{
    reveal(obfs::obfs_read);
}

/// Whether lines are those of a header block that announces a body of `n` bytes: the first line that
/// starts with "Content-Length:", or with that in lower case, holds the number.
pub open spec fn announcing(lines: Seq<Seq<char>>, k: int, p: Seq<char>, n: nat, q: Seq<char>) -> bool {
    &&& http::is_block(lines)
    &&& 0 <= k < lines.len()
    &&& forall|i: int|
        0 <= i < k ==> !"Content-Length:"@.is_prefix_of(#[trigger] lines[i]) && !"content-length:"@.is_prefix_of(lines[i])
    &&& text::all_white(p) && text::all_white(q)
    &&& lines[k] == "Content-Length:"@ + (p + text::decimal(n) + q) || lines[k] == "content-length:"@ + (p + text::decimal(n) + q)
    &&& n <= usize::MAX
}

proof fn lemma_block(lines: Seq<Seq<char>>, s: Seq<u8>)
    requires
        http::is_block(lines),
    ensures
        ({
            let block = vstd::utf8::encode_utf8(http::joined(lines));
            &&& obfs::head_end(block + s) == Some(block.len())
            &&& (block + s).take(block.len() as int) == block
            &&& obfs::body_length(block) == (match http::announced_length(lines) {
                Some(n) => n,
                None => 0,
            })
        }),
{
    let block = vstd::utf8::encode_utf8(http::joined(lines));
    decode::lemma_head_end_of_block(lines, s);
    assert((block + s).take(block.len() as int) =~= block);
    text::lemma_text_of_bytes(http::joined(lines));
    http::lemma_lines_of_joined(lines);
}

/// The first read in the HTTP disguise takes the header block and the body that it announces, whatever
/// else the block says: up to as much as was asked for is handed out, and what is left of the body comes
/// before anything else.
pub proof fn lemma_body_is_read(
    kind: Kind,
    lines: Seq<Seq<char>>,
    k: int,
    p: Seq<char>,
    q: Seq<char>,
    body: Seq<u8>,
    more: Seq<u8>,
    eof: bool,
    cap: nat,
)
    requires
        kind is HttpServer || kind is HttpClient,
        body.len() > 0,
        announcing(lines, k, p, body.len(), q),
    ensures
        ({
            let block = vstd::utf8::encode_utf8(http::joined(lines));
            let n: nat = if body.len() <= cap {
                body.len()
            } else {
                cap
            };
            obfs::obfs_read(obfs::fresh_reader(kind), block + body + more, eof, cap) == (Outcome::Data {
                consumed: block.len() + body.len(),
                out: body.take(n as int),
                next: Reader { kind, first: false, ticket_done: false, remain: 0, pending: body.skip(n as int) },
            })
        }),
{
    let block = vstd::utf8::encode_utf8(http::joined(lines));
    lemma_block(lines, body + more);
    assert(block + body + more =~= block + (body + more));
    lemma_announcing(lines, k, p, body.len(), q);
    lemma_body_behind(kind, block, body, more, eof, cap);
}

proof fn lemma_announcing(lines: Seq<Seq<char>>, k: int, p: Seq<char>, n: nat, q: Seq<char>)
    requires
        announcing(lines, k, p, n, q),
    ensures
        http::announced_length(lines) == Some(n),
{
    http::lemma_announced(lines.take(k), p, n, q, seq![], lines.skip(k + 1));
    assert(lines.take(k) + seq![lines[k]] + lines.skip(k + 1) =~= lines);
}

proof fn lemma_body_behind(kind: Kind, block: Seq<u8>, body: Seq<u8>, more: Seq<u8>, eof: bool, cap: nat)
    requires
        kind is HttpServer || kind is HttpClient,
        body.len() > 0,
        obfs::head_end(block + body + more) == Some(block.len()),
        obfs::body_length(block) == body.len(),
    ensures
        ({
            let n: nat = if body.len() <= cap {
                body.len()
            } else {
                cap
            };
            obfs::obfs_read(obfs::fresh_reader(kind), block + body + more, eof, cap) == (Outcome::Data {
                consumed: block.len() + body.len(),
                out: body.take(n as int),
                next: Reader { kind, first: false, ticket_done: false, remain: 0, pending: body.skip(n as int) },
            })
        }),
{
    reveal(obfs::obfs_read);
    let s = block + body + more;
    let e = block.len() as int;
    let n: int = if body.len() <= cap {
        body.len() as int
    } else {
        cap as int
    };
    assert(s.take(e) =~= block);
    assert(s.subrange(e, e + n) =~= body.take(n));
    assert(s.subrange(e + n, e + body.len()) =~= body.skip(n));
}

/// Where the header block announces no body, a server has read nothing with it, and a client goes on to
/// what stands behind it.
pub proof fn lemma_block_without_body(kind: Kind, lines: Seq<Seq<char>>, data: Seq<u8>, eof: bool, cap: nat)
    requires
        kind is HttpServer || kind is HttpClient,
        http::is_block(lines),
        forall|i: int|
            0 <= i < lines.len() ==> !"Content-Length:"@.is_prefix_of(#[trigger] lines[i]) && !"content-length:"@.is_prefix_of(
                lines[i],
            ),
        0 < data.len() <= cap,
    ensures
        ({
            let block = vstd::utf8::encode_utf8(http::joined(lines));
            let next = Reader { kind, first: false, ticket_done: false, remain: 0, pending: seq![] };
            let outcome = obfs::obfs_read(obfs::fresh_reader(kind), block + data, eof, cap);
            &&& kind is HttpServer ==> outcome == (Outcome::Data { consumed: block.len(), out: seq![], next })
            &&& kind is HttpClient ==> outcome == (Outcome::Data { consumed: block.len() + data.len(), out: data, next })
        }),
{
    reveal(obfs::obfs_read);
    let block = vstd::utf8::encode_utf8(http::joined(lines));
    lemma_block(lines, data);
    http::lemma_announced(lines, seq![], 0, seq![], seq![], seq![]);
    assert((block + data).skip(block.len() as int) =~= data);
    assert((block + data).subrange(block.len() as int, (block.len() + data.len()) as int) =~= data);
}

/// What was read and not asked for is handed out first, in every disguise.
pub proof fn lemma_pending_comes_first(r: Reader, s: Seq<u8>, eof: bool, cap: nat)
    requires
        r.pending.len() > 0,
    ensures
        obfs::obfs_read(r, s, eof, cap) == (Outcome::Data {
            consumed: 0,
            out: if r.pending.len() <= cap {
                r.pending
            } else {
                r.pending.take(cap as int)
            },
            next: Reader {
                pending: if r.pending.len() <= cap {
                    seq![]
                } else {
                    r.pending.skip(cap as int)
                },
                ..r
            },
        }),
{
    reveal(obfs::obfs_read);
    assert(r.pending.take(r.pending.len() as int) =~= r.pending);
    assert(r.pending.skip(r.pending.len() as int) =~= seq![]);
}

/// The payload length of a record is held in the low 14 bits of its header.
pub proof fn lemma_header_length(hi: u8, lo: u8)
    ensures
        snell::header_size(seq![hi, lo]) == hi as int % 64 * 256 + lo,
{
    let (q, r) = (hi as int / 64, hi as int % 64);
    assert(hi * 256 + lo == 0x4000 * q + (256 * r + lo));
    assert((0x4000 * q + (256 * r + lo)) % 0x4000 == 256 * r + lo);
}

// ---- Records, message by message ----

/// The message that a key of either suite opens, or `None`.
pub open spec fn opened(k: SessionKey, nonce: Seq<u8>, c: Seq<u8>) -> Option<Seq<u8>> {
    match k.suite {
        Suite::Aes128Gcm => aead::aes128_gcm_open(k.key, nonce, c),
        Suite::ChaCha20Poly1305 => aead::chacha20_poly1305_open(k.key, nonce, c),
    }
}

/// Whether a reading half without a disguise is about to read a record, and `stream` is all that it has
/// of it and of what follows.
pub open spec fn about_to_read(d: Decoder, s: Seq<u8>, stream: Seq<u8>) -> bool {
    &&& d.obfs.kind is Plain
    &&& d.obfs.pending.len() == 0
    &&& d.leftover.len() == 0
    &&& d.size is None
    &&& d.enc + s == stream
}

/// A record opens with the session key: the first 18 bytes hold the length of the payload, in the low 14
/// bits, and what follows is the payload, 16 bytes longer for being sealed. Up to as much of it as was
/// asked for is handed out, and the rest is kept. A length of zero ends a stream.
pub proof fn lemma_record_is_read(
    d: Decoder,
    s: Seq<u8>,
    eof: bool,
    cap: nat,
    k: SessionKey,
    header: Seq<u8>,
    hi: u8,
    lo: u8,
    sealed: Seq<u8>,
    payload: Seq<u8>,
    more: Seq<u8>,
)
    requires
        about_to_read(d, s, header + sealed + more),
        d.key == Some(k),
        header.len() == 18,
        opened(k, d.nonce, header) == Some(seq![hi, lo]),
    ensures
        ({
            let n = hi as int % 64 * 256 + lo;
            let t = snell::snell_read(d, s, eof, cap);
            &&& n == 0 ==> t.result == Err::<Seq<u8>, Stop>(Stop::ZeroChunk) && t.next.leftover.len() == 0
            &&& n > 0 && sealed.len() == n + 16 && opened(k, aead::next_nonce(d.nonce), sealed) == Some(payload) ==> {
                &&& payload.len() <= cap ==> t.result == Ok::<Seq<u8>, Stop>(payload) && t.next.leftover.len() == 0
                &&& payload.len() > cap ==> t.result == Ok::<Seq<u8>, Stop>(payload.take(cap as int)) && t.next.leftover == payload.skip(
                    cap as int,
                )
                &&& t.next.nonce == aead::next_nonce(aead::next_nonce(d.nonce))
            }
            &&& n > 0 && sealed.len() == n + 16 && opened(k, aead::next_nonce(d.nonce), sealed) is None ==> t.result == Err::<
                Seq<u8>,
                Stop,
            >(Stop::Rejected)
            &&& n > 0 && sealed.len() < n + 16 && more.len() == 0 ==> t.result == Err::<Seq<u8>, Stop>(
                if eof {
                    Stop::Closed
                } else {
                    Stop::Lacking
                },
            )
            &&& t.next.key == Some(k) && t.next.switched == d.switched
        }),
{
    reveal(snell::snell_read);
    lemma_header_length(hi, lo);
    let n = hi as int % 64 * 256 + lo;
    let stream = header + sealed + more;
    assert(records::incoming(d, s, stream, d.obfs));
    let h = records::lemma_take_exact(d, s, eof, 18, stream, d.obfs);
    assert(stream.take(18) =~= header);
    assert(stream.skip(18) =~= sealed + more);
    if n > 0 {
        let mid = Decoder { size: Some(n as nat), ..snell::open_header(h.next, header).0 };
        let b = records::lemma_take_exact(mid, h.rest, eof, n as nat + 16, sealed + more, d.obfs);
        if sealed.len() == n + 16 {
            assert((sealed + more).take(n + 16) =~= sealed);
        }
        assert(payload.take(payload.len() as int) =~= payload);
    }
}

/// A length that the session key does not open is tried with the other suite's key, where that is still
/// there, which then takes its place; a record that neither opens is rejected. A record is waited for,
/// and where the stream ends before it, the connection is closed.
pub proof fn lemma_record_is_tried(d: Decoder, s: Seq<u8>, eof: bool, cap: nat, k: SessionKey, header: Seq<u8>, more: Seq<u8>)
    requires
        about_to_read(d, s, header + more),
        d.key == Some(k),
    ensures
        ({
            let t = snell::snell_read(d, s, eof, cap);
            &&& header.len() == 18 && opened(k, d.nonce, header) is None && (d.fallback matches Some(f) ==> opened(f, d.nonce, header)
                is None) ==> t.result == Err::<Seq<u8>, Stop>(Stop::Rejected) && t.next.key == Some(k) && t.next.switched == d.switched
            &&& header.len() == 18 && opened(k, d.nonce, header) is None && (d.fallback matches Some(f) && opened(f, d.nonce, header)
                is Some) ==> t.next.key == d.fallback && t.next.switched && t == snell::snell_read(
                Decoder { key: d.fallback, fallback: None, switched: true, ..d },
                s,
                eof,
                cap,
            )
            &&& header.len() < 18 && more.len() == 0 ==> t.result == Err::<Seq<u8>, Stop>(
                if eof {
                    Stop::Closed
                } else {
                    Stop::Lacking
                },
            )
        }),
{
    reveal(snell::snell_read);
    let stream = header + more;
    assert(records::incoming(d, s, stream, d.obfs));
    let h = records::lemma_take_exact(d, s, eof, 18, stream, d.obfs);
    if header.len() == 18 {
        assert(stream.take(18) =~= header);
        let other = Decoder { key: d.fallback, fallback: None, switched: true, ..d };
        assert(records::incoming(other, s, stream, d.obfs));
        lemma_same_bytes(d, other, s, eof, 18);
        if d.fallback is Some && snell::open_header(h.next, header).1 is Some {
            let mid = snell::read_header(d, s, eof);
            if mid.result is Ok {
                snell::lemma_fill_length(mid.next, mid.rest, eof, mid.next.size.unwrap() + 16);
            }
        }
    }
}

/// What is taken off the wire does not depend on the keys.
proof fn lemma_same_bytes(d: Decoder, e: Decoder, s: Seq<u8>, eof: bool, n: nat)
    requires
        d.obfs == e.obfs,
        d.enc == e.enc,
    ensures
        ({
            let a = snell::fill(d, s, eof, n);
            let b = snell::fill(e, s, eof, n);
            a.result == b.result && a.rest == b.rest && a.next.obfs == b.next.obfs && a.next.enc == b.next.enc && a.next == (Decoder {
                obfs: a.next.obfs,
                enc: a.next.enc,
                ..d
            }) && b.next == (Decoder { obfs: b.next.obfs, enc: b.next.enc, ..e })
        }),
    decreases (if d.enc.len() < n { n - d.enc.len() } else { 0 }),
{
    if d.enc.len() < n {
        match obfs::obfs_read(d.obfs, s, eof, snell::FILL_SIZE as nat) {
            Outcome::Starved => {},
            Outcome::Cut { .. } => {},
            Outcome::Data { consumed, out, next } => {
                if out.len() > 0 {
                    lemma_same_bytes(
                        Decoder { obfs: next, enc: d.enc + out, ..d },
                        Decoder { obfs: next, enc: e.enc + out, ..e },
                        s.skip(consumed as int),
                        eof,
                        n,
                    );
                }
            },
        }
    }
}

/// The first 16 bytes of a direction are the salt: the session key of the connection's suite, and that of
/// the other suite where there is one to fall back on, are the fronts of what Argon2id derives from it and
/// the pre-shared key.
pub proof fn lemma_salt_is_read(d: Decoder, s: Seq<u8>, eof: bool, salt: Seq<u8>, more: Seq<u8>)
    requires
        about_to_read(d, s, salt + more),
        d.key is None,
        d.fallback is None,
        d.suite is Aes128Gcm,
        d.fallback_suite == Some(Suite::ChaCha20Poly1305),
    ensures
        salt.len() == 16 ==> {
            let derived = aead::argon2id_output(8, 3, 1, d.psk, salt, 32);
            let t = snell::init_reader(d, s, eof);
            &&& t.result is Ok
            &&& t.next.key == Some(SessionKey { suite: Suite::Aes128Gcm, key: derived.take(16) })
            &&& t.next.fallback == Some(SessionKey { suite: Suite::ChaCha20Poly1305, key: derived.take(32) })
            &&& t.next.nonce == seq![0u8, 0u8, 0u8, 0u8, 0u8, 0u8, 0u8, 0u8, 0u8, 0u8, 0u8, 0u8]
            &&& about_to_read(t.next, t.rest, more)
        },
        salt.len() < 16 && more.len() == 0 ==> forall|cap: nat| (#[trigger] snell::snell_read(d, s, eof, cap)).result == Err::<
            Seq<u8>,
            Stop,
        >(
            if eof {
                Stop::Closed
            } else {
                Stop::Lacking
            },
        ),
{
    reveal(snell::snell_read);
    let stream = salt + more;
    assert(records::incoming(d, s, stream, d.obfs));
    let t = records::lemma_take_exact(d, s, eof, 16, stream, d.obfs);
    if salt.len() == 16 {
        assert(stream.take(16) =~= salt);
        assert(stream.skip(16) =~= more);
        assert(aead::zero_nonce() =~= seq![0u8, 0u8, 0u8, 0u8, 0u8, 0u8, 0u8, 0u8, 0u8, 0u8, 0u8, 0u8]);
        lemma_plain_stays(d, s, eof, 16);
    }
}

/// A reading half without a disguise stays one.
proof fn lemma_plain_stays(d: Decoder, s: Seq<u8>, eof: bool, n: nat)
    requires
        d.obfs.kind is Plain,
        d.obfs.pending.len() == 0,
    ensures
        snell::fill(d, s, eof, n).next.obfs == d.obfs,
    decreases (if d.enc.len() < n { n - d.enc.len() } else { 0 }),
{
    reveal(obfs::obfs_read);
    if d.enc.len() < n {
        match obfs::obfs_read(d.obfs, s, eof, snell::FILL_SIZE as nat) {
            Outcome::Starved => {},
            Outcome::Cut { .. } => {},
            Outcome::Data { consumed, out, next } => {
                if out.len() > 0 {
                    lemma_plain_stays(Decoder { obfs: next, enc: d.enc + out, ..d }, s.skip(consumed as int), eof, n);
                }
            },
        }
    }
}

}
