//! What an obfuscated stream carries: a reader takes out exactly the payload that a writer put in.
use crate::http;
use crate::obfs;
use crate::obfs::{Kind, Outcome, Reader, Writer};
use crate::text;
use crate::tls;
use vstd::prelude::*;

verus! {

// ---- Header blocks ----

proof fn lemma_head_end_skip(s: Seq<u8>, k: nat)
    requires
        k <= s.len(),
        forall|j: int| 1 <= j <= k && j < s.len() ==> s[j] != 10,
    ensures
        obfs::head_end(s) == (match obfs::head_end(s.skip(k as int)) {
            Some(e) => Some(e + k),
            None => None,
        }),
    decreases k,
{
    if k == 0 {
        assert(s.skip(0) =~= s);
    } else {
        lemma_head_end_skip(s.drop_first(), (k - 1) as nat);
        assert(s.drop_first().skip(k - 1) =~= s.skip(k as int));
        if s.len() < 4 {
            assert(obfs::head_end(s.skip(k as int)) is None);
        } else {
            assert(s[1] != 10);
        }
    }
}

/// The rest of a header block, from the line end that stands before its lines.
proof fn lemma_head_end_rest(lines: Seq<Seq<char>>, t: Seq<u8>)
    requires
        lines.len() > 0,
        lines.last().len() == 0,
        forall|i: int| 0 <= i < lines.len() ==> text::one_line(#[trigger] lines[i]),
        forall|i: int| 0 <= i < lines.len() - 1 ==> (#[trigger] lines[i]).len() > 0,
    ensures
        obfs::head_end(seq![13u8, 10u8] + vstd::utf8::encode_utf8(http::joined(lines)) + t) == Some(
            vstd::utf8::encode_utf8(http::joined(lines)).len() + 2,
        ),
    decreases lines.len(),
{
    http::lemma_joined_bytes(lines);
    let block = vstd::utf8::encode_utf8(http::joined(lines));
    let s = seq![13u8, 10u8] + block + t;
    let first = vstd::utf8::encode_utf8(lines[0]);
    let rest = vstd::utf8::encode_utf8(http::joined(lines.drop_first()));
    if lines.len() == 1 {
        assert(lines.drop_first() =~= seq![]);
        assert(first =~= seq![]);
        assert(rest =~= seq![]);
        assert(block =~= seq![13u8, 10u8]);
    } else {
        text::lemma_one_line_bytes(lines[0]);
        let n = first.len();
        assert(block =~= first + seq![13u8, 10u8] + rest);
        assert(s[3] != 10) by {
            if n == 1 {
                assert(s[3] == 13);
            } else {
                assert(s[3] == first[1]);
            }
        }
        let after = s.drop_first();
        assert forall|j: int| 1 <= j <= n + 1 && j < after.len() implies after[j] != 10 by {
            if j <= n {
                assert(after[j] == first[j - 1]);
            } else {
                assert(after[j] == 13);
            }
        }
        lemma_head_end_skip(after, n + 1);
        assert(after.skip((n + 1) as int) =~= seq![13u8, 10u8] + rest + t);
        assert(lines.drop_first().last() == lines.last());
        lemma_head_end_rest(lines.drop_first(), t);
    }
}

/// A reader finds the end of a header block where the writer put it.
pub proof fn lemma_head_end_of_block(lines: Seq<Seq<char>>, t: Seq<u8>)
    requires
        http::is_block(lines),
    ensures
        obfs::head_end(vstd::utf8::encode_utf8(http::joined(lines)) + t) == Some(
            vstd::utf8::encode_utf8(http::joined(lines)).len(),
        ),
{
    http::lemma_joined_bytes(lines);
    text::lemma_one_line_bytes(lines[0]);
    let block = vstd::utf8::encode_utf8(http::joined(lines));
    let first = vstd::utf8::encode_utf8(lines[0]);
    let rest = vstd::utf8::encode_utf8(http::joined(lines.drop_first()));
    let s = block + t;
    let n = first.len();
    assert(s =~= first + seq![13u8, 10u8] + rest + t);
    assert forall|j: int| 1 <= j <= n && j < s.len() implies s[j] != 10 by {
        if j < n {
            assert(s[j] == first[j]);
        } else {
            assert(s[j] == 13);
        }
    }
    lemma_head_end_skip(s, n);
    assert(s.skip(n as int) =~= seq![13u8, 10u8] + rest + t);
    assert(lines.drop_first().last() == lines.last());
    lemma_head_end_rest(lines.drop_first(), t);
}

// ---- What a stream carries ----

/// A piece with a head of which the last two bytes hold the length of the body.
pub open spec fn length_piece(head: nat, next: Reader, s: Seq<u8>) -> Option<(nat, nat, Reader)> {
    if s.len() < head || tls::from_be16(s[head - 2], s[head - 1]) == 0 {
        None
    } else {
        Some((head, tls::from_be16(s[head - 2], s[head - 1]), next))
    }
}

/// Whether what follows goes as it is.
pub open spec fn is_raw(r: Reader) -> bool {
    r.kind is Plain || (!r.first && (r.kind is HttpServer || r.kind is HttpClient))
}

/// The head and the body of the TLS piece that a reader has before it, and the reader behind it:
/// the rest of a record, a hello, the rest of a client hello, or a record.
#[verifier::opaque]
pub open spec fn tls_piece(r: Reader, s: Seq<u8>) -> Option<(nat, nat, Reader)> {
    if r.remain > 0 {
        Some((0, r.remain, Reader { remain: 0, ..r }))
    } else if r.first {
        let head = if r.kind is TlsServer { tls::CLIENT_HELLO_HEAD as nat } else { tls::SERVER_HELLO_HEAD as nat };
        length_piece(head + 2, Reader { first: false, ..r }, s)
    } else if r.kind is TlsServer && !r.ticket_done {
        if s.len() < tls::SNI_HEAD + 2 {
            None
        } else {
            let name_len = tls::from_be16(s[tls::SNI_HEAD as int], s[tls::SNI_HEAD + 1]);
            Some((obfs::hello_tail_len(name_len), 0, Reader { ticket_done: true, ..r }))
        }
    } else {
        length_piece(obfs::record_head_len(), r, s)
    }
}

/// The payload that a reader takes out of a stream of whole pieces, and the reader at the end of
/// it; `None` where the stream ends inside a piece, or holds a piece without payload.
pub open spec fn decode(r: Reader, s: Seq<u8>) -> Option<(Seq<u8>, Reader)>
    decreases s.len(), r.pending.len(),
{
    if r.pending.len() > 0 {
        match decode(Reader { pending: seq![], ..r }, s) {
            Some((payload, end)) => Some((r.pending + payload, end)),
            None => None,
        }
    } else if is_raw(r) {
        Some((s, r))
    } else if s.len() == 0 {
        if r.remain > 0 {
            None
        } else {
            Some((seq![], r))
        }
    } else if r.kind is TlsServer || r.kind is TlsClient {
        match tls_piece(r, s) {
            Some((head, body, next)) => if head + body == 0 || s.len() < head + body {
                None
            } else {
                match decode(next, s.skip((head + body) as int)) {
                    Some((payload, end)) => Some((s.subrange(head as int, (head + body) as int) + payload, end)),
                    None => None,
                }
            },
            None => None,
        }
    } else {
        match obfs::head_end(s) {
            None => None,
            Some(e) => {
                let length = obfs::body_length(s.take(e as int));
                if s.len() < e + length || (length == 0 && r.kind is HttpServer) {
                    None
                } else {
                    Some((s.skip(e as int), Reader { first: false, ..r }))
                }
            },
        }
    }
}

proof fn lemma_head_end_prefix(a: Seq<u8>, b: Seq<u8>)
    ensures
        obfs::head_end(a) is Some ==> obfs::head_end(a + b) == obfs::head_end(a),
    decreases a.len(),
{
    if a.len() >= 4 {
        lemma_head_end_prefix(a.drop_first(), b);
        assert((a + b).drop_first() =~= a.drop_first() + b);
    }
}

/// The next piece of a TLS stream does not depend on what follows it.
proof fn lemma_tls_piece_prefix(r: Reader, a: Seq<u8>, b: Seq<u8>)
    requires
        tls_piece(r, a) matches Some((head, body, _)) && head + body <= a.len(),
    ensures
        tls_piece(r, a + b) == tls_piece(r, a),
{
    reveal(tls_piece);
}

/// The reader behind a stream is of the same kind.
proof fn lemma_decode_kind(r: Reader, s: Seq<u8>)
    requires
        decode(r, s) is Some,
    ensures
        decode(r, s).unwrap().1.kind == r.kind,
    decreases s.len(), r.pending.len(),
{
    if r.pending.len() > 0 {
        lemma_decode_kind(Reader { pending: seq![], ..r }, s);
    } else if !is_raw(r) && s.len() > 0 && (r.kind is TlsServer || r.kind is TlsClient) {
        let (head, body, next) = tls_piece(r, s).unwrap();
        assert(next.kind == r.kind) by {
            reveal(tls_piece);
        }
        lemma_decode_kind(next, s.skip((head + body) as int));
    }
}

/// Two streams in a row carry what the first carries and then what the second carries.
pub proof fn lemma_decode_concat(r: Reader, a: Seq<u8>, b: Seq<u8>, x: Seq<u8>, mid: Reader, y: Seq<u8>, end: Reader)
    requires
        decode(r, a) == Some((x, mid)),
        decode(mid, b) == Some((y, end)),
    ensures
        decode(r, a + b) == Some((x + y, end)),
    decreases a.len(), r.pending.len(),
{
    if r.pending.len() > 0 {
        let bare = Reader { pending: seq![], ..r };
        let inner = decode(bare, a).unwrap().0;
        lemma_decode_concat(bare, a, b, inner, mid, y, end);
        assert(r.pending + (inner + y) =~= x + y);
    } else if is_raw(r) {
    } else if a.len() == 0 {
        assert(a + b =~= b);
        assert(x + y =~= y);
    } else if r.kind is TlsServer || r.kind is TlsClient {
        lemma_tls_piece_prefix(r, a, b);
        let (head, body, next) = tls_piece(r, a).unwrap();
        let k = (head + body) as int;
        let inner = decode(next, a.skip(k)).unwrap().0;
        lemma_decode_concat(next, a.skip(k), b, inner, mid, y, end);
        assert((a + b).skip(k) =~= a.skip(k) + b);
        assert((a + b).subrange(head as int, k) =~= a.subrange(head as int, k));
        assert(a.subrange(head as int, k) + (inner + y) =~= x + y);
    } else {
        lemma_http_concat(r, a, b);
    }
}

proof fn lemma_http_concat(r: Reader, a: Seq<u8>, b: Seq<u8>)
    requires
        r.pending.len() == 0,
        r.kind is HttpServer || r.kind is HttpClient,
        r.first,
        a.len() > 0,
        decode(r, a) is Some,
    ensures
        decode(r, a + b) == Some((decode(r, a).unwrap().0 + b, Reader { first: false, ..r })),
        decode(r, a).unwrap().1 == (Reader { first: false, ..r }),
{
    lemma_head_end_prefix(a, b);
    obfs::lemma_head_end_bounds(a);
    let e = obfs::head_end(a).unwrap() as int;
    assert((a + b).take(e) =~= a.take(e));
    assert((a + b).skip(e) =~= a.skip(e) + b);
}

// ---- Reading ----

/// What a read of a stream leaves: `out` comes first of the payload, and the rest is still to come.
pub open spec fn read_fits(r: Reader, s: Seq<u8>, payload: Seq<u8>, end: Reader, outcome: Outcome) -> bool {
    outcome matches Outcome::Data { consumed, out, next } ==> {
        &&& out.len() <= payload.len()
        &&& out == payload.take(out.len() as int)
        &&& decode(next, s.skip(consumed as int)) == Some((payload.skip(out.len() as int), end))
    }
}

/// Whether a read hands out some payload.
pub open spec fn hands_out(outcome: Outcome) -> bool {
    outcome matches Outcome::Data { out, .. } && out.len() > 0
}

/// What a read of what has arrived leaves, where `more` is still to arrive: `out` comes first of the
/// payload and is not empty, and the rest is still to come.
pub open spec fn part_fits(s: Seq<u8>, more: Seq<u8>, payload: Seq<u8>, end: Reader, outcome: Outcome) -> bool {
    outcome matches Outcome::Data { consumed, out, next } ==> {
        &&& consumed <= s.len()
        &&& 0 < out.len() <= payload.len()
        &&& out == payload.take(out.len() as int)
        &&& decode(next, s.skip(consumed as int) + more) == Some((payload.skip(out.len() as int), end))
    }
}

/// A read of a TLS payload behind a head.
proof fn lemma_tls_read_step(next: Reader, s: Seq<u8>, eof: bool, head: nat, cap: nat, rest: Seq<u8>, end: Reader)
    requires
        next.kind is TlsServer || next.kind is TlsClient,
        next.pending.len() == 0,
        next.remain == 0,
        head >= 2,
        s.len() >= head,
        tls::from_be16(s[head - 2], s[head - 1]) > 0,
        s.len() >= head + tls::from_be16(s[head - 2], s[head - 1]),
        decode(next, s.skip((head + tls::from_be16(s[head - 2], s[head - 1])) as int)) == Some((rest, end)),
    ensures
        cap > 0 ==> hands_out(obfs::tls_read(next, s, eof, head, cap)),
        read_fits(
            next,
            s,
            s.subrange(head as int, (head + tls::from_be16(s[head - 2], s[head - 1])) as int) + rest,
            end,
            obfs::tls_read(next, s, eof, head, cap),
        ),
{
    let length = tls::from_be16(s[head - 2], s[head - 1]);
    let payload = s.subrange(head as int, (head + length) as int) + rest;
    if length <= cap {
        let out = s.subrange(head as int, (head + length) as int);
        assert(payload.take(length as int) =~= out);
        assert(payload.skip(length as int) =~= rest);
    } else {
        let out = s.subrange(head as int, (head + cap) as int);
        let partly = Reader { remain: (length - cap) as nat, ..next };
        let left = s.skip((head + cap) as int);
        assert(payload.take(cap as int) =~= out);
        assert(left.skip(length - cap) =~= s.skip((head + length) as int));
        lemma_decode_rest(partly, left, rest, end, next);
        assert(left.take(length - cap) + rest =~= payload.skip(cap as int));
    }
}

/// A reader inside a record.
proof fn lemma_decode_rest(r: Reader, s: Seq<u8>, rest: Seq<u8>, end: Reader, next: Reader)
    requires
        r.kind is TlsServer || r.kind is TlsClient,
        r.pending.len() == 0,
        r.remain > 0,
        next == (Reader { remain: 0, ..r }),
        s.len() >= r.remain,
        decode(next, s.skip(r.remain as int)) == Some((rest, end)),
    ensures
        decode(r, s) == Some((s.take(r.remain as int) + rest, end)),
{
    reveal(tls_piece);
    assert(s.subrange(0, r.remain as int) =~= s.take(r.remain as int));
}

proof fn lemma_read_step_pending(r: Reader, s: Seq<u8>, eof: bool, cap: nat, payload: Seq<u8>, end: Reader)
    requires
        r.pending.len() > 0,
        decode(r, s) == Some((payload, end)),
    ensures
        read_fits(r, s, payload, end, obfs::obfs_read(r, s, eof, cap)),
        cap > 0 ==> hands_out(obfs::obfs_read(r, s, eof, cap)),
{
    reveal(obfs::obfs_read);
    let n = obfs::least(cap, r.pending.len());
    let next = Reader { pending: r.pending.skip(n as int), ..r };
    let bare = Reader { pending: seq![], ..r };
    let inner = decode(bare, s).unwrap().0;
    assert(s.skip(0) =~= s);
    assert(payload =~= r.pending + inner);
    assert(payload.take(n as int) =~= r.pending.take(n as int));
    assert(payload.skip(n as int) =~= next.pending + inner);
    if next.pending.len() == 0 {
        assert(next =~= bare);
        assert(next.pending + inner =~= inner);
    } else {
        assert(Reader { pending: seq![], ..next } =~= bare);
    }
}

proof fn lemma_read_step_http(r: Reader, s: Seq<u8>, eof: bool, cap: nat, payload: Seq<u8>, end: Reader)
    requires
        r.pending.len() == 0,
        r.kind is HttpServer || r.kind is HttpClient,
        r.first,
        decode(r, s) == Some((payload, end)),
    ensures
        read_fits(r, s, payload, end, obfs::obfs_read(r, s, eof, cap)),
        payload.len() > 0 && cap > 0 ==> hands_out(obfs::obfs_read(r, s, eof, cap)),
        cap > 0 && !eof && obfs::obfs_read(r, s, eof, cap) is Data ==> hands_out(obfs::obfs_read(r, s, eof, cap)),
{
    reveal(obfs::obfs_read);
    obfs::lemma_head_end_bounds(s);
    if s.len() > 0 {
        let e = obfs::head_end(s).unwrap();
        let length = obfs::body_length(s.take(e as int));
        let next = Reader { first: false, ..r };
        if length > 0 {
            let n = obfs::least(cap, length);
            let out = s.subrange(e as int, (e + n) as int);
            let pending = s.subrange((e + n) as int, (e + length) as int);
            let after = Reader { pending, ..next };
            assert(payload.take(n as int) =~= out);
            let rest = s.skip((e + length) as int);
            assert(Reader { pending: seq![], ..after } =~= next);
            assert(payload.skip(n as int) =~= pending + rest);
            assert(decode(next, rest) == Some((rest, next)));
            if pending.len() == 0 {
                assert(after =~= next);
                assert(pending + rest =~= rest);
            }
            assert(decode(after, rest) == Some((payload.skip(n as int), end)));
        } else {
            let n = obfs::least(cap, (s.len() - e) as nat);
            assert(s.subrange(e as int, (e + n) as int) =~= payload.take(n as int));
            assert(s.skip((e + n) as int) =~= payload.skip(n as int));
        }
    }
}

/// A read of a stream of whole pieces hands out the payload that comes next and leaves the rest of
/// it to be read; it hands out something where payload is left and some is asked for, and nothing
/// only where the stream ends.
pub proof fn lemma_read_step(r: Reader, s: Seq<u8>, eof: bool, cap: nat, payload: Seq<u8>, end: Reader)
    requires
        decode(r, s) == Some((payload, end)),
    ensures
        read_fits(r, s, payload, end, obfs::obfs_read(r, s, eof, cap)),
        payload.len() > 0 && cap > 0 ==> hands_out(obfs::obfs_read(r, s, eof, cap)),
        cap > 0 && !eof && obfs::obfs_read(r, s, eof, cap) is Data ==> hands_out(obfs::obfs_read(r, s, eof, cap)),
{
    reveal(obfs::obfs_read);
    if r.pending.len() > 0 {
        lemma_read_step_pending(r, s, eof, cap, payload, end);
    } else if is_raw(r) {
        let n = obfs::least(cap, s.len());
        assert(s.skip(0) =~= s);
        assert(s.subrange(0, n as int) =~= s.take(n as int));
    } else if r.kind is HttpServer || r.kind is HttpClient {
        lemma_read_step_http(r, s, eof, cap, payload, end);
    } else {
        lemma_read_step_tls(r, s, eof, cap, payload, end);
    }
}

proof fn lemma_read_step_tls(r: Reader, s: Seq<u8>, eof: bool, cap: nat, payload: Seq<u8>, end: Reader)
    requires
        r.kind is TlsServer || r.kind is TlsClient,
        r.pending.len() == 0,
        decode(r, s) == Some((payload, end)),
    ensures
        read_fits(r, s, payload, end, obfs::obfs_read(r, s, eof, cap)),
        payload.len() > 0 && cap > 0 ==> hands_out(obfs::obfs_read(r, s, eof, cap)),
        cap > 0 && !eof && obfs::obfs_read(r, s, eof, cap) is Data ==> hands_out(obfs::obfs_read(r, s, eof, cap)),
{
    reveal(obfs::obfs_read);
    if s.len() == 0 {
        assert(!(obfs::obfs_read(r, s, eof, cap) is Data));
    } else if r.remain > 0 {
        lemma_read_step_inside(r, s, eof, cap, payload, end);
    } else if r.kind is TlsServer && !r.first && !r.ticket_done {
        lemma_read_step_ticket(r, s, eof, cap, payload, end);
    } else {
        reveal(tls_piece);
        let (head, length, next) = tls_piece(r, s).unwrap();
        let rest = decode(next, s.skip((head + length) as int)).unwrap().0;
        lemma_tls_read_step(next, s, eof, head, cap, rest, end);
    }
}

proof fn lemma_read_step_inside(r: Reader, s: Seq<u8>, eof: bool, cap: nat, payload: Seq<u8>, end: Reader)
    requires
        r.kind is TlsServer || r.kind is TlsClient,
        r.pending.len() == 0,
        r.remain > 0,
        s.len() > 0,
        decode(r, s) == Some((payload, end)),
    ensures
        read_fits(r, s, payload, end, obfs::obfs_read(r, s, eof, cap)),
        cap > 0 ==> hands_out(obfs::obfs_read(r, s, eof, cap)),
{
    reveal(obfs::obfs_read);
    reveal(tls_piece);
    let n = obfs::least(cap, r.remain);
    let next = Reader { remain: (r.remain - n) as nat, ..r };
    let whole = Reader { remain: 0, ..r };
    let rest = decode(whole, s.skip(r.remain as int)).unwrap().0;
    assert(payload =~= s.take(r.remain as int) + rest);
    assert(payload.take(n as int) =~= s.take(n as int));
    if n == r.remain {
        assert(next == whole);
        assert(payload.skip(n as int) =~= rest);
    } else {
        let left = s.skip(n as int);
        assert(left.skip(r.remain - n) =~= s.skip(r.remain as int));
        lemma_decode_rest(next, left, rest, end, whole);
        assert(left.take(r.remain - n) + rest =~= payload.skip(n as int));
    }
}

proof fn lemma_read_step_ticket(r: Reader, s: Seq<u8>, eof: bool, cap: nat, payload: Seq<u8>, end: Reader)
    requires
        r.kind is TlsServer,
        r.pending.len() == 0,
        r.remain == 0,
        !r.first,
        !r.ticket_done,
        s.len() > 0,
        decode(r, s) == Some((payload, end)),
    ensures
        read_fits(r, s, payload, end, obfs::obfs_read(r, s, eof, cap)),
        payload.len() > 0 && cap > 0 ==> hands_out(obfs::obfs_read(r, s, eof, cap)),
        cap > 0 && !eof && obfs::obfs_read(r, s, eof, cap) is Data ==> hands_out(obfs::obfs_read(r, s, eof, cap)),
{
    reveal(obfs::obfs_read);
    reveal(tls_piece);
    let name_len = tls::from_be16(s[tls::SNI_HEAD as int], s[tls::SNI_HEAD + 1]);
    let tail = obfs::hello_tail_len(name_len);
    let after = Reader { ticket_done: true, ..r };
    let left = s.skip(tail as int);
    let head = obfs::record_head_len();
    assert(decode(after, left) is Some);
    assert(payload =~= decode(after, left).unwrap().0);
    if left.len() > 0 {
        let (h, length, next) = tls_piece(after, left).unwrap();
        assert(h == head && next == after);
        assert(left[head - 2] == s[tail + head - 2]);
        assert(left[head - 1] == s[tail + head - 1]);
        let rest = decode(after, left.skip((head + length) as int)).unwrap().0;
        assert(left.skip((head + length) as int) =~= s.skip((tail + head + length) as int));
        lemma_tls_read_step(after, s, eof, tail + head, cap, rest, end);
        assert(left.subrange(head as int, (head + length) as int) =~= s.subrange(
            (tail + head) as int,
            (tail + head + length) as int,
        ));
    }
}

// ---- The end of a stream ----

/// The reader behind the end of a stream: a hello is taken as read, and so is the rest of a client
/// hello.
pub open spec fn ended(r: Reader) -> Reader {
    if is_raw(r) || r.remain > 0 {
        r
    } else {
        Reader { first: false, ticket_done: r.ticket_done || (r.kind is TlsServer && !r.first), ..r }
    }
}

/// What a read comes to where no payload is left: it waits for more, or meets the end of the stream.
pub open spec fn at_end(s: Seq<u8>, end: Reader, eof: bool, outcome: Outcome) -> bool {
    match outcome {
        Outcome::Starved => !eof,
        Outcome::Cut { next } => eof && !is_raw(end) && next == ended(end),
        Outcome::Data { consumed, out, next } => eof && is_raw(end) && out.len() == 0 && next == end && consumed == s.len(),
    }
}

/// A read of a stream of whole pieces whose payload is all handed out.
pub proof fn lemma_read_end(r: Reader, s: Seq<u8>, eof: bool, cap: nat, payload: Seq<u8>, end: Reader)
    requires
        decode(r, s) == Some((payload, end)),
        payload.len() == 0,
        cap > 0,
    ensures
        at_end(s, end, eof, obfs::obfs_read(r, s, eof, cap)),
{
    reveal(obfs::obfs_read);
    if is_raw(r) {
    } else if r.kind is HttpServer || r.kind is HttpClient {
        obfs::lemma_head_end_bounds(s);
    } else if s.len() > 0 {
        reveal(tls_piece);
        let (head, length, next) = tls_piece(r, s).unwrap();
        let y = s.skip((head + length) as int);
        let inner = decode(next, y).unwrap().0;
        assert(payload =~= s.subrange(head as int, (head + length) as int) + inner);
        assert(length == 0 && inner.len() == 0);
        if y.len() > 0 {
            let (h, n, behind) = tls_piece(next, y).unwrap();
            let rest = decode(behind, y.skip((h + n) as int)).unwrap().0;
            assert(inner =~= y.subrange(h as int, (h + n) as int) + rest);
        }
    }
}

// ---- Reading a part of a stream ----

/// A read of a TLS payload behind a head, of which a part has arrived.
proof fn lemma_tls_read_part(next: Reader, a: Seq<u8>, b: Seq<u8>, head: nat, cap: nat, rest: Seq<u8>, end: Reader)
    requires
        next.kind is TlsServer || next.kind is TlsClient,
        next.pending.len() == 0,
        next.remain == 0,
        head >= 2,
        a.len() >= head,
        cap > 0,
        tls::from_be16(a[head - 2], a[head - 1]) > 0,
        a.len() + b.len() >= head + tls::from_be16(a[head - 2], a[head - 1]),
        decode(next, (a + b).skip((head + tls::from_be16(a[head - 2], a[head - 1])) as int)) == Some((rest, end)),
    ensures
        part_fits(
            a,
            b,
            (a + b).subrange(head as int, (head + tls::from_be16(a[head - 2], a[head - 1])) as int) + rest,
            end,
            obfs::tls_read(next, a, false, head, cap),
        ),
{
    let length = tls::from_be16(a[head - 2], a[head - 1]);
    let s = a + b;
    let body = s.subrange(head as int, (head + length) as int);
    let payload = body + rest;
    if length <= cap {
        if a.len() >= head + length {
            assert(payload.take(length as int) =~= a.subrange(head as int, (head + length) as int));
            assert(payload.skip(length as int) =~= rest);
            assert(s.skip((head + length) as int) =~= a.skip((head + length) as int) + b);
        }
    } else if a.len() > head {
        let n = obfs::least(cap, (a.len() - head) as nat);
        let out = a.subrange(head as int, (head + n) as int);
        let partly = Reader { remain: (length - n) as nat, ..next };
        let left = a.skip((head + n) as int) + b;
        assert(payload.take(n as int) =~= out);
        assert(left =~= s.skip((head + n) as int));
        assert(left.skip(length - n) =~= s.skip((head + length) as int));
        lemma_decode_rest(partly, left, rest, end, next);
        assert(left.take(length - n) + rest =~= payload.skip(n as int));
    }
}

proof fn lemma_read_part_pending(r: Reader, a: Seq<u8>, b: Seq<u8>, cap: nat, payload: Seq<u8>, end: Reader)
    requires
        r.pending.len() > 0,
        cap > 0,
        decode(r, a + b) == Some((payload, end)),
    ensures
        part_fits(a, b, payload, end, obfs::obfs_read(r, a, false, cap)),
{
    reveal(obfs::obfs_read);
    let n = obfs::least(cap, r.pending.len());
    let next = Reader { pending: r.pending.skip(n as int), ..r };
    let bare = Reader { pending: seq![], ..r };
    let inner = decode(bare, a + b).unwrap().0;
    assert(a.skip(0) =~= a);
    assert(payload =~= r.pending + inner);
    assert(payload.take(n as int) =~= r.pending.take(n as int));
    assert(payload.skip(n as int) =~= next.pending + inner);
    if next.pending.len() == 0 {
        assert(next =~= bare);
        assert(next.pending + inner =~= inner);
    } else {
        assert(Reader { pending: seq![], ..next } =~= bare);
    }
}

/// What a reader takes out of an HTTP stream of which the header block has arrived.
proof fn lemma_behind_block(r: Reader, a: Seq<u8>, b: Seq<u8>, payload: Seq<u8>, end: Reader)
    requires
        r.pending.len() == 0,
        r.kind is HttpServer || r.kind is HttpClient,
        r.first,
        obfs::head_end(a) is Some,
        decode(r, a + b) == Some((payload, end)),
    ensures
        ({
            let e = obfs::head_end(a).unwrap();
            let length = obfs::body_length(a.take(e as int));
            &&& e <= a.len()
            &&& payload == a.skip(e as int) + b
            &&& end == (Reader { first: false, ..r })
            &&& e + length <= a.len() + b.len()
            &&& length > 0 || r.kind is HttpClient
        }),
{
    obfs::lemma_head_end_bounds(a);
    lemma_head_end_prefix(a, b);
    let e = obfs::head_end(a).unwrap() as int;
    assert((a + b).take(e) =~= a.take(e));
    assert((a + b).skip(e) =~= a.skip(e) + b);
}

/// What is handed out of the body behind a header block, and what stays to be handed out.
proof fn lemma_body_part(next: Reader, a: Seq<u8>, b: Seq<u8>, e: nat, length: nat, cap: nat)
    requires
        next.pending.len() == 0,
        is_raw(next),
        e + length <= a.len(),
        0 < cap,
        0 < length,
    ensures
        ({
            let n = obfs::least(cap, length);
            let payload = a.skip(e as int) + b;
            let after = Reader { pending: a.subrange((e + n) as int, (e + length) as int), ..next };
            &&& a.subrange(e as int, (e + n) as int) == payload.take(n as int)
            &&& decode(after, a.skip((e + length) as int) + b) == Some((payload.skip(n as int), next))
        }),
{
    let n = obfs::least(cap, length);
    let payload = a.skip(e as int) + b;
    let pending = a.subrange((e + n) as int, (e + length) as int);
    let after = Reader { pending, ..next };
    let rest = a.skip((e + length) as int) + b;
    assert(a.subrange(e as int, (e + n) as int) =~= payload.take(n as int));
    assert(payload.skip(n as int) =~= pending + rest);
    assert(Reader { pending: seq![], ..after } =~= next);
    assert(decode(next, rest) == Some((rest, next)));
    if pending.len() == 0 {
        assert(after =~= next);
        assert(pending + rest =~= rest);
    }
}

proof fn lemma_read_part_http(r: Reader, a: Seq<u8>, b: Seq<u8>, cap: nat, payload: Seq<u8>, end: Reader)
    requires
        r.pending.len() == 0,
        r.kind is HttpServer || r.kind is HttpClient,
        r.first,
        cap > 0,
        decode(r, a + b) == Some((payload, end)),
    ensures
        part_fits(a, b, payload, end, obfs::obfs_read(r, a, false, cap)),
{
    assert(obfs::obfs_read(r, a, false, cap) == obfs::http_read(r, a, false, cap)) by {
        reveal(obfs::obfs_read);
    }
    if obfs::head_end(a) is Some {
        lemma_behind_block(r, a, b, payload, end);
        let e = obfs::head_end(a).unwrap();
        let length = obfs::body_length(a.take(e as int));
        let next = Reader { first: false, ..r };
        if length > 0 {
            if a.len() >= e + length {
                lemma_body_part(next, a, b, e, length, cap);
            }
        } else if a.len() > e {
            let n = obfs::least(cap, (a.len() - e) as nat);
            assert(a.subrange(e as int, (e + n) as int) =~= payload.take(n as int));
            assert(a.skip((e + n) as int) + b =~= payload.skip(n as int));
        }
    }
}

/// What a reader inside a record takes out of a stream: the rest of the record, and what follows.
proof fn lemma_inside(r: Reader, s: Seq<u8>, payload: Seq<u8>, end: Reader) -> (rest: Seq<u8>)
    requires
        r.kind is TlsServer || r.kind is TlsClient,
        r.pending.len() == 0,
        r.remain > 0,
        decode(r, s) == Some((payload, end)),
    ensures
        s.len() >= r.remain,
        decode(Reader { remain: 0, ..r }, s.skip(r.remain as int)) == Some((rest, end)),
        payload == s.take(r.remain as int) + rest,
{
    reveal(tls_piece);
    assert(s.subrange(0, r.remain as int) =~= s.take(r.remain as int));
    decode(Reader { remain: 0, ..r }, s.skip(r.remain as int)).unwrap().0
}

proof fn lemma_read_part_inside(r: Reader, a: Seq<u8>, b: Seq<u8>, cap: nat, payload: Seq<u8>, end: Reader)
    requires
        r.kind is TlsServer || r.kind is TlsClient,
        r.pending.len() == 0,
        r.remain > 0,
        cap > 0,
        decode(r, a + b) == Some((payload, end)),
    ensures
        part_fits(a, b, payload, end, obfs::obfs_read(r, a, false, cap)),
{
    let n = obfs::least(cap, r.remain);
    let s = a + b;
    let rest = lemma_inside(r, s, payload, end);
    let next = Reader { remain: (r.remain - n) as nat, ..r };
    assert(obfs::obfs_read(r, a, false, cap) == (if a.len() < n {
        Outcome::Starved
    } else {
        Outcome::Data { consumed: n, out: a.take(n as int), next }
    })) by {
        reveal(obfs::obfs_read);
    }
    if a.len() >= n {
        let whole = Reader { remain: 0, ..r };
        let left = a.skip(n as int) + b;
        assert(payload.take(n as int) =~= a.take(n as int));
        assert(left =~= s.skip(n as int));
        if n == r.remain {
            assert(next == whole);
            assert(payload.skip(n as int) =~= rest);
        } else {
            assert(left.skip(r.remain - n) =~= s.skip(r.remain as int));
            lemma_decode_rest(next, left, rest, end, whole);
            assert(left.take(r.remain - n) + rest =~= payload.skip(n as int));
        }
    }
}

proof fn lemma_read_part_ticket(r: Reader, a: Seq<u8>, b: Seq<u8>, cap: nat, payload: Seq<u8>, end: Reader)
    requires
        r.kind is TlsServer,
        r.pending.len() == 0,
        r.remain == 0,
        !r.first,
        !r.ticket_done,
        cap > 0,
        decode(r, a + b) == Some((payload, end)),
    ensures
        part_fits(a, b, payload, end, obfs::obfs_read(r, a, false, cap)),
{
    reveal(obfs::obfs_read);
    reveal(tls_piece);
    if a.len() >= tls::SNI_HEAD + 2 {
        let s = a + b;
        let name_len = tls::from_be16(a[tls::SNI_HEAD as int], a[tls::SNI_HEAD + 1]);
        let tail = obfs::hello_tail_len(name_len);
        let after = Reader { ticket_done: true, ..r };
        let left = s.skip(tail as int);
        let head = obfs::record_head_len();
        assert(decode(after, left) is Some);
        assert(payload =~= decode(after, left).unwrap().0);
        if a.len() >= tail + head {
            let (h, length, next) = tls_piece(after, left).unwrap();
            assert(h == head && next == after);
            assert(left[head - 2] == a[tail + head - 2]);
            assert(left[head - 1] == a[tail + head - 1]);
            let rest = decode(after, left.skip((head + length) as int)).unwrap().0;
            assert(left.skip((head + length) as int) =~= s.skip((tail + head + length) as int));
            lemma_tls_read_part(after, a, b, tail + head, cap, rest, end);
            assert(left.subrange(head as int, (head + length) as int) =~= s.subrange(
                (tail + head) as int,
                (tail + head + length) as int,
            ));
        }
    }
}

/// A read of the front of a stream of whole pieces either waits for more, or hands out some of the
/// payload that comes next and leaves the rest of it to be read, whatever part of the stream has
/// arrived.
pub proof fn lemma_read_part(r: Reader, a: Seq<u8>, b: Seq<u8>, cap: nat, payload: Seq<u8>, end: Reader)
    requires
        cap > 0,
        decode(r, a + b) == Some((payload, end)),
    ensures
        part_fits(a, b, payload, end, obfs::obfs_read(r, a, false, cap)),
{
    if r.pending.len() > 0 {
        lemma_read_part_pending(r, a, b, cap, payload, end);
    } else if is_raw(r) {
        reveal(obfs::obfs_read);
        let n = obfs::least(cap, a.len());
        assert(a.skip(0) =~= a);
        assert(a.subrange(0, n as int) =~= payload.take(n as int));
        assert(a.skip(n as int) + b =~= payload.skip(n as int));
    } else if r.kind is HttpServer || r.kind is HttpClient {
        lemma_read_part_http(r, a, b, cap, payload, end);
    } else if r.remain > 0 {
        lemma_read_part_inside(r, a, b, cap, payload, end);
    } else if r.kind is TlsServer && !r.first && !r.ticket_done {
        lemma_read_part_ticket(r, a, b, cap, payload, end);
    } else {
        reveal(obfs::obfs_read);
        reveal(tls_piece);
        let s = a + b;
        if s.len() > 0 {
            let (head, length, next) = tls_piece(r, s).unwrap();
            if a.len() >= head {
                let rest = decode(next, s.skip((head + length) as int)).unwrap().0;
                lemma_tls_read_part(next, a, b, head, cap, rest, end);
            }
        }
    }
}

// ---- Reading a stream that ends inside a piece ----

/// Whether a reader takes nothing of `tail`, however much of it has arrived, until more than that
/// arrives: it is the front of a piece that a read of up to `cap` bytes takes as a whole.
pub open spec fn inert(r: Reader, tail: Seq<u8>, cap: nat) -> bool {
    forall|k: int, eof: bool|
        0 <= k <= tail.len() ==> #[trigger] obfs::obfs_read(r, tail.take(k), eof, cap) == obfs::lacks(ended(r), eof)
}

/// A part of what a reader takes nothing of is such too.
pub proof fn lemma_inert_part(r: Reader, tail: Seq<u8>, cap: nat, n: int)
    requires
        inert(r, tail, cap),
        0 <= n <= tail.len(),
    ensures
        inert(r, tail.take(n), cap),
{
    let part = tail.take(n);
    assert forall|k: int, eof: bool| 0 <= k <= part.len() implies #[trigger] obfs::obfs_read(r, part.take(k), eof, cap)
        == obfs::lacks(ended(r), eof) by {
        assert(part.take(k) =~= tail.take(k));
        assert(obfs::obfs_read(r, tail.take(k), eof, cap) == obfs::lacks(ended(r), eof));
    }
}

/// A reader takes nothing of a part of a TLS piece whose payload a read takes as a whole.
pub proof fn lemma_short_piece_is_inert(r: Reader, piece: Seq<u8>, n: int, cap: nat)
    requires
        r.kind is TlsServer || r.kind is TlsClient,
        r.pending.len() == 0,
        tls_piece(r, piece) matches Some((head, body, _)) && head + body == piece.len() && body <= cap,
        0 <= n < piece.len(),
    ensures
        inert(r, piece.take(n), cap),
{
    let tail = piece.take(n);
    assert forall|k: int, eof: bool| 0 <= k <= tail.len() implies #[trigger] obfs::obfs_read(r, tail.take(k), eof, cap)
        == obfs::lacks(ended(r), eof) by {
        reveal(obfs::obfs_read);
        reveal(tls_piece);
        let part = tail.take(k);
        assert(part =~= piece.take(k));
        let cut = ended(r);
        if r.remain == 0 && r.first {
            assert(cut == (Reader { first: false, ..r }));
        } else if r.remain == 0 && r.kind is TlsServer && !r.ticket_done {
            assert(cut == (Reader { ticket_done: true, ..r }));
        } else {
            assert(cut == r);
        }
    }
}

/// A reader takes nothing of a part of an HTTP header block and the body that it announces.
pub proof fn lemma_part_of_block_is_inert(r: Reader, tail: Seq<u8>, cap: nat)
    requires
        r.kind is HttpServer || r.kind is HttpClient,
        r.pending.len() == 0,
        r.remain == 0,
        r.first,
        obfs::head_end(tail) matches Some(e) ==> 0 < obfs::body_length(tail.take(e as int)) && tail.len() < e
            + obfs::body_length(tail.take(e as int)),
    ensures
        inert(r, tail, cap),
{
    assert forall|k: int, eof: bool| 0 <= k <= tail.len() implies #[trigger] obfs::obfs_read(r, tail.take(k), eof, cap)
        == obfs::lacks(ended(r), eof) by {
        reveal(obfs::obfs_read);
        let part = tail.take(k);
        lemma_head_end_prefix(part, tail.skip(k));
        assert(part + tail.skip(k) =~= tail);
        if obfs::head_end(part) is Some {
            obfs::lemma_head_end_bounds(part);
            let e = obfs::head_end(part).unwrap() as int;
            assert(part.take(e) =~= tail.take(e));
        }
    }
}

/// What stands behind a TLS payload that is there as a whole does not change how it is read.
proof fn lemma_tls_read_more(next: Reader, x: Seq<u8>, t: Seq<u8>, eof: bool, head: nat, cap: nat)
    requires
        head >= 2,
        x.len() >= head,
        x.len() >= head + tls::from_be16(x[head - 2], x[head - 1]),
    ensures
        obfs::tls_read(next, x + t, eof, head, cap) == obfs::tls_read(next, x, eof, head, cap),
{
    let length = tls::from_be16(x[head - 2], x[head - 1]);
    assert((x + t)[head - 2] == x[head - 2]);
    assert((x + t)[head - 1] == x[head - 1]);
    if length <= cap {
        assert((x + t).subrange(head as int, (head + length) as int) =~= x.subrange(head as int, (head + length) as int));
    } else {
        assert((x + t).subrange(head as int, (head + cap) as int) =~= x.subrange(head as int, (head + cap) as int));
    }
}

/// Bytes that are dropped ahead of a payload do not change whether a read of it waits.
proof fn lemma_tls_read_shifted(next: Reader, x: Seq<u8>, t: Seq<u8>, eof: bool, head: nat, cap: nat)
    requires
        head >= 2,
        !(obfs::tls_read(next, t, eof, head, cap) is Data),
    ensures
        obfs::tls_read(next, x + t, eof, x.len() + head, cap) == obfs::lacks(next, eof),
{
    let s = x + t;
    let from = x.len() + head;
    if s.len() >= from {
        assert(s[from - 2] == t[head - 2]);
        assert(s[from - 1] == t[head - 1]);
        assert(s.skip(from as int) =~= t.skip(head as int));
    }
}

/// Whether a read of whole pieces and what stands behind them takes of the pieces alone: some of
/// the payload that comes next, or nothing where there is none.
pub open spec fn pieces_alone(x: Seq<u8>, payload: Seq<u8>, end: Reader, eof: bool, outcome: Outcome) -> bool {
    match outcome {
        Outcome::Starved => payload.len() == 0 && !eof,
        Outcome::Cut { next } => payload.len() == 0 && eof && !is_raw(end) && next == ended(end),
        Outcome::Data { consumed, out, next } => {
            &&& consumed <= x.len()
            &&& 0 < out.len() <= payload.len()
            &&& out == payload.take(out.len() as int)
            &&& decode(next, x.skip(consumed as int)) == Some((payload.skip(out.len() as int), end))
        },
    }
}

/// A read of whole pieces, and then of the front of a piece of which it takes nothing, goes by the
/// whole pieces alone.
pub proof fn lemma_read_cut(r: Reader, x: Seq<u8>, t: Seq<u8>, eof: bool, cap: nat, payload: Seq<u8>, end: Reader)
    requires
        decode(r, x) == Some((payload, end)),
        inert(end, t, cap),
        cap > 0,
    ensures
        pieces_alone(x, payload, end, eof, obfs::obfs_read(r, x + t, eof, cap)),
{
    let none: Seq<u8> = seq![];
    assert(t.take(t.len() as int) =~= t);
    assert(t.take(0) =~= none);
    assert(obfs::obfs_read(end, t.take(t.len() as int), eof, cap) == obfs::lacks(ended(end), eof));
    assert(obfs::obfs_read(end, t.take(0), true, cap) is Cut);
    lemma_read_step(r, x, eof, cap, payload, end);
    obfs::lemma_read_bounds(r, x, eof, cap);
    if r.pending.len() > 0 {
        assert(obfs::obfs_read(r, x + t, eof, cap) == obfs::obfs_read(r, x, eof, cap)) by {
            reveal(obfs::obfs_read);
        }
    } else if is_raw(r) || ((r.kind is HttpServer || r.kind is HttpClient) && x.len() > 0) {
        assert(false) by {
            assert(is_raw(end) && end.pending.len() == 0);
            reveal(obfs::obfs_read);
        }
    } else if x.len() == 0 {
        assert(x + t =~= t);
    } else {
        lemma_read_cut_tls(r, x, t, eof, cap, payload, end);
    }
}

proof fn lemma_read_cut_tls(r: Reader, x: Seq<u8>, t: Seq<u8>, eof: bool, cap: nat, payload: Seq<u8>, end: Reader)
    requires
        r.kind is TlsServer || r.kind is TlsClient,
        r.pending.len() == 0,
        x.len() > 0,
        decode(r, x) == Some((payload, end)),
        obfs::obfs_read(end, t, eof, cap) == obfs::lacks(ended(end), eof),
    ensures
        payload.len() > 0 ==> obfs::obfs_read(r, x + t, eof, cap) == obfs::obfs_read(r, x, eof, cap),
        payload.len() == 0 ==> obfs::obfs_read(r, x + t, eof, cap) == obfs::lacks(ended(end), eof),
        !is_raw(end),
{
    lemma_decode_kind(r, x);
    reveal(obfs::obfs_read);
    if r.remain > 0 {
        let rest = lemma_inside(r, x, payload, end);
        let n = obfs::least(cap, r.remain);
        assert((x + t).take(n as int) =~= x.take(n as int));
    } else {
        reveal(tls_piece);
        let (head, length, next) = tls_piece(r, x).unwrap();
        if r.kind is TlsServer && !r.first && !r.ticket_done {
            let y = x.skip(head as int);
            let more = obfs::record_head_len();
            if y.len() == 0 {
                assert(x.subrange(head as int, head as int) + Seq::<u8>::empty() =~= payload);
                assert(next == end);
                lemma_tls_read_shifted(next, x, t, eof, more, cap);
            } else {
                assert(decode(next, y) is Some);
                let (h, n, behind) = tls_piece(next, y).unwrap();
                assert(y[more - 2] == x[head + more - 2]);
                assert(y[more - 1] == x[head + more - 1]);
                lemma_tls_read_more(next, x, t, eof, head + more, cap);
            }
        } else {
            lemma_tls_read_more(next, x, t, eof, head, cap);
        }
    }
}

// ---- Writing ----

/// The other side of a disguise.
pub open spec fn peer(kind: Kind) -> Kind {
    match kind {
        Kind::Plain => Kind::Plain,
        Kind::TlsServer => Kind::TlsClient,
        Kind::TlsClient => Kind::TlsServer,
        Kind::HttpServer => Kind::HttpClient,
        Kind::HttpClient => Kind::HttpServer,
    }
}

/// The peer's reader that has taken in everything that a writer has written.
pub open spec fn expects(w: Writer) -> Reader {
    Reader {
        kind: peer(w.kind),
        first: w.first,
        ticket_done: w.kind is TlsClient && !w.first,
        remain: 0,
        pending: seq![],
    }
}

/// Whether a write comes through. A hello holds the length of its payload in 16 bits, and that of
/// the server name too; a reader takes a hello without payload for the end of the stream; and a
/// line feed in the host or port would break up an upgrade request.
pub open spec fn comes_through(w: Writer, data: Seq<u8>) -> bool {
    w.first ==> match w.kind {
        Kind::Plain => true,
        Kind::TlsServer => 0 < data.len() < 0x1_0000,
        Kind::TlsClient => 0 < data.len() < 0x1_0000 && vstd::utf8::encode_utf8(w.host).len() < 0x1_0000,
        Kind::HttpServer => true,
        Kind::HttpClient => 0 < data.len() <= usize::MAX && text::one_line(w.host) && text::one_line(w.port),
    }
}

/// A stream that is one TLS piece.
proof fn lemma_one_piece(r: Reader, s: Seq<u8>, head: nat, body: nat, next: Reader)
    requires
        r.kind is TlsServer || r.kind is TlsClient,
        r.pending.len() == 0,
        tls_piece(r, s) == Some((head, body, next)),
        s.len() == head + body,
        s.len() > 0,
        next.kind == r.kind,
        next.pending.len() == 0,
        next.remain == 0,
    ensures
        decode(r, s) == Some((s.skip(head as int), next)),
{
    let none: Seq<u8> = seq![];
    assert(s.skip((head + body) as int) =~= none);
    assert(decode(next, none) == Some((none, next)));
    assert(s.subrange(head as int, (head + body) as int) + none =~= s.skip(head as int));
}

proof fn lemma_record(r: Reader, data: Seq<u8>)
    requires
        r.kind is TlsServer || r.kind is TlsClient,
        r.pending.len() == 0,
        r.remain == 0,
        !r.first,
        r.kind is TlsServer ==> r.ticket_done,
        0 < data.len() <= tls::TLS_CHUNK_SIZE,
    ensures
        decode(r, tls::app_record(data)) == Some((data, r)),
{
    reveal(tls_piece);
    let s = tls::app_record(data);
    let head = obfs::record_head_len();
    tls::lemma_be16_round_trip(data.len() as int);
    assert(s[3] == tls::be16(data.len() as int)[0]);
    assert(s[4] == tls::be16(data.len() as int)[1]);
    assert(tls_piece(r, s) == Some((head, data.len(), r)));
    lemma_one_piece(r, s, head, data.len(), r);
    assert(s.skip(head as int) =~= data);
}

proof fn lemma_app_data(r: Reader, data: Seq<u8>)
    requires
        r.kind is TlsServer || r.kind is TlsClient,
        r.pending.len() == 0,
        r.remain == 0,
        !r.first,
        r.kind is TlsServer ==> r.ticket_done,
    ensures
        decode(r, tls::app_data(data)) == Some((data, r)),
    decreases data.len(),
{
    if data.len() == 0 {
        assert(data =~= seq![]);
    } else if data.len() <= tls::TLS_CHUNK_SIZE {
        lemma_record(r, data);
    } else {
        let chunk = data.take(tls::TLS_CHUNK_SIZE as int);
        let rest = data.skip(tls::TLS_CHUNK_SIZE as int);
        lemma_record(r, chunk);
        lemma_app_data(r, rest);
        lemma_decode_concat(r, tls::app_record(chunk), tls::app_data(rest), chunk, r, rest, r);
        assert(chunk + rest =~= data);
    }
}

proof fn lemma_server_hello(r: Reader, data: Seq<u8>, out: Seq<u8>)
    requires
        r.kind is TlsClient,
        r.pending.len() == 0,
        r.remain == 0,
        r.first,
        0 < data.len() < 0x1_0000,
        tls::is_server_hello(out, data),
    ensures
        decode(r, out) == Some((data, Reader { first: false, ..r })),
{
    reveal(tls_piece);
    let (seconds, random, session_id) = choose|seconds: u32, random: Seq<u8>, session_id: Seq<u8>|
        random.len() == 28 && session_id.len() == 32 && out == #[trigger] tls::server_hello(seconds, random, session_id, data);
    let head = tls::server_hello_head(seconds, random, session_id);
    assert(head.len() == tls::SERVER_HELLO_HEAD);
    tls::lemma_be16_round_trip(data.len() as int);
    assert(out[105] == tls::be16(data.len() as int)[0]);
    assert(out[106] == tls::be16(data.len() as int)[1]);
    let next = Reader { first: false, ..r };
    assert(tls_piece(r, out) == Some((107nat, data.len(), next)));
    lemma_one_piece(r, out, 107, data.len(), next);
    assert(out.skip(107) =~= data);
}

proof fn lemma_client_hello_tail(r: Reader, server: Seq<u8>)
    requires
        r.kind is TlsServer,
        r.pending.len() == 0,
        r.remain == 0,
        !r.first,
        !r.ticket_done,
        server.len() < 0x1_0000,
    ensures
        decode(r, tls::client_hello_tail(server)) == Some((Seq::<u8>::empty(), Reader { ticket_done: true, ..r })),
{
    reveal(tls_piece);
    let s = tls::client_hello_tail(server);
    tls::lemma_be16_round_trip(server.len() as int);
    assert(tls::sni_head(server.len() as int).len() == tls::SNI_HEAD);
    assert(s[7] == tls::be16(server.len() as int)[0]);
    assert(s[8] == tls::be16(server.len() as int)[1]);
    let next = Reader { ticket_done: true, ..r };
    assert(s.len() == obfs::hello_tail_len(server.len()));
    assert(tls_piece(r, s) == Some((s.len(), 0nat, next)));
    lemma_one_piece(r, s, s.len(), 0, next);
    assert(s.skip(s.len() as int) =~= seq![]);
}

proof fn lemma_client_hello_front(r: Reader, head: Seq<u8>, data: Seq<u8>)
    requires
        r.kind is TlsServer,
        r.pending.len() == 0,
        r.remain == 0,
        r.first,
        0 < data.len() < 0x1_0000,
        head.len() == tls::CLIENT_HELLO_HEAD,
    ensures
        decode(r, head + tls::be16(data.len() as int) + data) == Some((data, Reader { first: false, ..r })),
{
    reveal(tls_piece);
    let s = head + tls::be16(data.len() as int) + data;
    let next = Reader { first: false, ..r };
    tls::lemma_be16_round_trip(data.len() as int);
    assert(s[140] == tls::be16(data.len() as int)[0]);
    assert(s[141] == tls::be16(data.len() as int)[1]);
    assert(tls_piece(r, s) == Some((142nat, data.len(), next)));
    lemma_one_piece(r, s, 142, data.len(), next);
    assert(s.skip(142) =~= data);
}

proof fn lemma_client_hello(r: Reader, data: Seq<u8>, server: Seq<u8>, out: Seq<u8>)
    requires
        r.kind is TlsServer,
        r.pending.len() == 0,
        r.remain == 0,
        r.first,
        !r.ticket_done,
        0 < data.len() < 0x1_0000,
        server.len() < 0x1_0000,
        tls::is_client_hello(out, data, server),
    ensures
        decode(r, out) == Some((data, Reader { first: false, ticket_done: true, ..r })),
{
    let (seconds, random, session_id) = choose|seconds: u32, random: Seq<u8>, session_id: Seq<u8>|
        random.len() == 28 && session_id.len() == 32 && out == #[trigger] tls::client_hello(
            seconds,
            random,
            session_id,
            data,
            server,
        );
    let head = tls::client_hello_head(seconds, random, session_id, data.len() as int, server.len() as int);
    assert(head.len() == tls::CLIENT_HELLO_HEAD);
    let next = Reader { first: false, ..r };
    let front = head + tls::be16(data.len() as int) + data;
    lemma_client_hello_front(r, head, data);
    lemma_client_hello_tail(next, server);
    lemma_decode_concat(
        r,
        front,
        tls::client_hello_tail(server),
        data,
        next,
        Seq::<u8>::empty(),
        Reader { ticket_done: true, ..next },
    );
    assert(data + Seq::<u8>::empty() =~= data);
}

proof fn lemma_block_decodes(r: Reader, lines: Seq<Seq<char>>, data: Seq<u8>)
    requires
        r.kind is HttpServer || r.kind is HttpClient,
        r.pending.len() == 0,
        r.first,
        http::is_block(lines),
        match http::announced_length(lines) {
            Some(n) => 0 < n == data.len(),
            None => r.kind is HttpClient,
        },
    ensures
        decode(r, vstd::utf8::encode_utf8(http::joined(lines)) + data) == Some((data, Reader { first: false, ..r })),
{
    let block = vstd::utf8::encode_utf8(http::joined(lines));
    let s = block + data;
    lemma_head_end_of_block(lines, data);
    obfs::lemma_head_end_bounds(s);
    assert(s.take(block.len() as int) =~= block);
    assert(s.skip(block.len() as int) =~= data);
    vstd::utf8::encode_utf8_valid_utf8(http::joined(lines));
    vstd::utf8::encode_utf8_decode_utf8(http::joined(lines));
    http::lemma_lines_of_joined(lines);
}

/// What a writer puts on the wire carries the data that was written, and leaves the peer's reader
/// ready for the next write.
pub proof fn lemma_write_comes_through(w: Writer, data: Seq<u8>, out: Seq<u8>)
    requires
        obfs::writes(w, data, out),
        comes_through(w, data),
    ensures
        decode(expects(w), out) == Some((data, expects(obfs::after_write(w)))),
{
    let r = expects(w);
    match w.kind {
        Kind::Plain => {},
        Kind::TlsServer => {
            if w.first {
                lemma_server_hello(r, data, out);
            } else {
                lemma_app_data(r, data);
            }
        },
        Kind::TlsClient => {
            if w.first {
                lemma_client_hello(r, data, vstd::utf8::encode_utf8(w.host), out);
            } else {
                lemma_app_data(r, data);
            }
        },
        Kind::HttpServer => {
            if w.first {
                let (major, minor, seconds, token) = choose|major: nat, minor: nat, seconds: u64, token: Seq<u8>| {
                    &&& major < 11
                    &&& minor < 12
                    &&& token.len() == 16
                    &&& out == vstd::utf8::encode_utf8(
                        http::joined(
                            #[trigger] http::response_lines(
                                major,
                                minor,
                                http::rfc1123(seconds as int),
                                http::base64_url(token),
                            ),
                        ),
                    ) + data
                };
                http::lemma_response_block(major, minor, seconds as int, token);
                lemma_block_decodes(
                    r,
                    http::response_lines(major, minor, http::rfc1123(seconds as int), http::base64_url(token)),
                    data,
                );
            }
        },
        Kind::HttpClient => {
            if w.first {
                let (minor, patch, token) = choose|minor: nat, patch: nat, token: Seq<u8>| {
                    &&& minor < 54
                    &&& patch < 2
                    &&& token.len() == 16
                    &&& out == vstd::utf8::encode_utf8(
                        http::joined(
                            #[trigger] http::request_lines(
                                w.host,
                                w.port,
                                minor,
                                patch,
                                http::base64_url(token),
                                data.len(),
                            ),
                        ),
                    ) + data
                };
                http::lemma_request_block(w.host, w.port, minor, patch, token, data.len());
                lemma_block_decodes(
                    r,
                    http::request_lines(w.host, w.port, minor, patch, http::base64_url(token), data.len()),
                    data,
                );
            }
        },
    }
}

/// A stream of writes carries what was written, all of it and in order, whatever the disguise.
pub proof fn lemma_stream_comes_through(w: Writer, data: Seq<Seq<u8>>, out: Seq<u8>)
    requires
        obfs::writes_each(w, data, out),
        data.len() > 0 ==> comes_through(w, data[0]),
    ensures
        decode(expects(w), out) == Some((data.flatten_alt(), expects(obfs::writer_after(w, data.len())))),
    decreases data.len(),
{
    if data.len() == 0 {
        assert(out =~= seq![]);
        assert(data.flatten_alt() =~= seq![]);
    } else {
        let rest = data.drop_last();
        let mid = obfs::writer_after(w, rest.len());
        let k = choose|k: int|
            {
                &&& 0 <= k <= out.len()
                &&& obfs::writes_each(w, rest, #[trigger] out.take(k))
                &&& obfs::writes(mid, data.last(), out.skip(k))
            };
        lemma_stream_comes_through(w, rest, out.take(k));
        assert(comes_through(mid, data.last()));
        lemma_write_comes_through(mid, data.last(), out.skip(k));
        let end = expects(obfs::after_write(mid));
        lemma_decode_concat(expects(w), out.take(k), out.skip(k), rest.flatten_alt(), expects(mid), data.last(), end);
        assert(out.take(k) + out.skip(k) =~= out);
    }
}

/// Whether a read of up to `cap` bytes hands out some of the data, from its front.
pub open spec fn hands_out_front(data: Seq<u8>, cap: nat, outcome: Outcome) -> bool {
    outcome matches Outcome::Data { out, .. } && 0 < out.len() <= cap && out.is_prefix_of(data)
}

/// The next read of what one write put on the wire hands out some of what was written, from its
/// front, whatever the disguise: what the disguise adds is not handed out.
pub proof fn lemma_write_is_read(w: Writer, data: Seq<u8>, out: Seq<u8>, eof: bool, cap: nat)
    requires
        obfs::writes(w, data, out),
        comes_through(w, data),
        data.len() > 0,
        cap > 0,
    ensures
        hands_out_front(data, cap, obfs::obfs_read(expects(w), out, eof, cap)),
{
    lemma_write_comes_through(w, data, out);
    lemma_read_step(expects(w), out, eof, cap, data, expects(obfs::after_write(w)));
    obfs::lemma_read_bounds(expects(w), out, eof, cap);
}

/// The first read of a fresh HTTP client, of what the first write of a fresh HTTP server put on the
/// wire, hands out some of what the server wrote, from its front: the upgrade response is dropped.
pub proof fn lemma_upgrade_response_is_read(w: Writer, data: Seq<u8>, out: Seq<u8>, eof: bool, cap: nat)
    requires
        w.kind is HttpServer,
        w.first,
        obfs::writes(w, data, out),
        data.len() > 0,
        cap > 0,
    ensures
        hands_out_front(data, cap, obfs::obfs_read(obfs::fresh_reader(Kind::HttpClient), out, eof, cap)),
{
    lemma_write_is_read(w, data, out, eof, cap);
    assert(expects(w) == obfs::fresh_reader(Kind::HttpClient));
}

}
