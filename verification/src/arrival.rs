//! A stream that arrives in pieces: a read that lacks bytes goes on from where it was, and comes to
//! what it would have come to, had all the bytes been there at once.
use crate::aead::{Suite, PAYLOAD_SIZE_MASK, SALT_SIZE, TAG_SIZE};
use crate::decode;
use crate::delivery;
use crate::delivery::Run;
use crate::obfs;
use crate::obfs::{Outcome, Reader};
use crate::records;
use crate::snell;
use crate::snell::{Decoder, Encoder, Stop, Taken, FILL_SIZE};
use vstd::prelude::*;

verus! {

// ---- States that read alike ----

/// What a stream carries that consists of whole pieces of the disguise and then of `tail`, of which
/// a read takes nothing before more arrives, and the obfuscation layer behind the whole pieces.
/// `None` where the stream is not such.
#[verifier::opaque]
pub open spec fn carried(r: Reader, s: Seq<u8>, tail: Seq<u8>) -> Option<(Seq<u8>, Reader)> {
    let n = s.len() - tail.len();
    if n >= 0 && s == s.take(n) + tail {
        match decode::decode(r, s.take(n)) {
            Some((payload, end)) => if tail.len() == 0 || decode::inert(end, tail, FILL_SIZE as nat) {
                Some((payload, end))
            } else {
                None
            },
            None => None,
        }
    } else {
        None
    }
}

/// Whether what has arrived consists of whole pieces of the disguise and then of `tail`, of which a
/// read takes nothing before more arrives. A stream can end with a whole piece, or inside a piece
/// that a read takes as a whole; a TLS record of more than `FILL_SIZE` bytes is not taken as a
/// whole. A piece without payload, which reads as the end of the stream, is in none of them. Without
/// a disguise a stream can end anywhere.
pub open spec fn settled(d: Decoder, s: Seq<u8>, tail: Seq<u8>) -> bool {
    carried(d.obfs, s, tail) is Some
}

/// A stream may end with a whole piece.
pub proof fn lemma_whole_is_settled(d: Decoder, s: Seq<u8>)
    requires
        decode::decode(d.obfs, s) is Some,
    ensures
        settled(d, s, seq![]),
{
    reveal(carried);
    assert(s.take(s.len() as int) =~= s);
    assert(s =~= s + Seq::<u8>::empty());
}

/// Without a disguise a stream may end anywhere.
pub proof fn lemma_plain_is_settled(d: Decoder, s: Seq<u8>)
    requires
        d.obfs.kind is Plain,
    ensures
        settled(d, s, seq![]),
{
    reveal_with_fuel(decode::decode, 2);
    lemma_whole_is_settled(d, s);
}

/// A stream may end inside a piece that a read takes as a whole.
pub proof fn lemma_cut_is_settled(d: Decoder, s: Seq<u8>, tail: Seq<u8>)
    requires
        decode::decode(d.obfs, s) matches Some((_, end)) && decode::inert(end, tail, FILL_SIZE as nat),
    ensures
        settled(d, s + tail, tail),
{
    reveal(carried);
    assert((s + tail).take(s.len() as int) =~= s);
}

/// What is still to be opened, where `s` has arrived.
pub open spec fn to_open(d: Decoder, s: Seq<u8>, tail: Seq<u8>) -> Seq<u8> {
    d.enc + carried(d.obfs, s, tail).unwrap().0
}

/// The obfuscation layer behind what has arrived.
pub open spec fn end_of(d: Decoder, s: Seq<u8>, tail: Seq<u8>) -> Reader {
    carried(d.obfs, s, tail).unwrap().1
}

/// Whether two reading halves differ at most in how much of what has arrived came through the
/// obfuscation layer.
pub open spec fn level(d1: Decoder, s1: Seq<u8>, d2: Decoder, s2: Seq<u8>, tail: Seq<u8>) -> bool {
    &&& settled(d1, s1, tail)
    &&& settled(d2, s2, tail)
    &&& to_open(d1, s1, tail) == to_open(d2, s2, tail)
    &&& end_of(d1, s1, tail) == end_of(d2, s2, tail)
    &&& records::only_read(d1, d2)
}

/// Whether two reading halves, each with what has arrived, have the same before them: they are the
/// same, or differ at most in how much of it came through the obfuscation layer.
pub open spec fn alike(d1: Decoder, s1: Seq<u8>, d2: Decoder, s2: Seq<u8>, tail: Seq<u8>) -> bool {
    (d1 == d2 && s1 == s2) || level(d1, s1, d2, s2, tail)
}

/// Whether two reads come to the same, and the reads after them will.
pub open spec fn same_outcome(t1: Taken, t2: Taken, tail: Seq<u8>) -> bool {
    t1.result == t2.result && alike(t1.next, t1.rest, t2.next, t2.rest, tail)
}

/// A read through the obfuscation layer hands out what comes next and leaves the rest.
proof fn lemma_obfs_read(r: Reader, s: Seq<u8>, eof: bool, tail: Seq<u8>)
    requires
        carried(r, s, tail) is Some,
    ensures
        ({
            let (payload, end) = carried(r, s, tail).unwrap();
            match obfs::obfs_read(r, s, eof, FILL_SIZE as nat) {
                Outcome::Starved => payload.len() == 0 && !eof,
                Outcome::Cut { next } => payload.len() == 0 && eof && !decode::is_raw(end) && next == decode::ended(end),
                Outcome::Data { consumed, out, next } => if out.len() == 0 {
                    payload.len() == 0 && eof && decode::is_raw(end) && next == end && consumed == s.len()
                } else {
                    &&& out.len() <= payload.len()
                    &&& out == payload.take(out.len() as int)
                    &&& carried(next, s.skip(consumed as int), tail) == Some((payload.skip(out.len() as int), end))
                },
            }
        }),
{
    reveal(carried);
    let (payload, end) = carried(r, s, tail).unwrap();
    let x = s.take(s.len() - tail.len());
    if tail.len() == 0 {
        assert(x =~= s);
        decode::lemma_read_step(r, s, eof, FILL_SIZE as nat, payload, end);
        obfs::lemma_read_bounds(r, s, eof, FILL_SIZE as nat);
        if payload.len() == 0 {
            decode::lemma_read_end(r, s, eof, FILL_SIZE as nat, payload, end);
        }
    } else {
        decode::lemma_read_cut(r, x, tail, eof, FILL_SIZE as nat, payload, end);
    }
    match obfs::obfs_read(r, s, eof, FILL_SIZE as nat) {
        Outcome::Starved => {},
        Outcome::Cut { .. } => {},
        Outcome::Data { consumed, out, next } => {
            let rest = s.skip(consumed as int);
            assert(rest.take(rest.len() - tail.len()) =~= x.skip(consumed as int));
            assert(rest =~= rest.take(rest.len() - tail.len()) + tail);
        },
    }
}

/// A read through the obfuscation layer, where `b` is still to arrive, hands out what comes next and
/// leaves the rest, or waits.
proof fn lemma_obfs_read_part(r: Reader, a: Seq<u8>, b: Seq<u8>, tail: Seq<u8>)
    requires
        carried(r, a + b, tail) is Some,
    ensures
        ({
            let (payload, end) = carried(r, a + b, tail).unwrap();
            &&& !(obfs::obfs_read(r, a, false, FILL_SIZE as nat) is Cut)
            &&& obfs::obfs_read(r, a, false, FILL_SIZE as nat) matches Outcome::Data { consumed, out, next } ==> {
                &&& 0 < out.len() <= payload.len()
                &&& out == payload.take(out.len() as int)
                &&& carried(next, a.skip(consumed as int) + b, tail) == Some((payload.skip(out.len() as int), end))
            }
        }),
{
    reveal(carried);
    obfs::lemma_read_bounds(r, a, false, FILL_SIZE as nat);
    let s = a + b;
    let (payload, end) = carried(r, s, tail).unwrap();
    let x = s.take(s.len() - tail.len());
    if a.len() <= x.len() {
        let c = x.skip(a.len() as int);
        assert(x =~= a + c);
        decode::lemma_read_part(r, a, c, FILL_SIZE as nat, payload, end);
        assert(s.skip(a.len() as int) =~= b);
        assert((x + tail).skip(a.len() as int) =~= c + tail);
        match obfs::obfs_read(r, a, false, FILL_SIZE as nat) {
            Outcome::Starved => {},
            Outcome::Cut { .. } => {},
            Outcome::Data { consumed, out, next } => {
                let rest = a.skip(consumed as int) + b;
                assert(rest.take(rest.len() - tail.len()) =~= a.skip(consumed as int) + c);
                assert(rest =~= rest.take(rest.len() - tail.len()) + tail);
            },
        }
    } else {
        let part = tail.take(a.len() - x.len());
        decode::lemma_inert_part(end, tail, FILL_SIZE as nat, a.len() - x.len());
        assert(s.take(a.len() as int) =~= a);
        assert((x + tail).take(a.len() as int) =~= x + part);
        decode::lemma_read_cut(r, x, part, false, FILL_SIZE as nat, payload, end);
        match obfs::obfs_read(r, a, false, FILL_SIZE as nat) {
            Outcome::Starved => {},
            Outcome::Cut { .. } => {},
            Outcome::Data { consumed, out, next } => {
                let rest = a.skip(consumed as int) + b;
                assert(rest =~= s.skip(consumed as int));
                assert((x + tail).skip(consumed as int) =~= x.skip(consumed as int) + tail);
                assert(rest.take(rest.len() - tail.len()) =~= x.skip(consumed as int));
            },
        }
    }
}

/// What a read that lacks bytes leaves: all of them still before it where more may come, and nothing
/// where the stream has ended.
pub open spec fn falls_short(d: Decoder, s: Seq<u8>, t: Taken, eof: bool, tail: Seq<u8>) -> bool {
    &&& t.result == Err::<Seq<u8>, Stop>(records::want(end_of(d, s, tail), eof))
    &&& if eof {
        t.next == records::spent(d, end_of(d, s, tail)) && t.rest.len() == 0
    } else {
        level(d, s, t.next, t.rest, tail)
    }
}

proof fn lemma_fill_all(d: Decoder, s: Seq<u8>, eof: bool, n: nat, tail: Seq<u8>) -> (f: Taken)
    requires
        settled(d, s, tail),
    ensures
        f == snell::fill(d, s, eof, n),
        to_open(d, s, tail).len() >= n ==> f.result is Ok && f.next.enc.len() >= n && level(d, s, f.next, f.rest, tail),
        to_open(d, s, tail).len() < n ==> falls_short(d, s, f, eof, tail),
    decreases (if d.enc.len() < n { n - d.enc.len() } else { 0 }),
{
    if d.enc.len() < n {
        let payload = carried(d.obfs, s, tail).unwrap().0;
        lemma_obfs_read(d.obfs, s, eof, tail);
        match obfs::obfs_read(d.obfs, s, eof, FILL_SIZE as nat) {
            Outcome::Starved => snell::fill(d, s, eof, n),
            Outcome::Cut { .. } => snell::fill(d, s, eof, n),
            Outcome::Data { consumed, out, next } => {
                let after = Decoder { obfs: next, enc: d.enc + out, ..d };
                assert((d.enc + out) + payload.skip(out.len() as int) =~= d.enc + payload);
                if out.len() == 0 {
                    snell::fill(d, s, eof, n)
                } else {
                    lemma_fill_all(after, s.skip(consumed as int), eof, n, tail)
                }
            },
        }
    } else {
        snell::fill(d, s, eof, n)
    }
}

/// An exact read takes bytes off the front of what is still to be opened.
proof fn lemma_take_all(d: Decoder, s: Seq<u8>, eof: bool, n: nat, tail: Seq<u8>) -> (t: Taken)
    requires
        settled(d, s, tail),
    ensures
        t == snell::take_exact(d, s, eof, n),
        records::only_read(d, t.next),
        to_open(d, s, tail).len() >= n ==> {
            &&& t.result == Ok::<Seq<u8>, Stop>(to_open(d, s, tail).take(n as int))
            &&& settled(t.next, t.rest, tail)
            &&& end_of(t.next, t.rest, tail) == end_of(d, s, tail)
            &&& to_open(t.next, t.rest, tail) == to_open(d, s, tail).skip(n as int)
        },
        to_open(d, s, tail).len() < n ==> falls_short(d, s, t, eof, tail),
{
    let stream = to_open(d, s, tail);
    let f = lemma_fill_all(d, s, eof, n, tail);
    if stream.len() >= n {
        let payload = carried(f.next.obfs, f.rest, tail).unwrap().0;
        assert(f.next.enc.take(n as int) =~= stream.take(n as int));
        assert(f.next.enc.skip(n as int) + payload =~= stream.skip(n as int));
    }
    snell::take_exact(d, s, eof, n)
}

proof fn lemma_alike_take(d1: Decoder, s1: Seq<u8>, d2: Decoder, s2: Seq<u8>, eof: bool, n: nat, tail: Seq<u8>)
    requires
        alike(d1, s1, d2, s2, tail),
    ensures
        same_outcome(snell::take_exact(d1, s1, eof, n), snell::take_exact(d2, s2, eof, n), tail),
        records::only_read(d1, snell::take_exact(d1, s1, eof, n).next),
        records::only_read(d2, snell::take_exact(d2, s2, eof, n).next),
{
    if d1 == d2 && s1 == s2 {
        snell::lemma_fill_length(d1, s1, eof, n);
    } else {
        let t1 = lemma_take_all(d1, s1, eof, n, tail);
        let t2 = lemma_take_all(d2, s2, eof, n, tail);
        assert(t1.result is Err && eof ==> t1.rest =~= t2.rest);
    }
}

proof fn lemma_alike_payload(d1: Decoder, s1: Seq<u8>, d2: Decoder, s2: Seq<u8>, eof: bool, cap: nat, tail: Seq<u8>)
    requires
        alike(d1, s1, d2, s2, tail),
    ensures
        same_outcome(snell::read_payload(d1, s1, eof, cap), snell::read_payload(d2, s2, eof, cap), tail),
{
    lemma_alike_take(d1, s1, d2, s2, eof, d1.size.unwrap() + TAG_SIZE as nat, tail);
}

proof fn lemma_alike_header(d1: Decoder, s1: Seq<u8>, d2: Decoder, s2: Seq<u8>, eof: bool, tail: Seq<u8>)
    requires
        alike(d1, s1, d2, s2, tail),
    ensures
        same_outcome(snell::read_header(d1, s1, eof), snell::read_header(d2, s2, eof), tail),
{
    lemma_alike_take(d1, s1, d2, s2, eof, 2 + TAG_SIZE as nat, tail);
}

proof fn lemma_alike_record(d1: Decoder, s1: Seq<u8>, d2: Decoder, s2: Seq<u8>, eof: bool, cap: nat, tail: Seq<u8>)
    requires
        alike(d1, s1, d2, s2, tail),
    ensures
        same_outcome(snell::read_record(d1, s1, eof, cap), snell::read_record(d2, s2, eof, cap), tail),
{
    if d1.size is Some {
        lemma_alike_payload(d1, s1, d2, s2, eof, cap, tail);
    } else {
        lemma_alike_header(d1, s1, d2, s2, eof, tail);
        let h1 = snell::read_header(d1, s1, eof);
        let h2 = snell::read_header(d2, s2, eof);
        if h1.result is Ok {
            lemma_alike_payload(h1.next, h1.rest, h2.next, h2.rest, eof, cap, tail);
        }
    }
}

proof fn lemma_alike_init(d1: Decoder, s1: Seq<u8>, d2: Decoder, s2: Seq<u8>, eof: bool, tail: Seq<u8>)
    requires
        alike(d1, s1, d2, s2, tail),
    ensures
        same_outcome(snell::init_reader(d1, s1, eof), snell::init_reader(d2, s2, eof), tail),
{
    lemma_alike_take(d1, s1, d2, s2, eof, SALT_SIZE as nat, tail);
}

/// Reads of the same come to the same.
pub proof fn lemma_alike_read(d1: Decoder, s1: Seq<u8>, d2: Decoder, s2: Seq<u8>, eof: bool, cap: nat, tail: Seq<u8>)
    requires
        alike(d1, s1, d2, s2, tail),
    ensures
        same_outcome(snell::snell_read(d1, s1, eof, cap), snell::snell_read(d2, s2, eof, cap), tail),
{
    reveal(snell::snell_read);
    if d1.leftover.len() > 0 {
    } else if d1.key is None {
        lemma_alike_init(d1, s1, d2, s2, eof, tail);
        let i1 = snell::init_reader(d1, s1, eof);
        let i2 = snell::init_reader(d2, s2, eof);
        if i1.result is Ok {
            lemma_alike_record(i1.next, i1.rest, i2.next, i2.rest, eof, cap, tail);
        }
    } else {
        lemma_alike_record(d1, s1, d2, s2, eof, cap, tail);
    }
}

/// All the reads of the same, one after the other, come to the same.
pub proof fn lemma_alike_reads(d1: Decoder, s1: Seq<u8>, d2: Decoder, s2: Seq<u8>, eof: bool, caps: Seq<nat>, tail: Seq<u8>)
    requires
        alike(d1, s1, d2, s2, tail),
    ensures
        delivery::reads(d1, s1, eof, caps).parts == delivery::reads(d2, s2, eof, caps).parts,
        delivery::reads(d1, s1, eof, caps).stop == delivery::reads(d2, s2, eof, caps).stop,
        alike(
            delivery::reads(d1, s1, eof, caps).next,
            delivery::reads(d1, s1, eof, caps).rest,
            delivery::reads(d2, s2, eof, caps).next,
            delivery::reads(d2, s2, eof, caps).rest,
            tail,
        ),
    decreases caps.len(),
{
    if caps.len() > 0 {
        lemma_alike_read(d1, s1, d2, s2, eof, caps[0], tail);
        let t1 = snell::snell_read(d1, s1, eof, caps[0]);
        let t2 = snell::snell_read(d2, s2, eof, caps[0]);
        if t1.result is Ok {
            lemma_alike_reads(t1.next, t1.rest, t2.next, t2.rest, eof, caps.drop_first(), tail);
        }
    }
}

// ---- Reads of a part of what comes ----

/// Whether a read stopped for want of bytes that may still come.
pub open spec fn waits(t: Taken) -> bool {
    t.result == Err::<Seq<u8>, Stop>(Stop::Lacking)
}

proof fn lemma_fill_part(d: Decoder, a: Seq<u8>, b: Seq<u8>, n: nat, tail: Seq<u8>) -> (f: Taken)
    requires
        settled(d, a + b, tail),
    ensures
        f == snell::fill(d, a, false, n),
        level(d, a + b, f.next, f.rest + b, tail),
        f.result is Ok || waits(f),
        f.result is Ok ==> f.next.enc.len() >= n,
    decreases (if d.enc.len() < n { n - d.enc.len() } else { 0 }),
{
    if d.enc.len() < n {
        let payload = carried(d.obfs, a + b, tail).unwrap().0;
        lemma_obfs_read_part(d.obfs, a, b, tail);
        match obfs::obfs_read(d.obfs, a, false, FILL_SIZE as nat) {
            Outcome::Starved => snell::fill(d, a, false, n),
            Outcome::Cut { .. } => snell::fill(d, a, false, n),
            Outcome::Data { consumed, out, next } => {
                let after = Decoder { obfs: next, enc: d.enc + out, ..d };
                assert((d.enc + out) + payload.skip(out.len() as int) =~= d.enc + payload);
                lemma_fill_part(after, a.skip(consumed as int), b, n, tail)
            },
        }
    } else {
        snell::fill(d, a, false, n)
    }
}

/// An exact read of what has arrived, where `b` is still to arrive, hands out what an exact read of
/// all of it hands out, or waits with all of it still before it.
proof fn lemma_take_part(d: Decoder, a: Seq<u8>, b: Seq<u8>, eof: bool, n: nat, tail: Seq<u8>) -> (t: Taken)
    requires
        settled(d, a + b, tail),
    ensures
        t == snell::take_exact(d, a, false, n),
        settled(t.next, t.rest + b, tail),
        records::only_read(d, t.next),
        waits(t) ==> alike(t.next, t.rest + b, d, a + b, tail),
        !waits(t) ==> t.result is Ok && t.result == snell::take_exact(d, a + b, eof, n).result && alike(
            t.next,
            t.rest + b,
            snell::take_exact(d, a + b, eof, n).next,
            snell::take_exact(d, a + b, eof, n).rest,
            tail,
        ),
{
    let stream = to_open(d, a + b, tail);
    let f = lemma_fill_part(d, a, b, n, tail);
    let w = lemma_take_all(d, a + b, eof, n, tail);
    if f.result is Ok {
        let payload = carried(f.next.obfs, f.rest + b, tail).unwrap().0;
        assert(f.next.enc.take(n as int) =~= stream.take(n as int));
        assert(f.next.enc.skip(n as int) + payload =~= stream.skip(n as int));
    }
    snell::take_exact(d, a, false, n)
}

/// What a read of the front of a stream comes to, where `w` is what the read of all of it comes to:
/// the same; or it waits, and `again`, the read after the rest has arrived, comes to the same.
pub open spec fn goes_on(t: Taken, again: Taken, b: Seq<u8>, w: Taken, tail: Seq<u8>) -> bool {
    if waits(t) {
        same_outcome(again, w, tail)
    } else {
        t.result == w.result && alike(t.next, t.rest + b, w.next, w.rest, tail)
    }
}

proof fn lemma_payload_part(d: Decoder, a: Seq<u8>, b: Seq<u8>, eof: bool, cap: nat, tail: Seq<u8>) -> (t: Taken)
    requires
        settled(d, a + b, tail),
        d.size is Some,
    ensures
        t == snell::read_payload(d, a, false, cap),
        goes_on(t, snell::read_payload(t.next, t.rest + b, eof, cap), b, snell::read_payload(d, a + b, eof, cap), tail),
        settled(t.next, t.rest + b, tail),
        waits(t) ==> records::only_read(d, t.next),
{
    let n = d.size.unwrap() + TAG_SIZE as nat;
    let part = lemma_take_part(d, a, b, eof, n, tail);
    if waits(part) {
        lemma_alike_payload(part.next, part.rest + b, d, a + b, eof, cap, tail);
    }
    snell::read_payload(d, a, false, cap)
}

proof fn lemma_header_part(d: Decoder, a: Seq<u8>, b: Seq<u8>, eof: bool, tail: Seq<u8>) -> (t: Taken)
    requires
        settled(d, a + b, tail),
    ensures
        t == snell::read_header(d, a, false),
        settled(t.next, t.rest + b, tail),
        t.next.leftover == d.leftover,
        d.key is Some ==> t.next.key is Some,
        waits(t) ==> alike(t.next, t.rest + b, d, a + b, tail) && records::only_read(d, t.next),
        !waits(t) ==> t.result == snell::read_header(d, a + b, eof).result && alike(
            t.next,
            t.rest + b,
            snell::read_header(d, a + b, eof).next,
            snell::read_header(d, a + b, eof).rest,
            tail,
        ),
{
    let part = lemma_take_part(d, a, b, eof, 2 + TAG_SIZE as nat, tail);
    snell::read_header(d, a, false)
}

proof fn lemma_record_part(d: Decoder, a: Seq<u8>, b: Seq<u8>, eof: bool, cap: nat, tail: Seq<u8>) -> (t: Taken)
    requires
        settled(d, a + b, tail),
    ensures
        t == snell::read_record(d, a, false, cap),
        goes_on(t, snell::read_record(t.next, t.rest + b, eof, cap), b, snell::read_record(d, a + b, eof, cap), tail),
        settled(t.next, t.rest + b, tail),
        waits(t) ==> t.next.leftover == d.leftover && (d.key is Some ==> t.next.key is Some),
{
    if d.size is Some {
        lemma_payload_part(d, a, b, eof, cap, tail)
    } else {
        let h = lemma_header_part(d, a, b, eof, tail);
        let all = snell::read_header(d, a + b, eof);
        if waits(h) {
            lemma_alike_record(h.next, h.rest + b, d, a + b, eof, cap, tail);
            snell::read_record(d, a, false, cap)
        } else if h.result is Ok {
            let t = lemma_payload_part(h.next, h.rest, b, eof, cap, tail);
            lemma_alike_payload(h.next, h.rest + b, all.next, all.rest, eof, cap, tail);
            t
        } else {
            snell::read_record(d, a, false, cap)
        }
    }
}

/// A stream may arrive in pieces: a read of the front of it hands out what a read of all of it
/// hands out; or it waits, and the read after the rest has arrived hands out that. The reads that
/// follow come to the same too. Where a stream ends inside a piece that is not taken as a whole, it
/// depends on the pieces how much of that can be read; `lemma_pieces_agree` tells what does not.
pub proof fn lemma_arrives_in_pieces(d: Decoder, a: Seq<u8>, b: Seq<u8>, eof: bool, cap: nat, tail: Seq<u8>)
    requires
        settled(d, a + b, tail),
    ensures
        goes_on(
            snell::snell_read(d, a, false, cap),
            snell::snell_read(
                snell::snell_read(d, a, false, cap).next,
                snell::snell_read(d, a, false, cap).rest + b,
                eof,
                cap,
            ),
            b,
            snell::snell_read(d, a + b, eof, cap),
            tail,
        ),
        settled(snell::snell_read(d, a, false, cap).next, snell::snell_read(d, a, false, cap).rest + b, tail),
{
    let t = snell::snell_read(d, a, false, cap);
    let w = snell::snell_read(d, a + b, eof, cap);
    if d.leftover.len() > 0 {
        lemma_leftover_part(d, a, b, eof, cap, tail);
    } else if d.key is None {
        let i = lemma_init_part(d, a, b, eof, tail);
        let all = snell::init_reader(d, a + b, eof);
        lemma_read_from_salt(d, a, false, cap);
        lemma_read_from_salt(d, a + b, eof, cap);
        if waits(i) {
            lemma_alike_read(i.next, i.rest + b, d, a + b, eof, cap, tail);
        } else {
            let part = lemma_record_part(i.next, i.rest, b, eof, cap, tail);
            lemma_alike_record(i.next, i.rest + b, all.next, all.rest, eof, cap, tail);
            if waits(t) {
                lemma_read_from_record(t.next, t.rest + b, eof, cap);
            }
        }
    } else {
        let part = lemma_record_part(d, a, b, eof, cap, tail);
        lemma_read_from_record(d, a, false, cap);
        lemma_read_from_record(d, a + b, eof, cap);
        if waits(t) {
            lemma_read_from_record(t.next, t.rest + b, eof, cap);
        }
    }
}

proof fn lemma_leftover_part(d: Decoder, a: Seq<u8>, b: Seq<u8>, eof: bool, cap: nat, tail: Seq<u8>)
    requires
        settled(d, a + b, tail),
        d.leftover.len() > 0,
    ensures
        !waits(snell::snell_read(d, a, false, cap)),
        settled(snell::snell_read(d, a, false, cap).next, snell::snell_read(d, a, false, cap).rest + b, tail),
        snell::snell_read(d, a, false, cap).result == snell::snell_read(d, a + b, eof, cap).result,
        alike(
            snell::snell_read(d, a, false, cap).next,
            snell::snell_read(d, a, false, cap).rest + b,
            snell::snell_read(d, a + b, eof, cap).next,
            snell::snell_read(d, a + b, eof, cap).rest,
            tail,
        ),
{
    reveal(snell::snell_read);
}

proof fn lemma_read_from_salt(d: Decoder, s: Seq<u8>, eof: bool, cap: nat)
    requires
        d.leftover.len() == 0,
        d.key is None,
    ensures
        snell::snell_read(d, s, eof, cap) == (if snell::init_reader(d, s, eof).result is Err {
            snell::init_reader(d, s, eof)
        } else {
            snell::read_record(snell::init_reader(d, s, eof).next, snell::init_reader(d, s, eof).rest, eof, cap)
        }),
{
    reveal(snell::snell_read);
}

proof fn lemma_read_from_record(d: Decoder, s: Seq<u8>, eof: bool, cap: nat)
    requires
        d.leftover.len() == 0,
        d.key is Some,
    ensures
        snell::snell_read(d, s, eof, cap) == snell::read_record(d, s, eof, cap),
{
    reveal(snell::snell_read);
}

proof fn lemma_init_part(d: Decoder, a: Seq<u8>, b: Seq<u8>, eof: bool, tail: Seq<u8>) -> (t: Taken)
    requires
        settled(d, a + b, tail),
    ensures
        t == snell::init_reader(d, a, false),
        settled(t.next, t.rest + b, tail),
        waits(t) ==> alike(t.next, t.rest + b, d, a + b, tail) && records::only_read(d, t.next),
        !waits(t) ==> t.result is Ok && t.next.key is Some && t.next.leftover == d.leftover && t.result
            == snell::init_reader(d, a + b, eof).result && alike(
            t.next,
            t.rest + b,
            snell::init_reader(d, a + b, eof).next,
            snell::init_reader(d, a + b, eof).rest,
            tail,
        ),
{
    let part = lemma_take_part(d, a, b, eof, SALT_SIZE as nat, tail);
    snell::init_reader(d, a, false)
}

/// A read that waits has not used its size yet.
proof fn lemma_wait_of_any_size(d: Decoder, s: Seq<u8>, eof: bool, cap: nat, other: nat)
    requires
        snell::snell_read(d, s, eof, cap).result matches Err(stop) && snell::too_short(stop),
    ensures
        snell::snell_read(d, s, eof, other) == snell::snell_read(d, s, eof, cap),
{
    reveal(snell::snell_read);
}

/// What a stream hands out does not depend on where it is cut: where all of a stream is still to
/// come, and a read of one front of it waits, the read that goes on with a longer front hands out
/// what a read of that longer front at once hands out, unless one of the two still waits.
pub proof fn lemma_pieces_agree(d: Decoder, a: Seq<u8>, b: Seq<u8>, c: Seq<u8>, cap: nat, tail: Seq<u8>)
    requires
        settled(d, a + b + c, tail),
        waits(snell::snell_read(d, a, false, cap)),
    ensures
        ({
            let t = snell::snell_read(d, a, false, cap);
            let again = snell::snell_read(t.next, t.rest + b, false, cap);
            let at_once = snell::snell_read(d, a + b, false, cap);
            waits(again) || waits(at_once) || again.result == at_once.result
        }),
{
    let t = snell::snell_read(d, a, false, cap);
    assert(a + (b + c) =~= a + b + c);
    lemma_arrives_in_pieces(d, a, b + c, false, cap, tail);
    assert(t.rest + (b + c) =~= t.rest + b + c);
    lemma_arrives_in_pieces(t.next, t.rest + b, c, false, cap, tail);
    lemma_arrives_in_pieces(d, a + b, c, false, cap, tail);
}

// ---- Any pieces and any sizes ----

/// Whether all reads of one reading half, with what has arrived, come to what those of another come
/// to.
pub open spec fn stands_for(d1: Decoder, s1: Seq<u8>, d2: Decoder, s2: Seq<u8>, tail: Seq<u8>) -> bool {
    forall|eof: bool, cap: nat|
        same_outcome(#[trigger] snell::snell_read(d1, s1, eof, cap), snell::snell_read(d2, s2, eof, cap), tail)
}

proof fn lemma_alike_stands_for(d1: Decoder, s1: Seq<u8>, d2: Decoder, s2: Seq<u8>, tail: Seq<u8>)
    requires
        alike(d1, s1, d2, s2, tail),
    ensures
        stands_for(d1, s1, d2, s2, tail),
{
    assert forall|eof: bool, cap: nat|
        same_outcome(#[trigger] snell::snell_read(d1, s1, eof, cap), snell::snell_read(d2, s2, eof, cap), tail) by {
        lemma_alike_read(d1, s1, d2, s2, eof, cap, tail);
    }
}

/// A reading half that waits stands for the one before it with all of the stream.
pub proof fn lemma_waiting_stands_for(d: Decoder, a: Seq<u8>, b: Seq<u8>, cap: nat, tail: Seq<u8>)
    requires
        settled(d, a + b, tail),
        waits(snell::snell_read(d, a, false, cap)),
    ensures
        stands_for(
            snell::snell_read(d, a, false, cap).next,
            snell::snell_read(d, a, false, cap).rest + b,
            d,
            a + b,
            tail,
        ),
        settled(snell::snell_read(d, a, false, cap).next, snell::snell_read(d, a, false, cap).rest + b, tail),
{
    let t = snell::snell_read(d, a, false, cap);
    lemma_arrives_in_pieces(d, a, b, false, cap, tail);
    assert forall|eof: bool, other: nat|
        same_outcome(#[trigger] snell::snell_read(t.next, t.rest + b, eof, other), snell::snell_read(d, a + b, eof, other), tail) by {
        lemma_wait_of_any_size(d, a, false, cap, other);
        lemma_arrives_in_pieces(d, a, b, eof, other, tail);
    }
}

/// What some reads come to, before each of which a piece of the stream arrives, until one fails
/// otherwise than for want of bytes that may still come.
pub open spec fn piecewise(d: Decoder, s: Seq<u8>, steps: Seq<(Seq<u8>, nat)>) -> Run
    decreases steps.len(),
{
    if steps.len() == 0 {
        Run { next: d, rest: s, parts: seq![], stop: None }
    } else {
        let (piece, cap) = steps[0];
        let t = snell::snell_read(d, s + piece, false, cap);
        match t.result {
            Err(stop) => if waits(t) {
                piecewise(t.next, t.rest, steps.drop_first())
            } else {
                Run { next: t.next, rest: t.rest, parts: seq![], stop: Some(stop) }
            },
            Ok(part) => {
                let r = piecewise(t.next, t.rest, steps.drop_first());
                Run { parts: seq![part] + r.parts, ..r }
            },
        }
    }
}

/// The pieces of some steps, one behind the other.
pub open spec fn pieces(steps: Seq<(Seq<u8>, nat)>) -> Seq<u8>
    decreases steps.len(),
{
    if steps.len() == 0 {
        seq![]
    } else {
        steps[0].0 + pieces(steps.drop_first())
    }
}

proof fn lemma_stands_for_reads(d1: Decoder, s1: Seq<u8>, d2: Decoder, s2: Seq<u8>, eof: bool, caps: Seq<nat>)
    requires
        stands_for(d1, s1, d2, s2, seq![]),
    ensures
        delivery::reads(d1, s1, eof, caps).parts == delivery::reads(d2, s2, eof, caps).parts,
        delivery::reads(d1, s1, eof, caps).stop == delivery::reads(d2, s2, eof, caps).stop,
{
    if caps.len() > 0 {
        let t1 = snell::snell_read(d1, s1, eof, caps[0]);
        let t2 = snell::snell_read(d2, s2, eof, caps[0]);
        assert(same_outcome(t1, t2, seq![]));
        if t1.result is Ok {
            lemma_alike_reads(t1.next, t1.rest, t2.next, t2.rest, eof, caps.drop_first(), seq![]);
        }
    }
}

/// Whether something is asked for in each step.
pub open spec fn steps_ask(steps: Seq<(Seq<u8>, nat)>) -> bool {
    forall|i: int| 0 <= i < steps.len() ==> (#[trigger] steps[i]).1 > 0
}

/// A reading half at some point, what has arrived and what is still to arrive, and the reading half
/// that it stands for, to which some payloads are on the way.
pub open spec fn underway(
    e: Encoder,
    salt: Seq<u8>,
    d: Decoder,
    s: Seq<u8>,
    ideal: (Decoder, Seq<u8>),
    queue: Seq<Seq<u8>>,
) -> bool {
    &&& settled(d, s, seq![])
    &&& stands_for(d, s, ideal.0, ideal.1, seq![])
    &&& delivery::on_the_way(e, salt, ideal.0, ideal.1, queue)
}

proof fn lemma_piecewise_step(
    e: Encoder,
    salt: Seq<u8>,
    d: Decoder,
    a: Seq<u8>,
    b: Seq<u8>,
    ideal: (Decoder, Seq<u8>),
    queue: Seq<Seq<u8>>,
    cap: nat,
) -> (r: (Decoder, Seq<u8>))
    requires
        underway(e, salt, d, a + b, ideal, queue),
        cap > 0,
    ensures
        ({
            let t = snell::snell_read(d, a, false, cap);
            if waits(t) {
                underway(e, salt, t.next, t.rest + b, r, queue)
            } else {
                &&& queue.len() > 0
                &&& t.result == records::part_of(queue[0], cap)
                &&& underway(e, salt, t.next, t.rest + b, r, delivery::served(queue, cap))
            }
        }),
{
    let t = snell::snell_read(d, a, false, cap);
    let w = snell::snell_read(d, a + b, false, cap);
    let v = snell::snell_read(ideal.0, ideal.1, false, cap);
    assert(same_outcome(w, v, seq![]));
    if waits(t) {
        lemma_waiting_stands_for(d, a, b, cap, seq![]);
        assert forall|eof: bool, other: nat|
            same_outcome(
                #[trigger] snell::snell_read(t.next, t.rest + b, eof, other),
                snell::snell_read(ideal.0, ideal.1, eof, other),
                seq![],
            ) by {
            let x = snell::snell_read(d, a + b, eof, other);
            assert(same_outcome(snell::snell_read(t.next, t.rest + b, eof, other), x, seq![]));
            assert(same_outcome(x, snell::snell_read(ideal.0, ideal.1, eof, other), seq![]));
        }
        ideal
    } else {
        lemma_arrives_in_pieces(d, a, b, false, cap, seq![]);
        if queue.len() == 0 {
            assert(queue =~= seq![]);
            let stuck = delivery::lemma_read_waits(e, salt, ideal.0, ideal.1, false, cap);
            assert(false);
        }
        let served = delivery::lemma_read_serves(e, salt, ideal.0, ideal.1, queue, false, cap);
        assert(alike(t.next, t.rest + b, v.next, v.rest, seq![]));
        lemma_alike_stands_for(t.next, t.rest + b, v.next, v.rest, seq![]);
        (v.next, v.rest)
    }
}

proof fn lemma_piecewise(
    e: Encoder,
    salt: Seq<u8>,
    d: Decoder,
    s: Seq<u8>,
    steps: Seq<(Seq<u8>, nat)>,
    more: Seq<u8>,
    ideal: (Decoder, Seq<u8>),
    full: Seq<Seq<u8>>,
) -> (r: ((Decoder, Seq<u8>), Seq<Seq<u8>>))
    requires
        underway(e, salt, d, s + pieces(steps) + more, ideal, full),
        delivery::none_empty(full),
        steps_ask(steps),
    ensures
        ({
            let run = piecewise(d, s, steps);
            &&& run.stop is None
            &&& delivery::none_empty(run.parts)
            &&& delivery::none_empty(r.1)
            &&& run.parts.flatten() + r.1.flatten() == full.flatten()
            &&& underway(e, salt, run.next, run.rest + more, r.0, r.1)
        }),
    decreases steps.len(),
{
    let run = piecewise(d, s, steps);
    let none: Seq<Seq<u8>> = seq![];
    if steps.len() == 0 {
        assert(none.flatten() =~= seq![]);
        assert(none.flatten() + full.flatten() =~= full.flatten());
        assert(s + pieces(steps) + more =~= s + more);
        (ideal, full)
    } else {
        let (piece, cap) = steps[0];
        let later = steps.drop_first();
        let a = s + piece;
        let b = pieces(later) + more;
        assert(cap > 0);
        assert(s + pieces(steps) + more =~= a + b);
        let next = lemma_piecewise_step(e, salt, d, a, b, ideal, full, cap);
        let t = snell::snell_read(d, a, false, cap);
        assert(t.rest + b =~= t.rest + pieces(later) + more);
        assert(steps_ask(later)) by {
            assert forall|i: int| 0 <= i < later.len() implies (#[trigger] later[i]).1 > 0 by {
                assert(later[i] == steps[i + 1]);
            }
        }
        if waits(t) {
            lemma_piecewise(e, salt, t.next, t.rest, later, more, next, full)
        } else {
            delivery::lemma_served(full, cap);
            assert(full[0].len() > 0);
            let r = lemma_piecewise(e, salt, t.next, t.rest, later, more, next, delivery::served(full, cap));
            let rest = piecewise(t.next, t.rest, later);
            let part = t.result->Ok_0;
            assert(run.parts.drop_first() =~= rest.parts);
            assert(run.parts.flatten() + r.1.flatten() =~= part + (rest.parts.flatten() + r.1.flatten()));
            assert forall|i: int| 0 <= i < run.parts.len() implies (#[trigger] run.parts[i]).len() > 0 by {
                if i > 0 {
                    assert(run.parts[i] == rest.parts[i - 1]);
                }
            }
            r
        }
    }
}

/// What is written is what is read, in whatever pieces it arrives and whatever the sizes of the
/// reads: the reads that are made while the stream arrives hand out the payloads of a write from
/// their front, each of them something or nothing yet, and never fail; and once the rest has
/// arrived too, reads of any sizes hand out the rest.
pub proof fn lemma_any_pieces(
    e: Encoder,
    suite: Suite,
    psk: Seq<u8>,
    salt: Seq<u8>,
    payloads: Seq<Seq<u8>>,
    out: Seq<u8>,
    after: Encoder,
    d: Decoder,
    s: Seq<u8>,
    steps: Seq<(Seq<u8>, nat)>,
    more: Seq<u8>,
    eof: bool,
    caps: Seq<nat>,
)
    requires
        snell::sends(e, suite, psk, salt, payloads, out, after),
        records::gets_through(e, salt),
        records::in_step(e, d, s),
        e.key is None ==> delivery::takes_up(d, suite, psk, salt, payloads),
        delivery::none_empty(payloads),
        records::payloads_fit(payloads, PAYLOAD_SIZE_MASK as nat),
        out == pieces(steps) + more,
        steps_ask(steps),
        delivery::asks(caps),
    ensures
        ({
            let run = piecewise(d, s, steps);
            let early = run.parts.flatten();
            let data = payloads.flatten();
            &&& run.stop is None
            &&& delivery::none_empty(run.parts)
            &&& early.is_prefix_of(data)
            &&& delivery::handed_out(
                data.skip(early.len() as int),
                records::want(decode::expects(after.obfs), eof),
                caps,
                delivery::reads(run.next, run.rest + more, eof, caps),
            )
        }),
{
    let none: Seq<Seq<u8>> = seq![];
    delivery::lemma_nothing_on_the_way(e, salt, d, s);
    delivery::lemma_write_goes_out(e, suite, psk, salt, payloads, out, after, salt, d, s, none);
    assert(none + payloads =~= payloads);
    assert(s + out =~= s + pieces(steps) + more);
    delivery::lemma_on_the_way_is_whole(after, salt, d, s + out, payloads);
    lemma_whole_is_settled(d, s + out);
    lemma_alike_stands_for(d, s + out, d, s + out, seq![]);
    let ideal = (d, s + out);
    let r = lemma_piecewise(after, salt, d, s, steps, more, ideal, payloads);
    let run = piecewise(d, s, steps);
    let early = run.parts.flatten();
    let data = payloads.flatten();
    assert(early =~= data.take(early.len() as int));
    assert(r.1.flatten() =~= data.skip(early.len() as int));
    assert(r.1 + none =~= r.1);
    lemma_stands_for_reads(run.next, run.rest + more, r.0.0, r.0.1, eof, caps);
    let left = delivery::lemma_reads_hand_out(after, salt, r.0.0, r.0.1, r.1, none, eof, caps);
    delivery::lemma_handed_out(after, salt, r.1, none, eof, caps, delivery::reads(r.0.0, r.0.1, eof, caps), left);
}

}
