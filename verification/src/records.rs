//! What a connection carries: the records that one side writes are those that the other reads.
use crate::aead;
use crate::aead::{Suite, PAYLOAD_SIZE_MASK, SALT_SIZE, TAG_SIZE};
use crate::decode;
use crate::obfs;
use crate::obfs::{Outcome, Reader};
use crate::snell;
use crate::snell::{Decoder, Encoder, SessionKey, Stop, Taken, FILL_SIZE};
use crate::tls;
use vstd::prelude::*;

verus! {

/// Whether `stream` is what is still to be opened, where `s` has arrived: bytes that came through
/// the obfuscation layer, and then the payload that `s` carries. Behind it stands `end`.
pub open spec fn incoming(d: Decoder, s: Seq<u8>, stream: Seq<u8>, end: Reader) -> bool {
    decode::decode(d.obfs, s) matches Some((payload, last)) && d.enc + payload == stream && last == end
}

/// Whether nothing but the obfuscation layer and what came through it has changed.
pub open spec fn only_read(d: Decoder, next: Decoder) -> bool {
    next == (Decoder { obfs: next.obfs, enc: next.enc, ..d })
}

/// What stops a read that lacks bytes, where the obfuscation layer stands at `end`.
pub open spec fn want(end: Reader, eof: bool) -> Stop {
    if !eof {
        Stop::Lacking
    } else if decode::is_raw(end) {
        Stop::Closed
    } else {
        Stop::Cut
    }
}

/// The reading half behind the end of a stream: what came through the obfuscation layer and was not
/// opened is lost.
pub open spec fn spent(d: Decoder, end: Reader) -> Decoder {
    Decoder { obfs: decode::ended(end), enc: seq![], ..d }
}

/// What a read that lacks bytes leaves: all of them still to be opened where more may come, and
/// nothing where the stream has ended.
pub open spec fn falls_short(d: Decoder, t: Taken, eof: bool, stream: Seq<u8>, end: Reader) -> bool {
    &&& t.result == Err::<Seq<u8>, Stop>(want(end, eof))
    &&& if eof {
        t.next == spent(d, end) && t.rest.len() == 0
    } else {
        incoming(t.next, t.rest, stream, end)
    }
}

proof fn lemma_fill(d: Decoder, s: Seq<u8>, eof: bool, n: nat, stream: Seq<u8>, end: Reader) -> (f: Taken)
    requires
        incoming(d, s, stream, end),
    ensures
        f == snell::fill(d, s, eof, n),
        only_read(d, f.next),
        stream.len() >= n ==> f.result is Ok && f.next.enc.len() >= n && incoming(f.next, f.rest, stream, end),
        stream.len() < n ==> falls_short(d, f, eof, stream, end),
    decreases (if d.enc.len() < n { n - d.enc.len() } else { 0 }),
{
    if d.enc.len() < n {
        let payload = decode::decode(d.obfs, s).unwrap().0;
        decode::lemma_read_step(d.obfs, s, eof, FILL_SIZE as nat, payload, end);
        if payload.len() == 0 {
            decode::lemma_read_end(d.obfs, s, eof, FILL_SIZE as nat, payload, end);
        }
        match obfs::obfs_read(d.obfs, s, eof, FILL_SIZE as nat) {
            Outcome::Starved => snell::fill(d, s, eof, n),
            Outcome::Cut { .. } => snell::fill(d, s, eof, n),
            Outcome::Data { consumed, out, next } => {
                let after = Decoder { obfs: next, enc: d.enc + out, ..d };
                assert((d.enc + out) + payload.skip(out.len() as int) =~= d.enc + payload);
                if out.len() == 0 {
                    snell::fill(d, s, eof, n)
                } else {
                    lemma_fill(after, s.skip(consumed as int), eof, n, stream, end)
                }
            },
        }
    } else {
        snell::fill(d, s, eof, n)
    }
}

/// An exact read takes bytes off the front of what is still to be opened, in order and none twice:
/// it succeeds just where `n` bytes are still to come. Where they are not, it lacks bytes, and all of
/// them are still to come; or the stream has ended, and they are lost.
pub proof fn lemma_take_exact(d: Decoder, s: Seq<u8>, eof: bool, n: nat, stream: Seq<u8>, end: Reader) -> (t: Taken)
    requires
        incoming(d, s, stream, end),
    ensures
        t == snell::take_exact(d, s, eof, n),
        only_read(d, t.next),
        stream.len() >= n ==> t.result == Ok::<Seq<u8>, Stop>(stream.take(n as int)) && incoming(
            t.next,
            t.rest,
            stream.skip(n as int),
            end,
        ),
        stream.len() < n ==> falls_short(d, t, eof, stream, end),
{
    let f = lemma_fill(d, s, eof, n, stream, end);
    if stream.len() >= n {
        let payload = decode::decode(f.next.obfs, f.rest).unwrap().0;
        assert(f.next.enc.take(n as int) =~= stream.take(n as int));
        assert(f.next.enc.skip(n as int) + payload =~= stream.skip(n as int));
    }
    snell::take_exact(d, s, eof, n)
}

proof fn lemma_fill_further(d: Decoder, s: Seq<u8>, eof: bool, n: nat, m: nat)
    ensures
        snell::fill(d, s, eof, n).result is Ok ==> snell::fill(d, s, eof, n + m) == snell::fill(
            snell::fill(d, s, eof, n).next,
            snell::fill(d, s, eof, n).rest,
            eof,
            n + m,
        ),
        snell::fill(d, s, eof, n).result is Err ==> snell::fill(d, s, eof, n + m) == snell::fill(d, s, eof, n),
    decreases (if d.enc.len() < n { n - d.enc.len() } else { 0 }),
{
    if d.enc.len() < n {
        match obfs::obfs_read(d.obfs, s, eof, FILL_SIZE as nat) {
            Outcome::Starved => {},
            Outcome::Cut { .. } => {},
            Outcome::Data { consumed, out, next } => {
                if out.len() > 0 {
                    let after = Decoder { obfs: next, enc: d.enc + out, ..d };
                    lemma_fill_further(after, s.skip(consumed as int), eof, n, m);
                }
            },
        }
    }
}

/// Bytes at the front that are taken already do not change how the others are filled up.
proof fn lemma_fill_behind(d: Decoder, s: Seq<u8>, eof: bool, n: nat, m: nat)
    requires
        d.enc.len() >= n,
    ensures
        ({
            let f = snell::fill(d, s, eof, n + m);
            let g = snell::fill(Decoder { enc: d.enc.skip(n as int), ..d }, s, eof, m);
            &&& g.result == f.result
            &&& g.rest == f.rest
            &&& g.result is Ok ==> {
                &&& g.next == (Decoder { enc: f.next.enc.skip(n as int), ..f.next })
                &&& f.next.enc.len() >= n
                &&& f.next.enc.take(n as int) == d.enc.take(n as int)
            }
        }),
    decreases (if d.enc.len() < n + m { n + m - d.enc.len() } else { 0 }),
{
    if d.enc.len() < n + m {
        let short = Decoder { enc: d.enc.skip(n as int), ..d };
        match obfs::obfs_read(d.obfs, s, eof, FILL_SIZE as nat) {
            Outcome::Starved => {},
            Outcome::Cut { .. } => {},
            Outcome::Data { consumed, out, next } => {
                if out.len() > 0 {
                    let after = Decoder { obfs: next, enc: d.enc + out, ..d };
                    lemma_fill_behind(after, s.skip(consumed as int), eof, n, m);
                    assert((d.enc + out).skip(n as int) =~= d.enc.skip(n as int) + out);
                    assert((d.enc + out).take(n as int) =~= d.enc.take(n as int));
                    assert((Decoder { enc: (d.enc + out).skip(n as int), ..after }) == (Decoder {
                        obfs: next,
                        enc: short.enc + out,
                        ..short
                    }));
                }
            },
        }
    }
}

/// Exact reads that follow one another hand out consecutive slices of the stream, none skipped and
/// none twice: a read of `n` bytes and then one of `m` hand out what one read of `n + m` bytes hands
/// out, and leave the same behind them; and where one of the two fails, the one read fails for the
/// same reason.
pub proof fn lemma_exact_reads_join(d: Decoder, s: Seq<u8>, eof: bool, n: nat, m: nat)
    ensures
        ({
            let t = snell::take_exact(d, s, eof, n);
            let u = snell::take_exact(t.next, t.rest, eof, m);
            let w = snell::take_exact(d, s, eof, n + m);
            &&& t.result is Err ==> w == t
            &&& t.result is Ok ==> w.rest == u.rest
            &&& t.result matches Ok(x) ==> (u.result matches Ok(y) ==> x.len() == n && y.len() == m && w.result == Ok::<
                Seq<u8>,
                Stop,
            >(x + y) && w.next == u.next)
            &&& t.result is Ok ==> (u.result matches Err(stop) ==> w.result == Err::<Seq<u8>, Stop>(stop))
        }),
{
    let f = snell::fill(d, s, eof, n);
    lemma_fill_further(d, s, eof, n, m);
    snell::lemma_fill_length(d, s, eof, n);
    if f.result is Ok {
        lemma_fill_behind(f.next, f.rest, eof, n, m);
        let t = snell::take_exact(d, s, eof, n);
        let u = snell::take_exact(t.next, t.rest, eof, m);
        let w = snell::fill(d, s, eof, n + m);
        snell::lemma_fill_length(d, s, eof, n + m);
        if u.result is Ok {
            assert(w.next.enc.take((n + m) as int) =~= f.next.enc.take(n as int) + w.next.enc.skip(n as int).take(m as int));
            assert(w.next.enc.skip((n + m) as int) =~= w.next.enc.skip(n as int).skip(m as int));
        }
    }
}

/// Whether a read hands out a payload as a whole, or reports the record without one.
pub open spec fn hands_back(t: Taken, payload: Seq<u8>) -> bool {
    if payload.len() == 0 {
        t.result == Err::<Seq<u8>, Stop>(Stop::ZeroChunk)
    } else {
        t.result == Ok::<Seq<u8>, Stop>(payload)
    }
}

/// What a read of up to `cap` bytes hands out of the payload that comes next; a record without
/// payload is reported.
pub open spec fn part_of(payload: Seq<u8>, cap: nat) -> Result<Seq<u8>, Stop> {
    if payload.len() == 0 {
        Err(Stop::ZeroChunk)
    } else {
        Ok(payload.take(obfs::least(cap, payload.len()) as int))
    }
}

/// The reading half behind a record, of whose payload up to `cap` bytes were handed out.
pub open spec fn behind_record(d: Decoder, k: SessionKey, payload: Seq<u8>, cap: nat, next: Decoder) -> bool {
    next == (Decoder {
        obfs: next.obfs,
        enc: next.enc,
        key: Some(k),
        nonce: snell::nonce_behind(d.nonce, payload),
        fallback: None,
        leftover: payload.skip(obfs::least(cap, payload.len()) as int),
        switched: d.switched || d.key != Some(k),
        ..d
    })
}

/// A reading half that is ready for the next record hands out the record that comes, as far as it
/// is asked for, and keeps the rest.
pub proof fn lemma_read_record(
    d: Decoder,
    s: Seq<u8>,
    eof: bool,
    cap: nat,
    k: SessionKey,
    payload: Seq<u8>,
    more: Seq<u8>,
    end: Reader,
) -> (t: Taken)
    requires
        d.key is Some,
        d.size is None,
        d.leftover.len() == 0,
        payload.len() <= PAYLOAD_SIZE_MASK,
        snell::record_opens(k, d.nonce, payload),
        incoming(d, s, snell::record(k, d.nonce, payload) + more, end),
        d.key == Some(k) || (d.fallback == Some(k) && snell::open_with(
            d.key.unwrap(),
            d.nonce,
            snell::seal_with(k, d.nonce, tls::be16(payload.len() as int)),
        ) is None),
    ensures
        t == snell::read_record(d, s, eof, cap),
        t.result == part_of(payload, cap),
        payload.len() <= cap ==> hands_back(t, payload) && t.next.leftover.len() == 0,
        behind_record(d, k, payload, cap, t.next),
        incoming(t.next, t.rest, more, end),
{
    let header = tls::be16(payload.len() as int);
    let sealed = snell::seal_with(k, d.nonce, header);
    let stream = snell::record(k, d.nonce, payload) + more;
    tls::lemma_be16_round_trip(payload.len() as int);
    let h = lemma_take_exact(d, s, eof, 2 + TAG_SIZE as nat, stream, end);
    assert(stream.take(2 + TAG_SIZE as int) =~= sealed);
    let opened = snell::open_header(h.next, sealed);
    assert(opened.1 == Some(header));
    assert(snell::header_size(header) == payload.len());
    if payload.len() == 0 {
        assert(stream.skip(2 + TAG_SIZE as int) =~= more);
        assert(payload.skip(0) =~= d.leftover);
        snell::read_record(d, s, eof, cap)
    } else {
        let mid = Decoder { size: Some(payload.len()), ..opened.0 };
        let body = snell::seal_with(k, aead::next_nonce(d.nonce), payload);
        assert(stream.skip(2 + TAG_SIZE as int) =~= body + more);
        let b = lemma_take_exact(mid, h.rest, eof, payload.len() + TAG_SIZE as nat, body + more, end);
        assert((body + more).take(payload.len() + TAG_SIZE as int) =~= body);
        assert((body + more).skip(payload.len() + TAG_SIZE as int) =~= more);
        assert(payload.take(payload.len() as int) =~= payload);
        snell::read_record(d, s, eof, cap)
    }
}

/// Whether reads of up to `cap` bytes hand out the payloads, one after the other, and come to
/// `last` with `left` unread.
pub open spec fn reads_back(
    d: Decoder,
    s: Seq<u8>,
    eof: bool,
    cap: nat,
    payloads: Seq<Seq<u8>>,
    last: Decoder,
    left: Seq<u8>,
) -> bool
    decreases payloads.len(),
{
    if payloads.len() == 0 {
        last == d && left == s
    } else {
        let t = snell::snell_read(d, s, eof, cap);
        hands_back(t, payloads[0]) && reads_back(t.next, t.rest, eof, cap, payloads.drop_first(), last, left)
    }
}

/// Whether a reading half, with `s` unread, has taken in everything that the peer's writing half
/// has written.
pub open spec fn in_step(e: Encoder, d: Decoder, s: Seq<u8>) -> bool {
    &&& incoming(d, s, seq![], decode::expects(e.obfs))
    &&& d.size is None
    &&& d.leftover.len() == 0
    &&& d.key == e.key
    &&& e.key is Some ==> d.nonce == e.nonce
}

/// The payloads fit into a record each, and into a read of `cap` bytes.
pub open spec fn payloads_fit(payloads: Seq<Seq<u8>>, cap: nat) -> bool {
    forall|i: int| 0 <= i < payloads.len() ==> (#[trigger] payloads[i]).len() <= PAYLOAD_SIZE_MASK && payloads[i].len() <= cap
}

proof fn lemma_fit_rest(payloads: Seq<Seq<u8>>, cap: nat)
    requires
        payloads.len() > 0,
        payloads_fit(payloads, cap),
    ensures
        payloads_fit(payloads.drop_first(), cap),
{
    let rest = payloads.drop_first();
    assert forall|i: int| 0 <= i < rest.len() implies (#[trigger] rest[i]).len() <= PAYLOAD_SIZE_MASK && rest[i].len() <= cap by {
        assert(rest[i] == payloads[i + 1]);
    }
}

/// Some records in a row.
pub open spec fn record_stream(k: SessionKey, nonce: Seq<u8>, payloads: Seq<Seq<u8>>) -> Seq<u8>
    decreases payloads.len(),
{
    if payloads.len() == 0 {
        seq![]
    } else {
        snell::record(k, nonce, payloads[0]) + record_stream(
            k,
            snell::nonce_behind(nonce, payloads[0]),
            payloads.drop_first(),
        )
    }
}

pub proof fn lemma_nonce_behind_front(nonce: Seq<u8>, payloads: Seq<Seq<u8>>)
    requires
        payloads.len() > 0,
    ensures
        snell::nonce_behind_all(nonce, payloads) == snell::nonce_behind_all(
            snell::nonce_behind(nonce, payloads[0]),
            payloads.drop_first(),
        ),
    decreases payloads.len(),
{
    if payloads.len() == 1 {
        reveal_with_fuel(snell::nonce_behind_all, 2);
        assert(payloads.drop_last() =~= seq![]);
        assert(payloads.drop_first() =~= seq![]);
    } else {
        lemma_nonce_behind_front(nonce, payloads.drop_last());
        assert(payloads.drop_last().drop_first() =~= payloads.drop_first().drop_last());
    }
}

pub proof fn lemma_record_stream_push(k: SessionKey, nonce: Seq<u8>, payloads: Seq<Seq<u8>>, payload: Seq<u8>)
    ensures
        record_stream(k, nonce, payloads.push(payload)) == record_stream(k, nonce, payloads) + snell::record(
            k,
            snell::nonce_behind_all(nonce, payloads),
            payload,
        ),
    decreases payloads.len(),
{
    let all = payloads.push(payload);
    if payloads.len() == 0 {
        reveal_with_fuel(record_stream, 2);
        assert(all.drop_first() =~= payloads);
        assert(record_stream(k, nonce, all) =~= snell::record(k, nonce, payload));
        assert(record_stream(k, nonce, payloads) + snell::record(k, nonce, payload) =~= snell::record(k, nonce, payload));
    } else {
        let next = snell::nonce_behind(nonce, payloads[0]);
        assert(all.drop_first() =~= payloads.drop_first().push(payload));
        lemma_record_stream_push(k, next, payloads.drop_first(), payload);
        lemma_nonce_behind_front(nonce, payloads);
        let last = snell::record(k, snell::nonce_behind_all(nonce, payloads), payload);
        let first = snell::record(k, nonce, payloads[0]);
        let rest = record_stream(k, next, payloads.drop_first());
        assert(first + (rest + last) =~= (first + rest) + last);
    }
}

proof fn lemma_records_flatten(k: SessionKey, nonce: Seq<u8>, payloads: Seq<Seq<u8>>)
    ensures
        snell::records(k, nonce, payloads).flatten_alt() == record_stream(k, nonce, payloads),
    decreases payloads.len(),
{
    let all = snell::records(k, nonce, payloads);
    if payloads.len() == 0 {
        assert(all.flatten_alt() =~= seq![]);
    } else {
        let rest = payloads.drop_last();
        lemma_records_flatten(k, nonce, rest);
        lemma_record_stream_push(k, nonce, rest, payloads.last());
        assert(rest.push(payloads.last()) =~= payloads);
        assert(all.drop_last() =~= snell::records(k, nonce, rest));
    }
}

pub proof fn lemma_records_open_front(k: SessionKey, nonce: Seq<u8>, payloads: Seq<Seq<u8>>)
    requires
        payloads.len() > 0,
        snell::records_open(k, nonce, payloads),
    ensures
        snell::record_opens(k, nonce, payloads[0]),
        snell::records_open(k, snell::nonce_behind(nonce, payloads[0]), payloads.drop_first()),
    decreases payloads.len(),
{
    if payloads.len() == 1 {
        assert(payloads.drop_last() =~= seq![]);
        assert(payloads.drop_first() =~= seq![]);
    } else {
        let rest = payloads.drop_last();
        lemma_records_open_front(k, nonce, rest);
        lemma_nonce_behind_front(nonce, rest);
        assert(rest.drop_first() =~= payloads.drop_first().drop_last());
    }
}

/// Records in a row, and then more records: the nonces go on where the first ones end.
pub proof fn lemma_records_concat(k: SessionKey, nonce: Seq<u8>, a: Seq<Seq<u8>>, b: Seq<Seq<u8>>)
    ensures
        snell::nonce_behind_all(nonce, a + b) == snell::nonce_behind_all(snell::nonce_behind_all(nonce, a), b),
        record_stream(k, nonce, a + b) == record_stream(k, nonce, a) + record_stream(
            k,
            snell::nonce_behind_all(nonce, a),
            b,
        ),
        snell::records_open(k, nonce, a) && snell::records_open(k, snell::nonce_behind_all(nonce, a), b)
            ==> snell::records_open(k, nonce, a + b),
    decreases b.len(),
{
    let mid = snell::nonce_behind_all(nonce, a);
    if b.len() == 0 {
        assert(a + b =~= a);
        assert(record_stream(k, nonce, a) + record_stream(k, mid, b) =~= record_stream(k, nonce, a));
    } else {
        let front = b.drop_last();
        let last = b.last();
        assert((a + b).drop_last() =~= a + front);
        assert((a + b) =~= (a + front).push(last));
        assert(b =~= front.push(last));
        lemma_records_concat(k, nonce, a, front);
        lemma_record_stream_push(k, nonce, a + front, last);
        lemma_record_stream_push(k, mid, front, last);
        let x = record_stream(k, nonce, a);
        let y = record_stream(k, mid, front);
        let z = snell::record(k, snell::nonce_behind_all(mid, front), last);
        assert((x + y) + z =~= x + (y + z));
    }
}

/// A reading half with a session key hands out the records that come, one by one.
proof fn lemma_read_records(
    d: Decoder,
    s: Seq<u8>,
    eof: bool,
    cap: nat,
    k: SessionKey,
    payloads: Seq<Seq<u8>>,
    end: Reader,
) -> (r: (Decoder, Seq<u8>))
    requires
        d.key == Some(k),
        d.size is None,
        d.leftover.len() == 0,
        payloads_fit(payloads, cap),
        snell::records_open(k, d.nonce, payloads),
        incoming(d, s, record_stream(k, d.nonce, payloads), end),
    ensures
        reads_back(d, s, eof, cap, payloads, r.0, r.1),
        incoming(r.0, r.1, seq![], end),
        r.0 == (Decoder {
            obfs: r.0.obfs,
            enc: r.0.enc,
            nonce: snell::nonce_behind_all(d.nonce, payloads),
            fallback: if payloads.len() > 0 {
                None
            } else {
                d.fallback
            },
            ..d
        }),
    decreases payloads.len(),
{
    if payloads.len() == 0 {
        (d, s)
    } else {
        let payload = payloads[0];
        lemma_records_open_front(k, d.nonce, payloads);
        lemma_nonce_behind_front(d.nonce, payloads);
        let next = snell::nonce_behind(d.nonce, payload);
        let rest = record_stream(k, next, payloads.drop_first());
        let t = lemma_read_record(d, s, eof, cap, k, payload, rest, end);
        assert(t == snell::snell_read(d, s, eof, cap)) by {
            reveal(snell::snell_read);
        }
        lemma_fit_rest(payloads, cap);
        assert(t.next.leftover =~= d.leftover);
        lemma_read_records(t.next, t.rest, eof, cap, k, payloads.drop_first(), end)
    }
}

/// What arrives after a write: everything that the write carries is still to be opened, behind what
/// was still to be opened before.
pub proof fn lemma_arrives(
    e: Encoder,
    suite: Suite,
    psk: Seq<u8>,
    salt: Seq<u8>,
    payloads: Seq<Seq<u8>>,
    out: Seq<u8>,
    after: Encoder,
    d: Decoder,
    s: Seq<u8>,
    before: Seq<u8>,
)
    requires
        snell::sends(e, suite, psk, salt, payloads, out, after),
        incoming(d, s, before, decode::expects(e.obfs)),
        gets_through(e, salt),
    ensures
        incoming(
            d,
            s + out,
            before + (if e.key is Some {
                seq![]
            } else {
                salt
            }) + record_stream(
                snell::write_key(e, suite, psk, salt).0,
                snell::write_key(e, suite, psk, salt).1,
                payloads,
            ),
            decode::expects(after.obfs),
        ),
{
    let (k, nonce) = snell::write_key(e, suite, psk, salt);
    let recs = snell::records(k, nonce, payloads);
    let all = snell::messages(e, suite, psk, salt, payloads);
    lemma_records_flatten(k, nonce, payloads);
    let prefix: Seq<Seq<u8>> = if e.key is Some { seq![] } else { seq![salt] };
    let front: Seq<u8> = if e.key is Some { seq![] } else { salt };
    assert(prefix.flatten_alt() =~= front) by {
        if e.key is None {
            assert(prefix.drop_last() =~= seq![]);
            reveal_with_fuel(Seq::<_>::flatten_alt, 2);
        }
    }
    lemma_flatten_concat(prefix, recs);
    if all.len() > 0 {
        assert(decode::comes_through(e.obfs, all[0]));
    }
    decode::lemma_stream_comes_through(e.obfs, all, out);
    let payload = decode::decode(d.obfs, s).unwrap().0;
    decode::lemma_decode_concat(
        d.obfs,
        s,
        out,
        payload,
        decode::expects(e.obfs),
        all.flatten_alt(),
        decode::expects(after.obfs),
    );
    assert(d.enc + (payload + all.flatten_alt()) =~= before + front + record_stream(k, nonce, payloads));
}

proof fn lemma_flatten_concat(a: Seq<Seq<u8>>, b: Seq<Seq<u8>>)
    ensures
        (a + b).flatten_alt() == a.flatten_alt() + b.flatten_alt(),
    decreases b.len(),
{
    if b.len() == 0 {
        assert(a + b =~= a);
        assert(a.flatten_alt() + b.flatten_alt() =~= a.flatten_alt());
    } else {
        lemma_flatten_concat(a, b.drop_last());
        assert((a + b).drop_last() =~= a + b.drop_last());
        assert(a.flatten_alt() + (b.drop_last().flatten_alt() + b.last()) =~= (a.flatten_alt() + b.drop_last().flatten_alt())
            + b.last());
    }
}

/// Whether a reading half still belongs to the same connection: the pre-shared key and the suites
/// are the same.
pub open spec fn same_ends(d: Decoder, next: Decoder) -> bool {
    next.psk == d.psk && next.suite == d.suite && next.fallback_suite == d.fallback_suite
}

/// Whether what a writing half writes comes through: the salt is the payload of its hello.
pub open spec fn gets_through(e: Encoder, salt: Seq<u8>) -> bool {
    if e.key is Some {
        e.obfs.kind is Plain || !e.obfs.first
    } else {
        decode::comes_through(e.obfs, salt)
    }
}

/// The records that one side writes are those that the other side reads: a reading half that has
/// taken in everything before a write, and that uses the suite and the pre-shared key of the
/// writer, hands out the payloads of the write one by one, and has then taken in everything again.
pub proof fn lemma_round_trip(
    e: Encoder,
    suite: Suite,
    psk: Seq<u8>,
    salt: Seq<u8>,
    payloads: Seq<Seq<u8>>,
    out: Seq<u8>,
    after: Encoder,
    d: Decoder,
    s: Seq<u8>,
    eof: bool,
    cap: nat,
) -> (r: (Decoder, Seq<u8>))
    requires
        snell::sends(e, suite, psk, salt, payloads, out, after),
        gets_through(e, salt),
        in_step(e, d, s),
        d.suite == suite,
        d.psk == psk,
        payloads.len() > 0,
        payloads_fit(payloads, cap),
    ensures
        reads_back(d, s + out, eof, cap, payloads, r.0, r.1),
        in_step(after, r.0, r.1),
        same_ends(d, r.0),
        r.0.switched == d.switched,
{
    let (k, nonce) = snell::write_key(e, suite, psk, salt);
    let none: Seq<u8> = seq![];
    lemma_arrives(e, suite, psk, salt, payloads, out, after, d, s, none);
    let stream = record_stream(k, nonce, payloads);
    let end = decode::expects(after.obfs);
    if e.key is Some {
        assert(none + none + stream =~= stream);
        lemma_read_records(d, s + out, eof, cap, k, payloads, end)
    } else {
        assert(none + salt + stream =~= salt + stream);
        let i = lemma_read_salt(d, s + out, eof, cap, salt, stream, end);
        assert(snell::snell_read(i.next, i.rest, eof, cap) == snell::read_record(i.next, i.rest, eof, cap)) by {
            reveal(snell::snell_read);
        }
        lemma_read_records(i.next, i.rest, eof, cap, k, payloads, end)
    }
}

/// Whether a suite does not open the first record that another suite seals from the same salt.
pub open spec fn rejects(own: Suite, other: Suite, psk: Seq<u8>, salt: Seq<u8>, payload: Seq<u8>) -> bool {
    snell::open_with(
        snell::session(own, psk, salt),
        aead::zero_nonce(),
        snell::seal_with(snell::session(other, psk, salt), aead::zero_nonce(), tls::be16(payload.len() as int)),
    ) is None
}

/// A reading half that has a fallback suite takes it up where the first record is sealed in that
/// suite and does not open in its own: it hands out the payloads, and from then on the connection
/// reads and writes in the fallback suite.
pub proof fn lemma_fallback_round_trip(
    e: Encoder,
    suite: Suite,
    psk: Seq<u8>,
    salt: Seq<u8>,
    payloads: Seq<Seq<u8>>,
    out: Seq<u8>,
    after: Encoder,
    d: Decoder,
    s: Seq<u8>,
    eof: bool,
    cap: nat,
) -> (r: (Decoder, Seq<u8>))
    requires
        snell::sends(e, suite, psk, salt, payloads, out, after),
        gets_through(e, salt),
        in_step(e, d, s),
        e.key is None,
        d.fallback_suite == Some(suite),
        d.psk == psk,
        payloads.len() > 0,
        payloads_fit(payloads, cap),
        rejects(d.suite, suite, psk, salt, payloads[0]),
    ensures
        reads_back(d, s + out, eof, cap, payloads, r.0, r.1),
        in_step(after, r.0, r.1),
        same_ends(d, r.0),
        r.0.switched,
        snell::write_suite(r.0) == suite,
{
    let k = snell::session(suite, psk, salt);
    let nonce = aead::zero_nonce();
    let none: Seq<u8> = seq![];
    lemma_arrives(e, suite, psk, salt, payloads, out, after, d, s, none);
    let end = decode::expects(after.obfs);
    assert(none + salt + record_stream(k, nonce, payloads) =~= salt + record_stream(k, nonce, payloads));
    let i = lemma_read_salt(d, s + out, eof, cap, salt, record_stream(k, nonce, payloads), end);
    lemma_take_up(i.next, i.rest, eof, cap, k, payloads, end)
}

/// The salt that comes first gives the session keys.
pub proof fn lemma_read_salt(d: Decoder, s: Seq<u8>, eof: bool, cap: nat, salt: Seq<u8>, stream: Seq<u8>, end: Reader) -> (i: Taken)
    requires
        incoming(d, s, salt + stream, end),
        salt.len() == SALT_SIZE,
        d.key is None,
        d.leftover.len() == 0,
    ensures
        i.next == (Decoder {
            obfs: i.next.obfs,
            enc: i.next.enc,
            key: Some(snell::session(d.suite, d.psk, salt)),
            nonce: aead::zero_nonce(),
            fallback: match d.fallback_suite {
                Some(suite) => Some(snell::session(suite, d.psk, salt)),
                None => d.fallback,
            },
            ..d
        }),
        incoming(i.next, i.rest, stream, end),
        snell::snell_read(d, s, eof, cap) == snell::read_record(i.next, i.rest, eof, cap),
{
    reveal(snell::snell_read);
    let t = lemma_take_exact(d, s, eof, SALT_SIZE as nat, salt + stream, end);
    assert((salt + stream).take(SALT_SIZE as int) =~= salt);
    assert((salt + stream).skip(SALT_SIZE as int) =~= stream);
    snell::init_reader(d, s, eof)
}

proof fn lemma_take_up(
    d: Decoder,
    s: Seq<u8>,
    eof: bool,
    cap: nat,
    k: SessionKey,
    payloads: Seq<Seq<u8>>,
    end: Reader,
) -> (r: (Decoder, Seq<u8>))
    requires
        d.key is Some,
        d.fallback == Some(k),
        d.size is None,
        d.leftover.len() == 0,
        payloads.len() > 0,
        payloads_fit(payloads, cap),
        snell::records_open(k, d.nonce, payloads),
        incoming(d, s, record_stream(k, d.nonce, payloads), end),
        snell::open_with(
            d.key.unwrap(),
            d.nonce,
            snell::seal_with(k, d.nonce, tls::be16(payloads[0].len() as int)),
        ) is None,
    ensures
        hands_back(snell::read_record(d, s, eof, cap), payloads[0]),
        reads_back(
            snell::read_record(d, s, eof, cap).next,
            snell::read_record(d, s, eof, cap).rest,
            eof,
            cap,
            payloads.drop_first(),
            r.0,
            r.1,
        ),
        incoming(r.0, r.1, seq![], end),
        r.0 == (Decoder {
            obfs: r.0.obfs,
            enc: r.0.enc,
            key: Some(k),
            fallback: None,
            switched: true,
            nonce: snell::nonce_behind_all(d.nonce, payloads),
            ..d
        }),
{
    lemma_records_open_front(k, d.nonce, payloads);
    lemma_nonce_behind_front(d.nonce, payloads);
    lemma_fit_rest(payloads, cap);
    let next = snell::nonce_behind(d.nonce, payloads[0]);
    let rest = record_stream(k, next, payloads.drop_first());
    let first = lemma_read_record(d, s, eof, cap, k, payloads[0], rest, end);
    assert(first.next.leftover =~= d.leftover);
    lemma_read_records(first.next, first.rest, eof, cap, k, payloads.drop_first(), end)
}

/// A connection falls back on its first record alone: once a read has gone past the length of a
/// record, there is no suite left to fall back on.
pub proof fn lemma_first_record_decides(d: Decoder, s: Seq<u8>, eof: bool, cap: nat)
    requires
        d.leftover.len() == 0,
        d.size is None,
        !(snell::snell_read(d, s, eof, cap).result matches Err(stop) && snell::too_short(stop)),
    ensures
        snell::snell_read(d, s, eof, cap).next.key is Some,
        snell::snell_read(d, s, eof, cap).next.fallback is None,
{
    reveal(snell::snell_read);
    let (a, s1) = if d.key is None {
        (snell::init_reader(d, s, eof).next, snell::init_reader(d, s, eof).rest)
    } else {
        (d, s)
    };
    snell::lemma_fill_length(d, s, eof, SALT_SIZE as nat);
    snell::lemma_fill_length(a, s1, eof, 2 + TAG_SIZE as nat);
    lemma_fill_lacks(d, s, eof, SALT_SIZE as nat);
    lemma_fill_lacks(a, s1, eof, 2 + TAG_SIZE as nat);
    let h = snell::read_header(a, s1, eof);
    if h.result is Ok {
        snell::lemma_fill_length(h.next, h.rest, eof, h.next.size.unwrap() + TAG_SIZE as nat);
    }
}

/// A connection without a suite to fall back on keeps its suite and its session key, whatever
/// arrives.
pub proof fn lemma_suite_stays(d: Decoder, s: Seq<u8>, eof: bool, cap: nat)
    requires
        d.key is Some,
        d.fallback is None,
    ensures
        snell::snell_read(d, s, eof, cap).next.key == d.key,
        snell::snell_read(d, s, eof, cap).next.fallback is None,
        snell::snell_read(d, s, eof, cap).next.switched == d.switched,
        same_ends(d, snell::snell_read(d, s, eof, cap).next),
{
    reveal(snell::snell_read);
    snell::lemma_fill_length(d, s, eof, 2 + TAG_SIZE as nat);
    if d.size is Some {
        snell::lemma_fill_length(d, s, eof, d.size.unwrap() + TAG_SIZE as nat);
    } else {
        let h = snell::read_header(d, s, eof);
        if h.result is Ok {
            snell::lemma_fill_length(h.next, h.rest, eof, h.next.size.unwrap() + TAG_SIZE as nat);
        }
    }
}

/// Filling up fails only for want of bytes.
proof fn lemma_fill_lacks(d: Decoder, s: Seq<u8>, eof: bool, n: nat)
    ensures
        snell::fill(d, s, eof, n).result matches Err(stop) ==> snell::too_short(stop),
    decreases (if d.enc.len() < n { n - d.enc.len() } else { 0 }),
{
    if d.enc.len() < n {
        match obfs::obfs_read(d.obfs, s, eof, FILL_SIZE as nat) {
            Outcome::Starved => {},
            Outcome::Cut { .. } => {},
            Outcome::Data { consumed, out, next } => {
                if out.len() > 0 {
                    lemma_fill_lacks(Decoder { obfs: next, enc: d.enc + out, ..d }, s.skip(consumed as int), eof, n);
                }
            },
        }
    }
}

/// The chunks of a write fit into records, and hold the data in order.
pub proof fn lemma_chunks(data: Seq<u8>)
    ensures
        snell::chunks(data).len() > 0,
        payloads_fit(snell::chunks(data), PAYLOAD_SIZE_MASK as nat),
        snell::chunks(data).flatten() == data,
        data.len() > 0 ==> forall|i: int| 0 <= i < snell::chunks(data).len() ==> (#[trigger] snell::chunks(data)[i]).len() > 0,
    decreases data.len(),
{
    if data.len() <= PAYLOAD_SIZE_MASK {
        seq![data].lemma_flatten_one_element();
    } else {
        let first = data.take(PAYLOAD_SIZE_MASK as int);
        let rest = data.skip(PAYLOAD_SIZE_MASK as int);
        lemma_chunks(rest);
        let all = snell::chunks(data);
        assert(all.drop_first() =~= snell::chunks(rest));
        assert(first + rest =~= data);
        assert forall|i: int| 0 <= i < all.len() implies (#[trigger] all[i]).len() <= PAYLOAD_SIZE_MASK && all[i].len() > 0 by {
            if i > 0 {
                assert(all[i] == snell::chunks(rest)[i - 1]);
            }
        }
    }
}

/// Fresh ends of a connection are in step.
pub proof fn lemma_fresh_in_step(w: obfs::Writer, psk: Seq<u8>, suite: Suite, fallback_suite: Option<Suite>)
    requires
        w.first,
    ensures
        in_step(
            snell::fresh_encoder(w),
            snell::fresh_decoder(decode::peer(w.kind), psk, suite, fallback_suite),
            seq![],
        ),
{
    let d = snell::fresh_decoder(decode::peer(w.kind), psk, suite, fallback_suite);
    assert(d.obfs == decode::expects(w));
    assert(decode::decode(d.obfs, seq![]) == Some((Seq::<u8>::empty(), d.obfs)));
    assert(d.enc + Seq::<u8>::empty() =~= seq![]);
}

/// A read of few bytes of a record is a read of what the whole record holds: the rest of the record
/// is handed out by the reads that follow.
pub proof fn lemma_part_of_record(d: Decoder, s: Seq<u8>, eof: bool, big: nat, cap: nat, payload: Seq<u8>)
    requires
        d.leftover.len() == 0,
        payload.len() > 0,
        snell::snell_read(d, s, eof, big).result == Ok::<Seq<u8>, Stop>(payload),
        snell::snell_read(d, s, eof, big).next.leftover.len() == 0,
    ensures
        snell::snell_read(d, s, eof, cap) == snell::snell_read(
            Decoder { leftover: payload, ..snell::snell_read(d, s, eof, big).next },
            snell::snell_read(d, s, eof, big).rest,
            eof,
            cap,
        ),
{
    reveal(snell::snell_read);
    if d.key is None {
        let i = snell::init_reader(d, s, eof);
        lemma_part_of_payload(i.next, i.rest, eof, big, cap, payload);
    } else {
        lemma_part_of_payload(d, s, eof, big, cap, payload);
    }
}

proof fn lemma_part_of_payload(d: Decoder, s: Seq<u8>, eof: bool, big: nat, cap: nat, payload: Seq<u8>)
    requires
        payload.len() > 0,
        snell::read_record(d, s, eof, big).result == Ok::<Seq<u8>, Stop>(payload),
        snell::read_record(d, s, eof, big).next.leftover.len() == 0,
    ensures
        snell::read_record(d, s, eof, cap) == snell::snell_read(
            Decoder { leftover: payload, ..snell::read_record(d, s, eof, big).next },
            snell::read_record(d, s, eof, big).rest,
            eof,
            cap,
        ),
{
    reveal(snell::snell_read);
    let h = snell::read_header(d, s, eof);
    let (at, rest) = if d.size is Some { (d, s) } else { (h.next, h.rest) };
    let b = snell::take_exact(at, rest, eof, at.size.unwrap() + TAG_SIZE as nat);
    let c = b.result->Ok_0;
    let whole = snell::open_with(at.key.unwrap(), at.nonce, c).unwrap();
    let n = obfs::least(big, whole.len()) as int;
    assert(whole.skip(n).len() == 0);
    assert(payload =~= whole);
}

/// Number of sealed messages in some records: the length, and the payload where there is one.
pub open spec fn message_count(payloads: Seq<Seq<u8>>) -> nat
    decreases payloads.len(),
{
    if payloads.len() == 0 {
        0
    } else {
        message_count(payloads.drop_last()) + (if payloads.last().len() == 0 {
            1nat
        } else {
            2nat
        })
    }
}

/// The nonce of a direction counts its sealed messages: behind some records it stands as many steps
/// further as they hold messages.
pub proof fn lemma_nonce_counts(sealed: nat, payloads: Seq<Seq<u8>>)
    ensures
        snell::nonce_behind_all(aead::nonce_after(aead::zero_nonce(), sealed), payloads) == aead::nonce_after(
            aead::zero_nonce(),
            sealed + message_count(payloads),
        ),
    decreases payloads.len(),
{
    if payloads.len() > 0 {
        lemma_nonce_counts(sealed, payloads.drop_last());
        reveal_with_fuel(aead::nonce_after, 3);
    }
}

/// Whether some message opens to `payload` under a key.
pub open spec fn opened_with(k: SessionKey, payload: Seq<u8>) -> bool {
    exists|nonce: Seq<u8>, c: Seq<u8>| #[trigger] snell::open_with(k, nonce, c) == Some(payload)
}

/// No payload comes out that did not open: what a read hands out, and what it leaves to be handed
/// out, is together a message that opens under the session key.
pub proof fn lemma_payload_is_authentic(d: Decoder, s: Seq<u8>, eof: bool, cap: nat)
    requires
        d.leftover.len() == 0,
        snell::snell_read(d, s, eof, cap).result is Ok,
    ensures
        snell::snell_read(d, s, eof, cap).next.key is Some,
        opened_with(
            snell::snell_read(d, s, eof, cap).next.key.unwrap(),
            snell::snell_read(d, s, eof, cap).result->Ok_0 + snell::snell_read(d, s, eof, cap).next.leftover,
        ),
{
    reveal(snell::snell_read);
    let (a, s1) = if d.key is None {
        (snell::init_reader(d, s, eof).next, snell::init_reader(d, s, eof).rest)
    } else {
        (d, s)
    };
    let (b, s2) = if a.size is Some {
        (a, s1)
    } else {
        (snell::read_header(a, s1, eof).next, snell::read_header(a, s1, eof).rest)
    };
    let n = b.size.unwrap() + TAG_SIZE as nat;
    snell::lemma_fill_length(d, s, eof, SALT_SIZE as nat);
    snell::lemma_fill_length(a, s1, eof, 2 + TAG_SIZE as nat);
    snell::lemma_fill_length(b, s2, eof, n);
    let c = snell::take_exact(b, s2, eof, n).result->Ok_0;
    let payload = snell::open_with(b.key.unwrap(), b.nonce, c).unwrap();
    let k = obfs::least(cap, payload.len()) as int;
    assert(payload.take(k) + payload.skip(k) =~= payload);
}

}
