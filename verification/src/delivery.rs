//! How what is written on a connection is handed out: by reads of any size, in whatever pieces the
//! stream arrives.
use crate::aead;
use crate::aead::{Suite, PAYLOAD_SIZE_MASK, SALT_SIZE};
use crate::decode;
use crate::records;
use crate::snell;
use crate::snell::{Decoder, Encoder, SessionKey, Stop, Taken};
use crate::tls;
use vstd::prelude::*;

verus! {

// ---- What is on the way ----

/// The payloads whose records are not read yet, where `queue` is not handed out yet: all of it but
/// what is left of an opened record.
pub open spec fn unread(d: Decoder, queue: Seq<Seq<u8>>) -> Seq<Seq<u8>> {
    if d.leftover.len() > 0 {
        queue.drop_first()
    } else {
        queue
    }
}

/// The session key with which a reading half tries the next record first, where `salt` is the salt
/// of the peer.
pub open spec fn own_key(d: Decoder, salt: Seq<u8>) -> SessionKey {
    match d.key {
        Some(k) => k,
        None => snell::session(d.suite, d.psk, salt),
    }
}

/// The session key to which a reading half falls back.
pub open spec fn other_key(d: Decoder, salt: Seq<u8>) -> Option<SessionKey> {
    match d.key {
        Some(_) => d.fallback,
        None => match d.fallback_suite {
            Some(suite) => Some(snell::session(suite, d.psk, salt)),
            None => d.fallback,
        },
    }
}

/// The nonce of the next sealed message that a reading half opens.
pub open spec fn next_nonce(d: Decoder) -> Seq<u8> {
    if d.key is Some {
        d.nonce
    } else {
        aead::zero_nonce()
    }
}

/// Whether a reading half opens what is sealed with a key: that is the key that it tries, or it is
/// the one to which it falls back, and the one that it tries does not open the next record.
pub open spec fn opens_next(d: Decoder, salt: Seq<u8>, k: SessionKey, queue: Seq<Seq<u8>>) -> bool {
    own_key(d, salt) == k || {
        &&& other_key(d, salt) == Some(k)
        &&& d.leftover.len() == 0
        &&& queue.len() > 0
        &&& snell::open_with(
            own_key(d, salt),
            next_nonce(d),
            snell::seal_with(k, next_nonce(d), tls::be16(queue[0].len() as int)),
        ) is None
    }
}

/// Whether `queue` is what a writing half has written and the reading half of the peer, with `s`
/// unread, has not handed out: the payloads of the records, of the first of which a part may have
/// been handed out.
#[verifier::opaque]
pub open spec fn on_the_way(e: Encoder, salt: Seq<u8>, d: Decoder, s: Seq<u8>, queue: Seq<Seq<u8>>) -> bool {
    &&& d.size is None
    &&& match e.key {
        None => {
            &&& d.key is None
            &&& d.leftover.len() == 0
            &&& queue.len() == 0
            &&& records::incoming(d, s, seq![], decode::expects(e.obfs))
        },
        Some(k) => {
            let later = unread(d, queue);
            &&& e.obfs.kind is Plain || !e.obfs.first
            &&& salt.len() == SALT_SIZE
            &&& d.leftover.len() > 0 ==> d.key is Some && queue.len() > 0 && queue[0] == d.leftover
            &&& opens_next(d, salt, k, queue)
            &&& records::payloads_fit(later, PAYLOAD_SIZE_MASK as nat)
            &&& snell::records_open(k, next_nonce(d), later)
            &&& snell::nonce_behind_all(next_nonce(d), later) == e.nonce
            &&& records::incoming(
                d,
                s,
                (if d.key is Some {
                    seq![]
                } else {
                    salt
                }) + records::record_stream(k, next_nonce(d), later),
                decode::expects(e.obfs),
            )
        },
    }
}

/// Nothing is on the way to a reading half that has taken in everything.
pub proof fn lemma_nothing_on_the_way(e: Encoder, salt: Seq<u8>, d: Decoder, s: Seq<u8>)
    requires
        records::in_step(e, d, s),
        e.key is Some ==> (e.obfs.kind is Plain || !e.obfs.first) && salt.len() == SALT_SIZE,
    ensures
        on_the_way(e, salt, d, s, seq![]),
{
    reveal(on_the_way);
    let none: Seq<u8> = seq![];
    assert(none + none =~= none);
}

/// Where nothing is on the way and the salt has been read, the two halves are in step.
pub proof fn lemma_caught_up(e: Encoder, salt: Seq<u8>, d: Decoder, s: Seq<u8>)
    requires
        on_the_way(e, salt, d, s, seq![]),
        d.key is Some,
    ensures
        records::in_step(e, d, s),
{
    reveal(on_the_way);
    let none: Seq<u8> = seq![];
    assert(none + none =~= none);
}

/// What is on the way to a reading half is a stream of whole pieces.
pub proof fn lemma_on_the_way_is_whole(e: Encoder, salt: Seq<u8>, d: Decoder, s: Seq<u8>, queue: Seq<Seq<u8>>)
    requires
        on_the_way(e, salt, d, s, queue),
    ensures
        decode::decode(d.obfs, s) is Some,
{
    reveal(on_the_way);
}

/// Whether a reading half takes up the records that a fresh salt opens: the pre-shared key is the
/// same, and the suite is its own, or it is its fallback suite and its own does not open the first
/// record.
pub open spec fn takes_up(d: Decoder, suite: Suite, psk: Seq<u8>, salt: Seq<u8>, payloads: Seq<Seq<u8>>) -> bool {
    &&& d.psk == psk
    &&& d.suite == suite || {
        &&& d.fallback_suite == Some(suite)
        &&& payloads.len() > 0
        &&& records::rejects(d.suite, suite, psk, salt, payloads[0])
    }
}

/// A write puts its payloads on the way, behind what is on the way already.
pub proof fn lemma_write_goes_out(
    e: Encoder,
    suite: Suite,
    psk: Seq<u8>,
    salt: Seq<u8>,
    payloads: Seq<Seq<u8>>,
    out: Seq<u8>,
    after: Encoder,
    first_salt: Seq<u8>,
    d: Decoder,
    s: Seq<u8>,
    queue: Seq<Seq<u8>>,
)
    requires
        on_the_way(e, first_salt, d, s, queue),
        snell::sends(e, suite, psk, salt, payloads, out, after),
        records::payloads_fit(payloads, PAYLOAD_SIZE_MASK as nat),
        e.key is None ==> takes_up(d, suite, psk, salt, payloads) && records::gets_through(e, salt),
    ensures
        on_the_way(
            after,
            if e.key is None {
                salt
            } else {
                first_salt
            },
            d,
            s + out,
            queue + payloads,
        ),
{
    reveal(on_the_way);
    let all = queue + payloads;
    let none: Seq<u8> = seq![];
    let (k, nonce) = snell::write_key(e, suite, psk, salt);
    if e.key is None {
        records::lemma_arrives(e, suite, psk, salt, payloads, out, after, d, s, none);
        assert(none + salt + records::record_stream(k, nonce, payloads) =~= salt + records::record_stream(
            k,
            nonce,
            payloads,
        ));
        assert(all =~= payloads);
    } else {
        let later = unread(d, queue);
        let start = next_nonce(d);
        let front: Seq<u8> = if d.key is Some { none } else { first_salt };
        let before = front + records::record_stream(k, start, later);
        records::lemma_arrives(e, suite, psk, salt, payloads, out, after, d, s, before);
        records::lemma_records_concat(k, start, later, payloads);
        assert(unread(d, all) =~= later + payloads);
        assert(before + none + records::record_stream(k, nonce, payloads) =~= front + (records::record_stream(
            k,
            start,
            later,
        ) + records::record_stream(k, nonce, payloads)));
        lemma_fit_concat(later, payloads);
    }
}

proof fn lemma_fit_concat(a: Seq<Seq<u8>>, b: Seq<Seq<u8>>)
    requires
        records::payloads_fit(a, PAYLOAD_SIZE_MASK as nat),
        records::payloads_fit(b, PAYLOAD_SIZE_MASK as nat),
    ensures
        records::payloads_fit(a + b, PAYLOAD_SIZE_MASK as nat),
{
    let all = a + b;
    assert forall|i: int| 0 <= i < all.len() implies (#[trigger] all[i]).len() <= PAYLOAD_SIZE_MASK by {
        if i < a.len() {
            assert(all[i] == a[i]);
        } else {
            assert(all[i] == b[i - a.len()]);
        }
    }
}

// ---- Reads of any size ----

/// What is on the way behind a read of up to `cap` bytes: the rest of the first payload, where it
/// holds more, and the others.
pub open spec fn served(queue: Seq<Seq<u8>>, cap: nat) -> Seq<Seq<u8>> {
    if queue[0].len() <= cap {
        queue.drop_first()
    } else {
        queue.update(0, queue[0].skip(cap as int))
    }
}

/// The salt that is on the way first does not change what a read does.
proof fn lemma_salt_first(e: Encoder, salt: Seq<u8>, d: Decoder, s: Seq<u8>, queue: Seq<Seq<u8>>, eof: bool, cap: nat) -> (r: (
    Decoder,
    Seq<u8>,
))
    requires
        on_the_way(e, salt, d, s, queue),
        e.key is Some,
        d.key is None,
    ensures
        on_the_way(e, salt, r.0, r.1, queue),
        r.0.key == Some(own_key(d, salt)),
        r.0.leftover == d.leftover,
        r.0.switched == d.switched,
        records::same_ends(d, r.0),
        snell::snell_read(d, s, eof, cap) == snell::snell_read(r.0, r.1, eof, cap),
{
    reveal(on_the_way);
    let k = e.key.unwrap();
    let none: Seq<u8> = seq![];
    let stream = records::record_stream(k, aead::zero_nonce(), queue);
    let i = records::lemma_read_salt(d, s, eof, cap, salt, stream, decode::expects(e.obfs));
    assert(none + stream =~= stream);
    assert(snell::snell_read(i.next, i.rest, eof, cap) == snell::read_record(i.next, i.rest, eof, cap)) by {
        reveal(snell::snell_read);
    }
    (i.next, i.rest)
}

/// A read hands out what comes next of what is on the way, as much of one record as it is asked
/// for, and leaves the rest on the way; it reports a record without payload.
pub proof fn lemma_read_serves(
    e: Encoder,
    salt: Seq<u8>,
    d: Decoder,
    s: Seq<u8>,
    queue: Seq<Seq<u8>>,
    eof: bool,
    cap: nat,
) -> (t: Taken)
    requires
        on_the_way(e, salt, d, s, queue),
        queue.len() > 0,
        cap > 0,
    ensures
        t == snell::snell_read(d, s, eof, cap),
        t.result == records::part_of(queue[0], cap),
        on_the_way(e, salt, t.next, t.rest, served(queue, cap)),
        records::same_ends(d, t.next),
        e.key is Some,
        t.next.key == e.key,
        t.next.switched == (d.switched || Some(own_key(d, salt)) != e.key),
    decreases (if d.key is None { 1int } else { 0 }),
{
    reveal(on_the_way);
    let k = e.key.unwrap();
    if d.key is None {
        let r = lemma_salt_first(e, salt, d, s, queue, eof, cap);
        lemma_read_serves(e, salt, r.0, r.1, queue, eof, cap)
    } else if d.leftover.len() > 0 {
        lemma_serves_leftover(e, salt, d, s, queue, eof, cap)
    } else {
        let none: Seq<u8> = seq![];
        let payload = queue[0];
        let end = decode::expects(e.obfs);
        records::lemma_records_open_front(k, d.nonce, queue);
        records::lemma_nonce_behind_front(d.nonce, queue);
        let rest = records::record_stream(k, snell::nonce_behind(d.nonce, payload), queue.drop_first());
        assert(none + records::record_stream(k, d.nonce, queue) =~= snell::record(k, d.nonce, payload) + rest);
        let t = records::lemma_read_record(d, s, eof, cap, k, payload, rest, end);
        assert(t == snell::snell_read(d, s, eof, cap)) by {
            reveal(snell::snell_read);
        }
        assert(none + rest =~= rest);
        lemma_fit_served(queue);
        let left = served(queue, cap);
        assert(unread(t.next, left) =~= queue.drop_first());
        t
    }
}

proof fn lemma_fit_served(queue: Seq<Seq<u8>>)
    requires
        queue.len() > 0,
        records::payloads_fit(queue, PAYLOAD_SIZE_MASK as nat),
    ensures
        records::payloads_fit(queue.drop_first(), PAYLOAD_SIZE_MASK as nat),
{
    let rest = queue.drop_first();
    assert forall|i: int| 0 <= i < rest.len() implies (#[trigger] rest[i]).len() <= PAYLOAD_SIZE_MASK by {
        assert(rest[i] == queue[i + 1]);
    }
}

proof fn lemma_serves_leftover(
    e: Encoder,
    salt: Seq<u8>,
    d: Decoder,
    s: Seq<u8>,
    queue: Seq<Seq<u8>>,
    eof: bool,
    cap: nat,
) -> (t: Taken)
    requires
        on_the_way(e, salt, d, s, queue),
        e.key is Some,
        d.key is Some,
        d.leftover.len() > 0,
        cap > 0,
    ensures
        t == snell::snell_read(d, s, eof, cap),
        t.result == records::part_of(queue[0], cap),
        on_the_way(e, salt, t.next, t.rest, served(queue, cap)),
        records::same_ends(d, t.next),
        t.next.key == e.key,
        t.next.switched == d.switched,
{
    reveal(on_the_way);
    reveal(snell::snell_read);
    let t = snell::snell_read(d, s, eof, cap);
    let left = served(queue, cap);
    assert(unread(t.next, left) =~= queue.drop_first());
    t
}

/// Where nothing is on the way a read lacks bytes. Nothing is lost by that, nor by the end of the
/// stream, once anything has been written.
pub proof fn lemma_read_waits(e: Encoder, salt: Seq<u8>, d: Decoder, s: Seq<u8>, eof: bool, cap: nat) -> (t: Taken)
    requires
        on_the_way(e, salt, d, s, seq![]),
    ensures
        t == snell::snell_read(d, s, eof, cap),
        t.result == Err::<Seq<u8>, Stop>(records::want(decode::expects(e.obfs), eof)),
        !eof || e.key is Some ==> on_the_way(e, salt, t.next, t.rest, seq![]),
        records::same_ends(d, t.next),
        t.next.switched == d.switched,
        d.key == e.key ==> t.next.key == e.key,
    decreases (if d.key is None { 1int } else { 0 }),
{
    reveal(on_the_way);
    let none: Seq<u8> = seq![];
    let end = decode::expects(e.obfs);
    if e.key is Some && d.key is None {
        let r = lemma_salt_first(e, salt, d, s, seq![], eof, cap);
        lemma_read_waits(e, salt, r.0, r.1, eof, cap)
    } else {
        reveal(snell::snell_read);
        assert(none + none =~= none);
        let n = if d.key is None { SALT_SIZE as nat } else { 2 + aead::TAG_SIZE as nat };
        let t = records::lemma_take_exact(d, s, eof, n, none, end);
        snell::snell_read(d, s, eof, cap)
    }
}

/// What some reads come to, one after the other: the reading half and the unread bytes behind them,
/// the parts that they hand out, and what stops them, where one of them fails.
pub struct Run {
    pub next: Decoder,
    pub rest: Seq<u8>,
    pub parts: Seq<Seq<u8>>,
    pub stop: Option<Stop>,
}

/// Reads one after the other, of up to as many bytes as `caps` tells, until one fails.
pub open spec fn reads(d: Decoder, s: Seq<u8>, eof: bool, caps: Seq<nat>) -> Run
    decreases caps.len(),
{
    if caps.len() == 0 {
        Run { next: d, rest: s, parts: seq![], stop: None }
    } else {
        let t = snell::snell_read(d, s, eof, caps[0]);
        match t.result {
            Err(stop) => Run { next: t.next, rest: t.rest, parts: seq![], stop: Some(stop) },
            Ok(part) => {
                let r = reads(t.next, t.rest, eof, caps.drop_first());
                Run { parts: seq![part] + r.parts, ..r }
            },
        }
    }
}

/// Whether there is something in each part.
pub open spec fn none_empty(parts: Seq<Seq<u8>>) -> bool {
    forall|i: int| 0 <= i < parts.len() ==> (#[trigger] parts[i]).len() > 0
}

/// Whether something is asked for in each read.
pub open spec fn asks(caps: Seq<nat>) -> bool {
    forall|i: int| 0 <= i < caps.len() ==> #[trigger] caps[i] > 0
}

/// Whether each part holds something, and no more than its read asks for.
pub open spec fn fills(parts: Seq<Seq<u8>>, caps: Seq<nat>) -> bool {
    &&& parts.len() <= caps.len()
    &&& forall|i: int| 0 <= i < parts.len() ==> 0 < (#[trigger] parts[i]).len() <= caps[i]
}

/// What reads of any size come to, where the payloads of `full` and then those of `behind` are on
/// the way, and the first of `behind`, if any, is empty: the parts are what `full` holds, in order,
/// up to `left`, which is still on the way; and the reads stop only behind all of it, at the empty
/// payload, or for want of bytes.
pub open spec fn hands_out_all(
    e: Encoder,
    salt: Seq<u8>,
    full: Seq<Seq<u8>>,
    behind: Seq<Seq<u8>>,
    eof: bool,
    caps: Seq<nat>,
    r: Run,
    left: Seq<Seq<u8>>,
) -> bool {
    &&& fills(r.parts, caps)
    &&& none_empty(left)
    &&& r.parts.flatten() + left.flatten() == full.flatten()
    &&& match r.stop {
        None => r.parts.len() == caps.len() && on_the_way(e, salt, r.next, r.rest, left + behind),
        Some(stop) => left.len() == 0 && if behind.len() > 0 {
            stop == Stop::ZeroChunk && on_the_way(e, salt, r.next, r.rest, behind.drop_first())
        } else {
            stop == records::want(decode::expects(e.obfs), eof) && (!eof || e.key is Some ==> on_the_way(
                e,
                salt,
                r.next,
                r.rest,
                behind,
            ))
        },
    }
}

/// Reads of any size hand out what is on the way, in order and without a gap, each of them
/// something; they stop only behind all of it.
pub proof fn lemma_reads_hand_out(
    e: Encoder,
    salt: Seq<u8>,
    d: Decoder,
    s: Seq<u8>,
    full: Seq<Seq<u8>>,
    behind: Seq<Seq<u8>>,
    eof: bool,
    caps: Seq<nat>,
) -> (left: Seq<Seq<u8>>)
    requires
        on_the_way(e, salt, d, s, full + behind),
        none_empty(full),
        behind.len() > 0 ==> behind[0].len() == 0,
        asks(caps),
    ensures
        hands_out_all(e, salt, full, behind, eof, caps, reads(d, s, eof, caps), left),
        records::same_ends(d, reads(d, s, eof, caps).next),
        reads(d, s, eof, caps).parts.len() > 0 || d.key == e.key ==> {
            &&& reads(d, s, eof, caps).next.key == e.key
            &&& e.key is Some ==> reads(d, s, eof, caps).next.switched == (d.switched || Some(
                own_key(d, salt),
            ) != e.key)
        },
        caps.len() > full.flatten().len() ==> reads(d, s, eof, caps).stop is Some,
    decreases caps.len(),
{
    let r = reads(d, s, eof, caps);
    let queue = full + behind;
    let none: Seq<Seq<u8>> = seq![];
    assert(none.flatten() =~= seq![]);
    if caps.len() == 0 {
        assert(none.flatten() + full.flatten() =~= full.flatten());
        full
    } else if full.len() == 0 {
        assert(queue =~= behind);
        assert(full =~= none);
        assert(none.flatten() + none.flatten() =~= none.flatten());
        if behind.len() == 0 {
            assert(behind =~= none);
            let t = lemma_read_waits(e, salt, d, s, eof, caps[0]);
        } else {
            let t = lemma_read_serves(e, salt, d, s, queue, eof, caps[0]);
        }
        none
    } else {
        let cap = caps[0];
        let t = lemma_read_serves(e, salt, d, s, queue, eof, cap);
        let part = t.result->Ok_0;
        let full_left = served(full, cap);
        assert(full[0].len() > 0);
        assert(queue[0] == full[0]);
        assert(served(queue, cap) =~= full_left + behind);
        lemma_served(full, cap);
        assert(asks(caps.drop_first())) by {
            assert forall|i: int| 0 <= i < caps.drop_first().len() implies #[trigger] caps.drop_first()[i] > 0 by {
                assert(caps.drop_first()[i] == caps[i + 1]);
            }
        }
        let left = lemma_reads_hand_out(e, salt, t.next, t.rest, full_left, behind, eof, caps.drop_first());
        let later = reads(t.next, t.rest, eof, caps.drop_first());
        assert(r.parts.drop_first() =~= later.parts);
        assert(r.parts.flatten() == part + later.parts.flatten());
        assert(r.parts.flatten() + left.flatten() =~= part + (later.parts.flatten() + left.flatten()));
        assert forall|i: int| 0 <= i < r.parts.len() implies 0 < (#[trigger] r.parts[i]).len() <= caps[i] by {
            if i > 0 {
                assert(r.parts[i] == later.parts[i - 1]);
                assert(caps.drop_first()[i - 1] == caps[i]);
            }
        }
        left
    }
}

/// What is left of some payloads behind a read.
pub proof fn lemma_served(full: Seq<Seq<u8>>, cap: nat)
    requires
        full.len() > 0,
        none_empty(full),
        cap > 0,
    ensures
        none_empty(served(full, cap)),
        full.flatten() == records::part_of(full[0], cap)->Ok_0 + served(full, cap).flatten(),
        records::part_of(full[0], cap)->Ok_0.len() > 0,
        records::part_of(full[0], cap)->Ok_0.len() <= cap,
{
    let rest = served(full, cap);
    let part = records::part_of(full[0], cap)->Ok_0;
    assert(full[0].len() > 0);
    assert forall|i: int| 0 <= i < rest.len() implies (#[trigger] rest[i]).len() > 0 by {
        if full[0].len() <= cap {
            assert(rest[i] == full[i + 1]);
        } else if i > 0 {
            assert(rest[i] == full[i]);
        }
    }
    if full[0].len() <= cap {
        assert(part =~= full[0]);
    } else {
        assert(rest.drop_first() =~= full.drop_first());
        assert(part + (full[0].skip(cap as int) + rest.drop_first().flatten()) =~= full[0] + full.drop_first().flatten());
    }
}

proof fn lemma_parts_count(parts: Seq<Seq<u8>>)
    requires
        none_empty(parts),
    ensures
        parts.flatten().len() >= parts.len(),
    decreases parts.len(),
{
    if parts.len() > 0 {
        let rest = parts.drop_first();
        assert(parts[0].len() > 0);
        assert forall|i: int| 0 <= i < rest.len() implies (#[trigger] rest[i]).len() > 0 by {
            assert(rest[i] == parts[i + 1]);
        }
        lemma_parts_count(rest);
    }
}

/// What reads of any size of some data come to: each hands out something, together they hand out
/// the data from its front, and all of it once there were enough of them; they do not stop before,
/// and then for `lack`, the want of bytes.
pub open spec fn handed_out(data: Seq<u8>, lack: Stop, caps: Seq<nat>, r: Run) -> bool {
    &&& fills(r.parts, caps)
    &&& r.parts.flatten().is_prefix_of(data)
    &&& caps.len() >= data.len() ==> r.parts.flatten() == data
    &&& r.stop is None ==> r.parts.len() == caps.len()
    &&& r.stop is Some ==> r.parts.flatten() == data && r.stop == Some(lack)
}

/// What the parts are that reads hand out, and when they are all.
pub proof fn lemma_handed_out(
    e: Encoder,
    salt: Seq<u8>,
    full: Seq<Seq<u8>>,
    behind: Seq<Seq<u8>>,
    eof: bool,
    caps: Seq<nat>,
    r: Run,
    left: Seq<Seq<u8>>,
)
    requires
        hands_out_all(e, salt, full, behind, eof, caps, r, left),
    ensures
        r.parts.flatten().is_prefix_of(full.flatten()),
        caps.len() >= full.flatten().len() ==> r.parts.flatten() == full.flatten(),
        r.stop is Some ==> r.parts.flatten() == full.flatten(),
        r.parts.flatten() == full.flatten() ==> left.len() == 0,
        behind.len() == 0 ==> handed_out(full.flatten(), records::want(decode::expects(e.obfs), eof), caps, r),
{
    let none: Seq<Seq<u8>> = seq![];
    lemma_parts_count(r.parts);
    lemma_parts_count(left);
    assert(r.parts.flatten() =~= full.flatten().take(r.parts.flatten().len() as int));
    if left.len() == 0 {
        assert(left =~= none);
        assert(r.parts.flatten() + left.flatten() =~= r.parts.flatten());
    }
}

/// What is written is what is read, whatever the sizes of the reads: reads of any sizes hand out
/// the payloads of a write in order and without a gap, each of them something, until all of it is
/// handed out; then the reading half has taken in everything. The same holds where the reading half
/// has to fall back on the suite of the writer.
pub proof fn lemma_any_read_size(
    e: Encoder,
    suite: Suite,
    psk: Seq<u8>,
    salt: Seq<u8>,
    payloads: Seq<Seq<u8>>,
    out: Seq<u8>,
    after: Encoder,
    d: Decoder,
    s: Seq<u8>,
    eof: bool,
    caps: Seq<nat>,
)
    requires
        snell::sends(e, suite, psk, salt, payloads, out, after),
        records::gets_through(e, salt),
        records::in_step(e, d, s),
        e.key is None ==> takes_up(d, suite, psk, salt, payloads),
        payloads.len() > 0,
        none_empty(payloads),
        records::payloads_fit(payloads, PAYLOAD_SIZE_MASK as nat),
        asks(caps),
    ensures
        handed_out(
            payloads.flatten(),
            records::want(decode::expects(after.obfs), eof),
            caps,
            reads(d, s + out, eof, caps),
        ),
        reads(d, s + out, eof, caps).parts.flatten() == payloads.flatten() ==> records::in_step(
            after,
            reads(d, s + out, eof, caps).next,
            reads(d, s + out, eof, caps).rest,
        ),
        records::same_ends(d, reads(d, s + out, eof, caps).next),
        e.key is None && d.suite != suite && reads(d, s + out, eof, caps).parts.len() > 0 ==> snell::write_suite(
            reads(d, s + out, eof, caps).next,
        ) == suite,
{
    let none: Seq<Seq<u8>> = seq![];
    let r = reads(d, s + out, eof, caps);
    lemma_nothing_on_the_way(e, salt, d, s);
    lemma_write_goes_out(e, suite, psk, salt, payloads, out, after, salt, d, s, none);
    assert(none + payloads =~= payloads + none);
    let left = lemma_reads_hand_out(after, salt, d, s + out, payloads, none, eof, caps);
    lemma_handed_out(after, salt, payloads, none, eof, caps, r, left);
    if r.parts.flatten() == payloads.flatten() {
        assert(left + none =~= none);
        lemma_parts_count(payloads);
        if r.parts.len() == 0 {
            assert(r.parts =~= none);
            assert(none.flatten() =~= seq![]);
        }
        lemma_caught_up(after, salt, r.next, r.rest);
    }
}

/// A record without payload between two writes is reported just once: not before all of the first
/// write has been handed out, by reads of any sizes, and at the latest by the read after that; and
/// the reads that follow hand out the second write.
pub proof fn lemma_zero_chunk_between(
    e: Encoder,
    suite: Suite,
    psk: Seq<u8>,
    salts: (Seq<u8>, Seq<u8>, Seq<u8>),
    first: Seq<u8>,
    second: Seq<u8>,
    outs: (Seq<u8>, Seq<u8>, Seq<u8>),
    mid: (Encoder, Encoder),
    after: Encoder,
    d: Decoder,
    s: Seq<u8>,
    eof: bool,
    caps: Seq<nat>,
    more_caps: Seq<nat>,
)
    requires
        first.len() > 0,
        second.len() > 0,
        snell::sends(e, suite, psk, salts.0, snell::chunks(first), outs.0, mid.0),
        snell::sends(mid.0, suite, psk, salts.1, snell::chunks(seq![]), outs.1, mid.1),
        snell::sends(mid.1, suite, psk, salts.2, snell::chunks(second), outs.2, after),
        records::gets_through(e, salts.0),
        records::in_step(e, d, s),
        e.key is None ==> takes_up(d, suite, psk, salts.0, snell::chunks(first)),
        asks(caps),
        asks(more_caps),
    ensures
        ({
            let r = reads(d, s + outs.0 + outs.1 + outs.2, eof, caps);
            let q = reads(r.next, r.rest, eof, more_caps);
            &&& fills(r.parts, caps)
            &&& r.parts.flatten().is_prefix_of(first)
            &&& caps.len() > first.len() ==> r.stop is Some
            &&& r.stop is Some ==> {
                &&& r.parts.flatten() == first
                &&& r.stop == Some(Stop::ZeroChunk)
                &&& handed_out(second, records::want(decode::expects(after.obfs), eof), more_caps, q)
                &&& q.parts.flatten() == second ==> records::in_step(after, q.next, q.rest)
            }
        }),
{
    let none: Seq<Seq<u8>> = seq![];
    let zero: Seq<u8> = seq![];
    let x = snell::chunks(first);
    let y = snell::chunks(second);
    let z = snell::chunks(zero);
    let whole = s + outs.0 + outs.1 + outs.2;
    assert(z =~= seq![zero]);
    records::lemma_chunks(first);
    records::lemma_chunks(second);
    records::lemma_chunks(zero);
    lemma_nothing_on_the_way(e, salts.0, d, s);
    lemma_write_goes_out(e, suite, psk, salts.0, x, outs.0, mid.0, salts.0, d, s, none);
    lemma_write_goes_out(mid.0, suite, psk, salts.1, z, outs.1, mid.1, salts.0, d, s + outs.0, none + x);
    lemma_write_goes_out(mid.1, suite, psk, salts.2, y, outs.2, after, salts.0, d, s + outs.0 + outs.1, none + x + z);
    let behind = z + y;
    assert(none + x + z + y =~= x + behind);
    let left = lemma_reads_hand_out(after, salts.0, d, whole, x, behind, eof, caps);
    let r = reads(d, whole, eof, caps);
    lemma_handed_out(after, salts.0, x, behind, eof, caps, r, left);
    if r.stop is Some {
        let q = reads(r.next, r.rest, eof, more_caps);
        assert(behind.drop_first() =~= y + none);
        let rest = lemma_reads_hand_out(after, salts.0, r.next, r.rest, y, none, eof, more_caps);
        lemma_handed_out(after, salts.0, y, none, eof, more_caps, q, rest);
        if q.parts.flatten() == second {
            assert(rest + none =~= none);
            if q.parts.len() == 0 {
                assert(q.parts =~= none);
                assert(none.flatten() =~= seq![]);
            }
            lemma_caught_up(after, salts.0, q.next, q.rest);
        }
    }
}

}
