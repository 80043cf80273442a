//! UDP over a Snell connection: each record carries one datagram with the target that it is for.
use crate::addr;
use crate::addr::SocketAddr;
use crate::handshake;
use crate::snell::CMD_UDP_FORWARD;
use crate::text;
use crate::tls;
use lru::LruCache;
use vstd::prelude::*;

verus! {

// ---- The cache of resolved targets ----

/// The least recently used cache of the `lru` crate.
#[verifier::external_type_specification]
#[verifier::external_body]
#[verifier::reject_recursive_types(K)]
#[verifier::reject_recursive_types(V)]
#[verifier::reject_recursive_types(S)]
pub struct ExLruCache<K, V, S>(lru::LruCache<K, V, S>);

/// The hasher state of a cache.
#[verifier::external_type_specification]
#[verifier::external_body]
pub struct ExDefaultHasher(lru::DefaultHasher);

/// Name of what a cache holds: targets and their addresses, the one used last at the front.
pub uninterp spec fn cache_entries(c: LruCache<String, SocketAddr>) -> Seq<(Seq<char>, SocketAddr)>;

/// Name of the number of entries that a cache was made for.
pub uninterp spec fn cache_capacity(c: LruCache<String, SocketAddr>) -> nat;

/// The position of a target in a cache, or the length where it is not held.
pub open spec fn position(entries: Seq<(Seq<char>, SocketAddr)>, target: Seq<char>) -> int
    decreases entries.len(),
{
    if entries.len() == 0 || entries[0].0 == target {
        0
    } else {
        1 + position(entries.drop_first(), target)
    }
}

/// The entries with the one at a position moved to the front.
pub open spec fn promoted(entries: Seq<(Seq<char>, SocketAddr)>, i: int) -> Seq<(Seq<char>, SocketAddr)> {
    seq![entries[i]] + entries.remove(i)
}

/// The entries after a target was put in: it stands at the front, in place of its older entry, or
/// of the last entry of a full cache.
pub open spec fn with_entry(
    entries: Seq<(Seq<char>, SocketAddr)>,
    capacity: nat,
    target: Seq<char>,
    a: SocketAddr,
) -> Seq<(Seq<char>, SocketAddr)> {
    let i = position(entries, target);
    let others = if i < entries.len() {
        entries.remove(i)
    } else if entries.len() == capacity {
        entries.drop_last()
    } else {
        entries
    };
    seq![(target, a)] + others
}

/// Calls `lru::LruCache::new`.
///
/// The cache is empty, and holds as many entries as it is made for. The call allocates for all of
/// them at once, so that numbers that no allocation can serve are left out.
#[verifier::external_body]
fn new_cache(capacity: usize) -> (c: LruCache<String, SocketAddr>)
    requires
        0 < capacity <= 0xffff,
    ensures
        cache_entries(c) == Seq::<(Seq<char>, SocketAddr)>::empty(),
        cache_capacity(c) == capacity,
{
    LruCache::new(std::num::NonZeroUsize::new(capacity).unwrap())
}

/// Calls `lru::LruCache::get`.
///
/// An entry that is held is handed out and moved to the front.
#[verifier::external_body]
fn get_cached(c: &mut LruCache<String, SocketAddr>, target: &str) -> (r: Option<SocketAddr>)
    ensures
        cache_capacity(*final(c)) == cache_capacity(*old(c)),
        position(cache_entries(*old(c)), target@) < cache_entries(*old(c)).len() ==> {
            &&& r == Some(cache_entries(*old(c))[position(cache_entries(*old(c)), target@)].1)
            &&& cache_entries(*final(c)) == promoted(cache_entries(*old(c)), position(cache_entries(*old(c)), target@))
        },
        position(cache_entries(*old(c)), target@) >= cache_entries(*old(c)).len() ==> r is None && cache_entries(*final(c))
            == cache_entries(*old(c)),
{
    c.get(target).copied()
}

/// Calls `lru::LruCache::put`.
///
/// The entry stands at the front. An older entry of the same target is replaced and its address
/// handed back; else the last entry of a full cache leaves.
#[verifier::external_body]
fn put_cached(c: &mut LruCache<String, SocketAddr>, target: String, a: SocketAddr) -> (r: Option<SocketAddr>)
    ensures
        cache_capacity(*final(c)) == cache_capacity(*old(c)),
        cache_entries(*final(c)) == with_entry(cache_entries(*old(c)), cache_capacity(*old(c)), target@, a),
        r == (if position(cache_entries(*old(c)), target@) < cache_entries(*old(c)).len() {
            Some(cache_entries(*old(c))[position(cache_entries(*old(c)), target@)].1)
        } else {
            None
        }),
{
    c.put(target, a)
}

/// Number of targets that a relay keeps the addresses of.
pub const CACHE_SIZE: usize = 256;

/// No target is held twice, and no more targets are held than there is room for.
pub open spec fn cache_ok(entries: Seq<(Seq<char>, SocketAddr)>, capacity: nat) -> bool {
    &&& entries.len() <= capacity
    &&& forall|i: int, j: int| 0 <= i < j < entries.len() ==> (#[trigger] entries[i]).0 != (#[trigger] entries[j]).0
}

/// `position` is where a target is held.
pub proof fn lemma_position(entries: Seq<(Seq<char>, SocketAddr)>, target: Seq<char>)
    ensures
        0 <= position(entries, target) <= entries.len(),
        position(entries, target) < entries.len() ==> entries[position(entries, target)].0 == target,
        forall|i: int| 0 <= i < position(entries, target) ==> (#[trigger] entries[i]).0 != target,
    decreases entries.len(),
{
    if entries.len() > 0 && entries[0].0 != target {
        lemma_position(entries.drop_first(), target);
        assert forall|i: int| 0 <= i < position(entries, target) implies (#[trigger] entries[i]).0 != target by {
            if i > 0 {
                assert(entries.drop_first()[i - 1] == entries[i]);
            }
        }
    }
}

proof fn lemma_remove_ok(entries: Seq<(Seq<char>, SocketAddr)>, capacity: nat, i: int)
    requires
        cache_ok(entries, capacity),
        0 <= i < entries.len(),
    ensures
        cache_ok(entries.remove(i), capacity),
        forall|j: int| 0 <= j < entries.remove(i).len() ==> (#[trigger] entries.remove(i)[j]).0 != entries[i].0,
{
    let rest = entries.remove(i);
    assert forall|j: int| 0 <= j < rest.len() implies (#[trigger] rest[j]).0 != entries[i].0 by {
        if j < i {
            assert(rest[j] == entries[j]);
        } else {
            assert(rest[j] == entries[j + 1]);
        }
    }
    assert forall|a: int, b: int| 0 <= a < b < rest.len() implies (#[trigger] rest[a]).0 != (#[trigger] rest[b]).0 by {
        let x = if a < i { a } else { a + 1 };
        let y = if b < i { b } else { b + 1 };
        assert(rest[a] == entries[x]);
        assert(rest[b] == entries[y]);
    }
}

/// Looking a target up and putting one in keep a cache in order: no target is held twice, and no
/// more are held than there is room for.
pub proof fn lemma_cache_stays_ok(entries: Seq<(Seq<char>, SocketAddr)>, capacity: nat, target: Seq<char>, a: SocketAddr)
    requires
        capacity > 0,
        cache_ok(entries, capacity),
    ensures
        position(entries, target) < entries.len() ==> cache_ok(promoted(entries, position(entries, target)), capacity),
        cache_ok(with_entry(entries, capacity, target, a), capacity),
        position(with_entry(entries, capacity, target, a), target) == 0,
        with_entry(entries, capacity, target, a)[0] == (target, a),
{
    let i = position(entries, target);
    lemma_position(entries, target);
    if i < entries.len() {
        lemma_remove_ok(entries, capacity, i);
    } else if entries.len() == capacity {
        let kept = entries.drop_last();
        assert forall|j: int| 0 <= j < kept.len() implies (#[trigger] kept[j]).0 != target by {
            assert(kept[j] == entries[j]);
        }
        assert forall|x: int, y: int| 0 <= x < y < kept.len() implies (#[trigger] kept[x]).0 != (#[trigger] kept[y]).0 by {
            assert(kept[x] == entries[x]);
            assert(kept[y] == entries[y]);
        }
    }
}

// ---- Frames ----

/// Where the host of a frame ends: behind an address of the version that stands in front of it, or
/// behind a name of the length that stands in front of it. `None` for an unknown version.
pub open spec fn host_end(f: Seq<u8>) -> Option<int> {
    if f[1] > 0 {
        Some(2 + f[1] as int)
    } else if f[2] == 4 {
        Some(7)
    } else if f[2] == 6 {
        Some(19)
    } else {
        None
    }
}

/// The host that a frame names.
pub open spec fn host_text(f: Seq<u8>) -> Seq<char> {
    if f[1] > 0 {
        text::lossy_text(f.subrange(2, 2 + f[1] as int))
    } else if f[2] == 4 {
        addr::ipv4_text(f.subrange(3, 7))
    } else {
        addr::ipv6_text(f.subrange(3, 19))
    }
}

/// Why bytes are no frame.
#[derive(Clone, Copy, PartialEq, Eq, Structural, Debug)]
pub enum FrameFault {
    /// There are too few of them for any frame.
    Short(usize),
    /// The command is not known.
    Command(u8),
    /// The version of the IP address is not known.
    IpVersion(u8),
    /// They end inside the host or the port.
    Truncated,
}

/// The target and the datagram of a frame, or why the bytes are no frame.
pub open spec fn udp_frame(f: Seq<u8>) -> Result<(Seq<char>, Seq<u8>), FrameFault> {
    if f.len() < 5 {
        Err(FrameFault::Short(f.len() as usize))
    } else if f[0] != CMD_UDP_FORWARD {
        Err(FrameFault::Command(f[0]))
    } else {
        match host_end(f) {
            None => Err(FrameFault::IpVersion(f[2])),
            Some(end) => if f.len() < end + 2 {
                Err(FrameFault::Truncated)
            } else {
                Ok((handshake::target_text(host_text(f), tls::from_be16(f[end], f[end + 1])), f.skip(end + 2)))
            },
        }
    }
}

/// The target and the datagram of a frame.
pub fn parse_frame(f: &[u8]) -> (r: Result<(String, Vec<u8>), FrameFault>)
    ensures
        match udp_frame(f@) {
            Err(fault) => r matches Err(e) && e == fault,
            Ok((target, payload)) => r matches Ok(v) && v.0@ == target && v.1@ == payload,
        },
{
    let n: usize = f.len();
    if n < 5 {
        return Err(FrameFault::Short(n));
    }
    if f[0] != CMD_UDP_FORWARD {
        return Err(FrameFault::Command(f[0]));
    }
    let end: usize = if f[1] > 0 {
        2 + f[1] as usize
    } else if f[2] == 4 {
        7
    } else if f[2] == 6 {
        19
    } else {
        return Err(FrameFault::IpVersion(f[2]));
    };
    if n < end + 2 {
        return Err(FrameFault::Truncated);
    }
    let host = if f[1] > 0 {
        text::text_of_bytes(vstd::slice::slice_subrange(f, 2, end))
    } else if f[2] == 4 {
        addr::ipv4_string(vstd::slice::slice_subrange(f, 3, end))
    } else {
        addr::ipv6_string(vstd::slice::slice_subrange(f, 3, end))
    };
    let port: u16 = f[end] as u16 * 256 + f[end + 1] as u16;
    let target = handshake::target_string(host.as_str(), port);
    let payload = vstd::slice::slice_to_vec(vstd::slice::slice_subrange(f, end + 2, n));
    assert(payload@ =~= f@.skip(end + 2));
    Ok((target, payload))
}

/// A frame for a host name of up to 255 bytes names that host and port, and carries the datagram.
pub proof fn lemma_name_frame(host: Seq<char>, port: nat, datagram: Seq<u8>)
    requires
        0 < vstd::utf8::encode_utf8(host).len() <= 255,
        port <= 0xffff,
    ensures
        udp_frame(
            seq![CMD_UDP_FORWARD, vstd::utf8::encode_utf8(host).len() as u8] + vstd::utf8::encode_utf8(host) + tls::be16(
                port as int,
            ) + datagram,
        ) == Ok::<(Seq<char>, Seq<u8>), FrameFault>((handshake::target_text(host, port), datagram)),
{
    let bytes = vstd::utf8::encode_utf8(host);
    let f = seq![CMD_UDP_FORWARD, bytes.len() as u8] + bytes + tls::be16(port as int) + datagram;
    let end = 2 + bytes.len() as int;
    tls::lemma_be16_round_trip(port as int);
    vstd::utf8::encode_utf8_valid_utf8(host);
    vstd::utf8::encode_utf8_decode_utf8(host);
    assert(f.subrange(2, end) =~= bytes);
    assert(f.skip(end + 2) =~= datagram);
    assert(f[end] == tls::be16(port as int)[0]);
    assert(f[end + 1] == tls::be16(port as int)[1]);
}

/// A frame for an IP address names that address and port, and carries the datagram.
pub proof fn lemma_address_frame(ip: Seq<u8>, port: nat, datagram: Seq<u8>)
    requires
        ip.len() == 4 || ip.len() == 16,
        port <= 0xffff,
    ensures
        udp_frame(
            seq![CMD_UDP_FORWARD, 0u8, if ip.len() == 4 { 4u8 } else { 6u8 }] + ip + tls::be16(port as int) + datagram,
        ) == Ok::<(Seq<char>, Seq<u8>), FrameFault>(
            (
                handshake::target_text(
                    if ip.len() == 4 {
                        addr::ipv4_text(ip)
                    } else {
                        addr::ipv6_text(ip)
                    },
                    port,
                ),
                datagram,
            ),
        ),
{
    let f = seq![CMD_UDP_FORWARD, 0u8, if ip.len() == 4 { 4u8 } else { 6u8 }] + ip + tls::be16(port as int) + datagram;
    let end = 3 + ip.len() as int;
    tls::lemma_be16_round_trip(port as int);
    assert(f.subrange(3, end) =~= ip);
    assert(f.skip(end + 2) =~= datagram);
    assert(f[end] == tls::be16(port as int)[0]);
    assert(f[end + 1] == tls::be16(port as int)[1]);
}

// ---- The relay ----

/// What a relay does next.
#[derive(Debug)]
pub enum UdpStep {
    /// The frame is bad, and the session ends.
    Bad(FrameFault),
    /// The datagram is sent.
    Send { to: SocketAddr, data: Vec<u8> },
    /// The target is looked up, and the answer handed to `resolved`.
    Resolve(String),
    /// Nothing is to be done.
    Nothing,
}

/// The relay of a UDP session.
pub struct UdpRelay {
    cache: LruCache<String, SocketAddr>,
    waiting: Option<(String, Vec<u8>)>,
}

/// Whether a step sends a datagram to an address; an empty datagram is not sent.
pub open spec fn forwards(step: UdpStep, to: SocketAddr, datagram: Seq<u8>) -> bool {
    if datagram.len() > 0 {
        step matches UdpStep::Send { to: a, data } && a == to && data@ == datagram
    } else {
        step is Nothing
    }
}

/// What taking in a frame does: a datagram for a known target is sent, and the target moves to the
/// front; another target is looked up, and the datagram waits; anything else is no frame.
pub open spec fn frame_taken(before: UdpRelay, frame: Seq<u8>, step: UdpStep, after: UdpRelay) -> bool {
    match udp_frame(frame) {
        Err(fault) => step == UdpStep::Bad(fault) && after.known() == before.known() && after.waiting() == before.waiting(),
        Ok((target, datagram)) => {
            let i = position(before.known(), target);
            if i < before.known().len() {
                &&& forwards(step, before.known()[i].1, datagram)
                &&& after.known() == promoted(before.known(), i)
                &&& after.waiting() == before.waiting()
            } else {
                &&& step matches UdpStep::Resolve(t) && t@ == target
                &&& after.known() == before.known()
                &&& after.waiting() == Some((target, datagram))
            }
        },
    }
}

/// What the answer to a lookup does: the address is kept and the datagram sent to it, or the
/// datagram is dropped.
pub open spec fn lookup_taken(before: UdpRelay, a: Option<SocketAddr>, step: UdpStep, after: UdpRelay) -> bool {
    &&& after.waiting() is None
    &&& match (before.waiting(), a) {
        (Some((target, datagram)), Some(to)) => {
            &&& forwards(step, to, datagram)
            &&& after.known() == with_entry(before.known(), CACHE_SIZE as nat, target, to)
        },
        _ => step is Nothing && after.known() == before.known(),
    }
}

impl UdpRelay {
    /// The targets whose addresses are known, the one used last at the front.
    pub closed spec fn known(&self) -> Seq<(Seq<char>, SocketAddr)> {
        cache_entries(self.cache)
    }

    /// The target that is being looked up, and the datagram for it.
    pub closed spec fn waiting(&self) -> Option<(Seq<char>, Seq<u8>)> {
        match self.waiting {
            Some((target, datagram)) => Some((target@, datagram@)),
            None => None,
        }
    }

    /// The cache is in order, and made for `CACHE_SIZE` targets.
    pub closed spec fn wf(&self) -> bool {
        cache_capacity(self.cache) == CACHE_SIZE && cache_ok(cache_entries(self.cache), CACHE_SIZE as nat)
    }

    /// A relay that knows no target.
    pub fn new() -> (r: UdpRelay)
        ensures
            r.wf(),
            r.known() == Seq::<(Seq<char>, SocketAddr)>::empty(),
            r.waiting() is None,
    {
        UdpRelay { cache: new_cache(CACHE_SIZE), waiting: None }
    }

    fn forward(to: SocketAddr, datagram: Vec<u8>) -> (step: UdpStep)
        ensures
            forwards(step, to, datagram@),
    {
        if datagram.len() > 0 {
            UdpStep::Send { to, data: datagram }
        } else {
            UdpStep::Nothing
        }
    }

    /// Takes in a frame. A datagram for a known target is sent; another target is looked up first.
    pub fn take_frame(&mut self, frame: &[u8]) -> (step: UdpStep)
        requires
            old(self).wf(),
        ensures
            final(self).wf(),
            frame_taken(*old(self), frame@, step, *final(self)),
    {
        match parse_frame(frame) {
            Err(fault) => UdpStep::Bad(fault),
            Ok((target, datagram)) => {
                proof {
                    lemma_position(self.known(), target@);
                    if position(self.known(), target@) < self.known().len() {
                        lemma_cache_stays_ok(self.known(), CACHE_SIZE as nat, target@, self.known()[0].1);
                    }
                }
                match get_cached(&mut self.cache, target.as_str()) {
                    Some(a) => UdpRelay::forward(a, datagram),
                    None => {
                        let asked = target.clone();
                        self.waiting = Some((target, datagram));
                        UdpStep::Resolve(asked)
                    },
                }
            },
        }
    }

    /// Takes in the answer to a lookup: the address is kept and the datagram sent to it; without an
    /// address the datagram is dropped.
    pub fn resolved(&mut self, a: Option<SocketAddr>) -> (step: UdpStep)
        requires
            old(self).wf(),
        ensures
            final(self).wf(),
            lookup_taken(*old(self), a, step, *final(self)),
    {
        let mut waiting: Option<(String, Vec<u8>)> = None;
        std::mem::swap(&mut waiting, &mut self.waiting);
        match (waiting, a) {
            (Some((target, datagram)), Some(to)) => {
                proof {
                    lemma_cache_stays_ok(self.known(), CACHE_SIZE as nat, target@, to);
                }
                let _older = put_cached(&mut self.cache, target, to);
                UdpRelay::forward(to, datagram)
            },
            _ => UdpStep::Nothing,
        }
    }
}

// ---- Frames and datagrams, byte by byte ----

/// Whether a frame is one for a host and a port, with a datagram behind it: a name behind its length,
/// or an address behind a zero and its version.
pub open spec fn frames(frame: Seq<u8>, host: Seq<char>, port: u16, datagram: Seq<u8>) -> bool {
    let behind = seq![(port / 256) as u8, (port % 256) as u8] + datagram;
    let name = vstd::utf8::encode_utf8(host);
    ||| 0 < name.len() <= 255 && frame == seq![1u8, name.len() as u8] + name + behind
    ||| exists|ip: Seq<u8>|
        #![trigger addr::ipv4_text(ip)]
        ip.len() == 4 && host == addr::ipv4_text(ip) && frame == seq![1u8, 0u8, 4u8] + ip + behind
    ||| exists|ip: Seq<u8>|
        #![trigger addr::ipv6_text(ip)]
        ip.len() == 16 && host == addr::ipv6_text(ip) && frame == seq![1u8, 0u8, 6u8] + ip + behind
}

/// A frame for a host and a port names the host, a colon and the port, and carries the datagram behind
/// it, whatever its length.
pub proof fn lemma_frame(frame: Seq<u8>, host: Seq<char>, port: u16, datagram: Seq<u8>)
    requires
        frames(frame, host, port, datagram),
    ensures
        udp_frame(frame) == Ok::<(Seq<char>, Seq<u8>), FrameFault>((host + seq![':'] + text::decimal(port as nat), datagram)),
{
    reveal_strlit(":");
    assert(":"@ =~= seq![':']);
    let name = vstd::utf8::encode_utf8(host);
    let two = seq![(port / 256) as u8, (port % 256) as u8];
    let behind = two + datagram;
    assert(two =~= tls::be16(port as int));
    if 0 < name.len() <= 255 && frame == seq![1u8, name.len() as u8] + name + behind {
        lemma_name_frame(host, port as nat, datagram);
        assert(frame =~= seq![1u8, name.len() as u8] + name + two + datagram);
    } else if exists|ip: Seq<u8>|
        #![trigger addr::ipv4_text(ip)]
        ip.len() == 4 && host == addr::ipv4_text(ip) && frame == seq![1u8, 0u8, 4u8] + ip + behind {
        let ip = choose|ip: Seq<u8>|
            #![trigger addr::ipv4_text(ip)]
            ip.len() == 4 && host == addr::ipv4_text(ip) && frame == seq![1u8, 0u8, 4u8] + ip + behind;
        lemma_address_frame(ip, port as nat, datagram);
        assert(frame =~= seq![1u8, 0u8, 4u8] + ip + two + datagram);
    } else {
        let ip = choose|ip: Seq<u8>|
            #![trigger addr::ipv6_text(ip)]
            ip.len() == 16 && host == addr::ipv6_text(ip) && frame == seq![1u8, 0u8, 6u8] + ip + behind;
        lemma_address_frame(ip, port as nat, datagram);
        assert(frame =~= seq![1u8, 0u8, 6u8] + ip + two + datagram);
    }
}

/// A frame with any bytes for a name names the text of those bytes.
pub proof fn lemma_frame_of_bytes(name: Seq<u8>, port: u16, datagram: Seq<u8>)
    requires
        0 < name.len() <= 255,
    ensures
        udp_frame(seq![1u8, name.len() as u8] + name + seq![(port / 256) as u8, (port % 256) as u8] + datagram) == Ok::<
            (Seq<char>, Seq<u8>),
            FrameFault,
        >((text::lossy_text(name) + seq![':'] + text::decimal(port as nat), datagram)),
{
    reveal_strlit(":");
    assert(":"@ =~= seq![':']);
    let f = seq![1u8, name.len() as u8] + name + seq![(port / 256) as u8, (port % 256) as u8] + datagram;
    let end = 2 + name.len() as int;
    assert(f.subrange(2, end) =~= name);
    assert(f.skip(end + 2) =~= datagram);
    assert(f[end] == (port / 256) as u8 && f[end + 1] == (port % 256) as u8);
    assert(tls::from_be16(f[end], f[end + 1]) == port);
}

/// Where the address of the target is known, a datagram of any length but zero goes to that address as
/// it is, and one of no bytes nowhere. The target is then the one used last.
pub proof fn lemma_known_target(
    frame: Seq<u8>,
    host: Seq<char>,
    port: u16,
    datagram: Seq<u8>,
    i: int,
    to: SocketAddr,
    before: UdpRelay,
    step: UdpStep,
    after: UdpRelay,
)
    requires
        frames(frame, host, port, datagram),
        before.wf(),
        0 <= i < before.known().len(),
        before.known()[i] == (host + seq![':'] + text::decimal(port as nat), to),
        frame_taken(before, frame, step, after),
    ensures
        datagram.len() > 0 ==> (step matches UdpStep::Send { to: a, data } && a == to && data@ == datagram),
        datagram.len() == 0 ==> step is Nothing,
        after.known() == seq![before.known()[i]] + before.known().take(i) + before.known().skip(i + 1),
        after.waiting() == before.waiting(),
{
    lemma_frame(frame, host, port, datagram);
    let target = host + seq![':'] + text::decimal(port as nat);
    let known = before.known();
    lemma_position(known, target);
    let j = position(known, target);
    if j < i {
        assert(known[j].0 != known[i].0);
    } else if i < j {
        assert(known[i].0 != target);
    }
    assert(known.remove(i) =~= known.take(i) + known.skip(i + 1));
    assert(seq![known[i]] + known.remove(i) =~= seq![known[i]] + known.take(i) + known.skip(i + 1));
}

/// Where the address of the target is not known, the target is looked up under its host and port; once
/// the address is there, the datagram goes to it as it is, whatever its length but zero. The target is
/// then known, in place of the one that was not used for longest where there are 256 others.
pub proof fn lemma_target_is_looked_up(
    frame: Seq<u8>,
    host: Seq<char>,
    port: u16,
    datagram: Seq<u8>,
    to: SocketAddr,
    before: UdpRelay,
    first: UdpStep,
    mid: UdpRelay,
    second: UdpStep,
    after: UdpRelay,
)
    requires
        frames(frame, host, port, datagram),
        before.wf(),
        forall|i: int|
            0 <= i < before.known().len() ==> (#[trigger] before.known()[i]).0 != host + seq![':'] + text::decimal(port as nat),
        frame_taken(before, frame, first, mid),
        lookup_taken(mid, Some(to), second, after),
    ensures
        first matches UdpStep::Resolve(target) && target@ == host + seq![':'] + text::decimal(port as nat),
        datagram.len() > 0 ==> (second matches UdpStep::Send { to: a, data } && a == to && data@ == datagram),
        datagram.len() == 0 ==> second is Nothing,
        after.known() == seq![(host + seq![':'] + text::decimal(port as nat), to)] + (if before.known().len() < 256 {
            before.known()
        } else {
            before.known().take(255)
        }),
        after.waiting() is None,
{
    lemma_frame(frame, host, port, datagram);
    let target = host + seq![':'] + text::decimal(port as nat);
    lemma_position(before.known(), target);
    if before.known().len() == 256 {
        assert(before.known().drop_last() =~= before.known().take(255));
    }
}

/// Where no address is found, the datagram is dropped, and nothing is kept.
pub proof fn lemma_lookup_fails(
    frame: Seq<u8>,
    host: Seq<char>,
    port: u16,
    datagram: Seq<u8>,
    before: UdpRelay,
    first: UdpStep,
    mid: UdpRelay,
    second: UdpStep,
    after: UdpRelay,
)
    requires
        frames(frame, host, port, datagram),
        forall|i: int|
            0 <= i < before.known().len() ==> (#[trigger] before.known()[i]).0 != host + seq![':'] + text::decimal(port as nat),
        frame_taken(before, frame, first, mid),
        lookup_taken(mid, None, second, after),
    ensures
        first is Resolve,
        second is Nothing,
        after.known() == before.known(),
        after.waiting() is None,
{
    lemma_frame(frame, host, port, datagram);
    lemma_position(before.known(), host + seq![':'] + text::decimal(port as nat));
}

/// An answer that nothing waits for changes nothing; and one for a target that is known already takes the
/// place of the older address, and moves the target to the front.
pub proof fn lemma_other_answers(
    target: Seq<char>,
    datagram: Seq<u8>,
    i: int,
    to: SocketAddr,
    a: Option<SocketAddr>,
    before: UdpRelay,
    step: UdpStep,
    after: UdpRelay,
)
    requires
        before.wf(),
        lookup_taken(before, a, step, after),
    ensures
        before.waiting() is None ==> step is Nothing && after.known() == before.known() && after.waiting() is None,
        before.waiting() == Some((target, datagram)) && a == Some(to) && 0 <= i < before.known().len() && before.known()[i].0 == target
            ==> after.known() == seq![(target, to)] + before.known().take(i) + before.known().skip(i + 1),
{
    let known = before.known();
    if before.waiting() == Some((target, datagram)) && a == Some(to) && 0 <= i < known.len() && known[i].0 == target {
        lemma_position(known, target);
        let j = position(known, target);
        if j < i {
            assert(known[j].0 != known[i].0);
        } else if i < j {
            assert(known[i].0 != target);
        }
        assert(seq![(target, to)] + known.remove(i) =~= seq![(target, to)] + known.take(i) + known.skip(i + 1));
    }
}

/// Two datagrams for the same target go to the same address, and only the first needs a lookup.
pub proof fn lemma_one_lookup(
    frame: Seq<u8>,
    other_frame: Seq<u8>,
    host: Seq<char>,
    port: u16,
    datagram: Seq<u8>,
    other: Seq<u8>,
    to: SocketAddr,
    before: UdpRelay,
    first: UdpStep,
    mid: UdpRelay,
    second: UdpStep,
    next: UdpRelay,
    third: UdpStep,
    after: UdpRelay,
)
    requires
        frames(frame, host, port, datagram),
        frames(other_frame, host, port, other),
        other.len() > 0,
        before.wf(),
        next.wf(),
        forall|i: int|
            0 <= i < before.known().len() ==> (#[trigger] before.known()[i]).0 != host + seq![':'] + text::decimal(port as nat),
        frame_taken(before, frame, first, mid),
        lookup_taken(mid, Some(to), second, next),
        frame_taken(next, other_frame, third, after),
    ensures
        first is Resolve,
        third matches UdpStep::Send { to: a, data } && a == to && data@ == other,
        after.known() == next.known(),
{
    lemma_target_is_looked_up(frame, host, port, datagram, to, before, first, mid, second, next);
    lemma_known_target(other_frame, host, port, other, 0, to, next, third, after);
    assert(seq![next.known()[0]] + next.known().take(0) + next.known().skip(1) =~= next.known());
}

/// What is no frame ends the session, for the first thing that is wrong with it: fewer than five bytes,
/// another command than 1, another version of an address than 4 and 6, or an end within the host or
/// the port.
pub proof fn lemma_bad_frame(frame: Seq<u8>, before: UdpRelay, step: UdpStep, after: UdpRelay)
    requires
        frame.len() <= usize::MAX,
        frame_taken(before, frame, step, after),
    ensures
        frame.len() < 5 ==> (step matches UdpStep::Bad(FrameFault::Short(n)) && n == frame.len()),
        frame.len() >= 5 && frame[0] != 1 ==> step == UdpStep::Bad(FrameFault::Command(frame[0])),
        frame.len() >= 5 && frame[0] == 1 && frame[1] == 0 && frame[2] != 4 && frame[2] != 6 ==> step == UdpStep::Bad(
            FrameFault::IpVersion(frame[2]),
        ),
        frame.len() >= 5 && frame[0] == 1 && frame[1] > 0 && frame.len() < 4 + frame[1] ==> step == UdpStep::Bad(
            FrameFault::Truncated,
        ),
        frame.len() >= 5 && frame[0] == 1 && frame[1] == 0 && frame[2] == 4 && frame.len() < 9 ==> step == UdpStep::Bad(
            FrameFault::Truncated,
        ),
        frame.len() >= 5 && frame[0] == 1 && frame[1] == 0 && frame[2] == 6 && frame.len() < 21 ==> step == UdpStep::Bad(
            FrameFault::Truncated,
        ),
        step is Bad ==> after.known() == before.known() && after.waiting() == before.waiting(),
        step is Bad ==> {
            ||| frame.len() < 5
            ||| frame[0] != 1
            ||| frame[1] == 0 && frame[2] != 4 && frame[2] != 6
            ||| frame[1] > 0 && frame.len() < 4 + frame[1]
            ||| frame[1] == 0 && frame[2] == 4 && frame.len() < 9
            ||| frame[1] == 0 && frame[2] == 6 && frame.len() < 21
        },
{
}

}
