//! Socket addresses, and IP addresses as text.
use crate::text;
use crate::tls;
use vstd::prelude::*;
use vstd::string::StringExecFns;

verus! {

/// An IP address with a port.
#[derive(Clone, Copy, PartialEq, Eq, Debug)]
pub enum SocketAddr {
    V4 { ip: [u8; 4], port: u16 },
    V6 { ip: [u8; 16], port: u16, flowinfo: u32, scope_id: u32 },
}

/// An IPv4 address in dotted decimal.
pub open spec fn ipv4_text(ip: Seq<u8>) -> Seq<char> {
    text::decimal(ip[0] as nat) + "."@ + text::decimal(ip[1] as nat) + "."@ + text::decimal(ip[2] as nat) + "."@ + text::decimal(
        ip[3] as nat,
    )
}

/// An IPv4 address in dotted decimal.
pub fn ipv4_string(ip: &[u8]) -> (r: String)
    requires
        ip@.len() == 4,
    ensures
        r@ == ipv4_text(ip@),
{
    let mut r = text::decimal_string(ip[0] as u64);
    r.append(".");
    r.append(text::decimal_string(ip[1] as u64).as_str());
    r.append(".");
    r.append(text::decimal_string(ip[2] as u64).as_str());
    r.append(".");
    r.append(text::decimal_string(ip[3] as u64).as_str());
    r
}

/// The eight groups of an IPv6 address.
pub open spec fn groups(ip: Seq<u8>) -> Seq<nat> {
    Seq::new(8, |i: int| tls::from_be16(ip[2 * i], ip[2 * i + 1]))
}

/// Groups in hexadecimal, with colons between them.
pub open spec fn groups_text(g: Seq<nat>) -> Seq<char>
    decreases g.len(),
{
    if g.len() == 0 {
        seq![]
    } else if g.len() == 1 {
        text::hexadecimal(g[0])
    } else {
        groups_text(g.drop_last()) + ":"@ + text::hexadecimal(g.last())
    }
}

/// Number of zero groups in a row from a position on.
pub open spec fn zero_run(g: Seq<nat>, i: int) -> nat
    decreases g.len() - i,
{
    if 0 <= i < g.len() && g[i] == 0 {
        1 + zero_run(g, i + 1)
    } else {
        0
    }
}

/// The first of the positions below `n` from which most zero groups follow.
pub open spec fn longest_run(g: Seq<nat>, n: int) -> int
    decreases n,
{
    if n <= 1 {
        0
    } else if zero_run(g, n - 1) > zero_run(g, longest_run(g, n - 1)) {
        n - 1
    } else {
        longest_run(g, n - 1)
    }
}

/// Whether an IPv6 address holds an IPv4 address.
pub open spec fn is_mapped(ip: Seq<u8>) -> bool {
    (forall|i: int| 0 <= i < 10 ==> ip[i] == 0) && ip[10] == 0xff && ip[11] == 0xff
}

/// An IPv6 address as text: one that holds an IPv4 address with that in dotted decimal; any other
/// in groups, of which the first longest run of two or more zeros is left out.
pub open spec fn ipv6_text(ip: Seq<u8>) -> Seq<char> {
    if is_mapped(ip) {
        "::ffff:"@ + ipv4_text(ip.skip(12))
    } else {
        let g = groups(ip);
        let start = longest_run(g, 8);
        let len = zero_run(g, start);
        if len > 1 {
            groups_text(g.take(start)) + "::"@ + groups_text(g.skip(start + len))
        } else {
            groups_text(g)
        }
    }
}

fn group(ip: &[u8], i: usize) -> (r: u64)
    requires
        ip@.len() == 16,
        i < 8,
    ensures
        r == groups(ip@)[i as int],
{
    ip[2 * i] as u64 * 256 + ip[2 * i + 1] as u64
}

fn zeros_from(ip: &[u8], i: usize) -> (r: usize)
    requires
        ip@.len() == 16,
        i <= 8,
    ensures
        r == zero_run(groups(ip@), i as int),
        i + r <= 8,
    decreases 8 - i,
{
    if i < 8 && group(ip, i) == 0 {
        1 + zeros_from(ip, i + 1)
    } else {
        0
    }
}

fn groups_string(ip: &[u8], from: usize, to: usize) -> (r: String)
    requires
        ip@.len() == 16,
        from <= to <= 8,
    ensures
        r@ == groups_text(groups(ip@).subrange(from as int, to as int)),
{
    let ghost g = groups(ip@);
    let mut r = String::new();
    let mut i: usize = from;
    assert(r@ =~= groups_text(g.subrange(from as int, from as int)));
    while i < to
        invariant
            ip@.len() == 16,
            from <= i <= to <= 8,
            g == groups(ip@),
            r@ == groups_text(g.subrange(from as int, i as int)),
        decreases to - i,
    {
        if i > from {
            r.append(":");
        }
        let digits = text::numeral_chars(group(ip, i), 16);
        r.append(text::string_of(digits.as_slice()).as_str());
        proof {
            let next = g.subrange(from as int, i + 1);
            assert(next.drop_last() =~= g.subrange(from as int, i as int));
            assert(next.last() == g[i as int]);
            if i == from {
                let none: Seq<char> = seq![];
                assert(g.subrange(from as int, i as int) =~= seq![]);
                assert(none + text::hexadecimal(g[i as int]) =~= text::hexadecimal(g[i as int]));
            }
        }
        i = i + 1;
    }
    r
}

fn is_mapped_ip(ip: &[u8]) -> (r: bool)
    requires
        ip@.len() == 16,
    ensures
        r == is_mapped(ip@),
{
    let mut i: usize = 0;
    while i < 10
        invariant
            ip@.len() == 16,
            i <= 10,
            forall|k: int| 0 <= k < i ==> ip@[k] == 0,
        decreases 10 - i,
    {
        if ip[i] != 0 {
            return false;
        }
        i = i + 1;
    }
    ip[10] == 0xff && ip[11] == 0xff
}

/// An IPv6 address as text.
pub fn ipv6_string(ip: &[u8]) -> (r: String)
    requires
        ip@.len() == 16,
    ensures
        r@ == ipv6_text(ip@),
{
    if is_mapped_ip(ip) {
        let mut r = String::from_str("::ffff:");
        let v4 = vstd::slice::slice_subrange(ip, 12, 16);
        assert(v4@ =~= ip@.skip(12));
        r.append(ipv4_string(v4).as_str());
        return r;
    }
    let ghost g = groups(ip@);
    let mut start: usize = 0;
    let mut len: usize = zeros_from(ip, 0);
    let mut i: usize = 1;
    while i < 8
        invariant
            ip@.len() == 16,
            1 <= i <= 8,
            g == groups(ip@),
            start == longest_run(g, i as int),
            start < i,
            len == zero_run(g, start as int),
            start + len <= 8,
        decreases 8 - i,
    {
        let run: usize = zeros_from(ip, i);
        if run > len {
            start = i;
            len = run;
        }
        i = i + 1;
    }
    if len > 1 {
        let mut r = groups_string(ip, 0, start);
        r.append("::");
        r.append(groups_string(ip, start + len, 8).as_str());
        assert(g.subrange(0, start as int) =~= g.take(start as int));
        assert(g.subrange(start + len, 8) =~= g.skip(start + len));
        r
    } else {
        assert(g.subrange(0, 8) =~= g);
        groups_string(ip, 0, 8)
    }
}

// ---- IPv6 addresses, group by group ----

/// An IPv6 address that holds an IPv4 address is that address in dotted decimal, behind "::ffff:".
pub proof fn lemma_mapped_text(v4: Seq<u8>)
    requires
        v4.len() == 4,
    ensures
        ipv6_text(seq![0u8, 0u8, 0u8, 0u8, 0u8, 0u8, 0u8, 0u8, 0u8, 0u8, 0xffu8, 0xffu8] + v4) == "::ffff:"@ + text::decimal(v4[0] as nat)
            + seq!['.'] + text::decimal(v4[1] as nat) + seq!['.'] + text::decimal(v4[2] as nat) + seq!['.'] + text::decimal(v4[3] as nat),
{
    let ip = seq![0u8, 0u8, 0u8, 0u8, 0u8, 0u8, 0u8, 0u8, 0u8, 0u8, 0xffu8, 0xffu8] + v4;
    reveal_strlit(".");
    assert("."@ =~= seq!['.']);
    assert(ip.skip(12) =~= v4);
    assert(is_mapped(ip));
    let dot = seq!['.'];
    let (a, b, c, d) = (
        text::decimal(v4[0] as nat),
        text::decimal(v4[1] as nat),
        text::decimal(v4[2] as nat),
        text::decimal(v4[3] as nat),
    );
    assert("::ffff:"@ + (a + dot + b + dot + c + dot + d) =~= "::ffff:"@ + a + dot + b + dot + c + dot + d);
}

/// Groups as text: each in hexadecimal, with a colon between any two.
pub proof fn lemma_groups_text(g: Seq<nat>, x: nat)
    ensures
        groups_text(seq![]) == Seq::<char>::empty(),
        groups_text(seq![x]) == text::hexadecimal(x),
        g.len() > 0 ==> groups_text(g.push(x)) == groups_text(g) + seq![':'] + text::hexadecimal(x),
{
    reveal_strlit(":");
    assert(":"@ =~= seq![':']);
    assert(g.push(x).drop_last() =~= g);
}

/// Whether a stretch of groups is all zeros.
pub open spec fn zeros_at(g: Seq<nat>, i: int, n: int) -> bool {
    0 <= i && 0 <= n && i + n <= g.len() && forall|j: int| i <= j < i + n ==> g[j] == 0
}

/// The groups of an address are its bytes two by two, most significant first.
pub proof fn lemma_groups(ip: Seq<u8>, i: int)
    requires
        ip.len() == 16,
        0 <= i < 8,
    ensures
        groups(ip).len() == 8,
        groups(ip)[i] == ip[2 * i] * 256 + ip[2 * i + 1],
{
}

/// Any other address is its eight groups; but the longest run of two or more zero groups, and the first
/// of those that are as long, is left out with a double colon in its place.
pub proof fn lemma_groups_left_out(ip: Seq<u8>, a: int, n: int)
    requires
        ip.len() == 16,
        !(forall|i: int| 0 <= i < 10 ==> ip[i] == 0) || ip[10] != 0xff || ip[11] != 0xff,
    ensures
        n >= 2 && zeros_at(groups(ip), a, n) && (forall|i: int, k: int| #[trigger]
            zeros_at(groups(ip), i, k) ==> k < n || (k == n && a <= i)) ==> ipv6_text(ip) == groups_text(groups(ip).take(a)) + seq![
            ':',
            ':',
        ] + groups_text(groups(ip).skip(a + n)),
        (forall|i: int, k: int| #[trigger] zeros_at(groups(ip), i, k) ==> k < 2) ==> ipv6_text(ip) == groups_text(groups(ip)),
{
    let g = groups(ip);
    reveal_strlit("::");
    assert("::"@ =~= seq![':', ':']);
    assert(!is_mapped(ip));
    lemma_longest_run(g, 8);
    let l = longest_run(g, 8);
    lemma_zero_run(g, l);
    let m = zero_run(g, l) as int;
    assert(zeros_at(g, l, m));
    if n >= 2 && zeros_at(g, a, n) && forall|i: int, k: int| #[trigger] zeros_at(g, i, k) ==> k < n || (k == n && a <= i) {
        lemma_zero_run(g, a);
        assert(zeros_at(g, a, zero_run(g, a) as int));
        lemma_run_reaches(g, a, n);
        assert(zero_run(g, a) == n);
        assert(m == n);
        assert(l == a);
    }
}

proof fn lemma_run_reaches(g: Seq<nat>, i: int, n: int)
    requires
        zeros_at(g, i, n),
    ensures
        zero_run(g, i) >= n,
    decreases n,
{
    if n > 0 {
        assert(zeros_at(g, i + 1, n - 1));
        lemma_run_reaches(g, i + 1, n - 1);
    }
}

proof fn lemma_zero_run(g: Seq<nat>, i: int)
    requires
        0 <= i <= g.len(),
    ensures
        zeros_at(g, i, zero_run(g, i) as int),
    decreases g.len() - i,
{
    if i < g.len() && g[i] == 0 {
        lemma_zero_run(g, i + 1);
    }
}

proof fn lemma_longest_run(g: Seq<nat>, n: int)
    requires
        1 <= n <= g.len(),
    ensures
        0 <= longest_run(g, n) < n,
        forall|i: int| 0 <= i < n ==> #[trigger] zero_run(g, i) <= zero_run(g, longest_run(g, n)),
        forall|i: int| 0 <= i < longest_run(g, n) ==> #[trigger] zero_run(g, i) < zero_run(g, longest_run(g, n)),
    decreases n,
{
    if n > 1 {
        lemma_longest_run(g, n - 1);
    }
}

}
