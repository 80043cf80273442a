//! Text as sequences of characters: trimming, splitting, and numbers in decimal and hexadecimal.
use vstd::prelude::*;

verus! {

/// `String::push` appends one character.
pub assume_specification[ String::push ](s: &mut String, c: char)
    ensures
        final(s)@ == old(s)@.push(c),
;

/// The characters of a string.
pub fn chars_of(s: &str) -> (r: Vec<char>)
    ensures
        r@ == s@,
{
    let mut r: Vec<char> = Vec::new();
    for c in it: s.chars()
        invariant
            r@ == it.seq().take(it.index() as int),
            it.seq() == s@,
    {
        r.push(c);
        assert(r@ =~= it.seq().take(it.index() + 1));
    }
    assert(s@.take(s@.len() as int) =~= s@);
    r
}

/// The string of some characters.
pub fn string_of(chars: &[char]) -> (r: String)
    ensures
        r@ == chars@,
{
    let mut r = String::new();
    let n: usize = chars.len();
    let mut i: usize = 0;
    assert(r@ =~= chars@.take(0));
    while i < n
        invariant
            i <= n,
            n == chars@.len(),
            r@ == chars@.take(i as int),
        decreases n - i,
    {
        r.push(chars[i]);
        i = i + 1;
        assert(r@ =~= chars@.take(i as int));
    }
    assert(chars@.take(n as int) =~= chars@);
    r
}

// ---- Bytes as text ----

/// Name of the text that `String::from_utf8_lossy` makes of bytes that are not UTF-8.
pub uninterp spec fn utf8_repaired(bytes: Seq<u8>) -> Seq<char>;

/// The text that bytes hold: what they encode where they are UTF-8, a repaired text elsewhere.
pub open spec fn lossy_text(bytes: Seq<u8>) -> Seq<char> {
    if vstd::utf8::valid_utf8(bytes) {
        vstd::utf8::decode_utf8(bytes)
    } else {
        utf8_repaired(bytes)
    }
}

/// Calls `String::from_utf8_lossy`.
///
/// Bytes that are UTF-8 come out as the text that they encode. Other bytes come out with
/// replacement characters: that text is only named.
#[verifier::external_body]
pub(crate) fn text_of_bytes(bytes: &[u8]) -> (r: String)
    ensures
        vstd::utf8::valid_utf8(bytes@) ==> r@ == vstd::utf8::decode_utf8(bytes@),
        !vstd::utf8::valid_utf8(bytes@) ==> r@ == utf8_repaired(bytes@),
{
    String::from_utf8_lossy(bytes).to_string()
}

// ---- White space ----

/// The Unicode characters with the `White_Space` property.
pub open spec fn is_white(c: char) -> bool {
    ||| 0x9 <= c as u32 <= 0xd
    ||| c as u32 == 0x20
    ||| c as u32 == 0x85
    ||| c as u32 == 0xa0
    ||| c as u32 == 0x1680
    ||| 0x2000 <= c as u32 <= 0x200a
    ||| c as u32 == 0x2028
    ||| c as u32 == 0x2029
    ||| c as u32 == 0x202f
    ||| c as u32 == 0x205f
    ||| c as u32 == 0x3000
}

/// The text from its first character that is no white space.
pub open spec fn trim_start(s: Seq<char>) -> Seq<char>
    decreases s.len(),
{
    if s.len() > 0 && is_white(s[0]) {
        trim_start(s.drop_first())
    } else {
        s
    }
}

/// The text up to its last character that is no white space.
pub open spec fn trim_end(s: Seq<char>) -> Seq<char>
    decreases s.len(),
{
    if s.len() > 0 && is_white(s.last()) {
        trim_end(s.drop_last())
    } else {
        s
    }
}

/// The text without the white space at either end.
pub open spec fn trim(s: Seq<char>) -> Seq<char> {
    trim_end(trim_start(s))
}

/// Whether a text is white space all through.
pub open spec fn all_white(s: Seq<char>) -> bool {
    forall|i: int| 0 <= i < s.len() ==> is_white(#[trigger] s[i])
}

/// White space in front is what `trim_start` takes away, and all that it takes away.
pub proof fn lemma_trim_start(s: Seq<char>) -> (w: Seq<char>)
    ensures
        s == w + trim_start(s),
        all_white(w),
        trim_start(s).len() > 0 ==> !is_white(trim_start(s)[0]),
    decreases s.len(),
{
    if s.len() > 0 && is_white(s[0]) {
        let w = lemma_trim_start(s.drop_first());
        assert(s =~= seq![s[0]] + s.drop_first());
        assert((seq![s[0]] + w) + trim_start(s) =~= seq![s[0]] + (w + trim_start(s)));
        seq![s[0]] + w
    } else {
        assert(s =~= Seq::<char>::empty() + s);
        seq![]
    }
}

/// White space at the end is what `trim_end` takes away, and all that it takes away.
pub proof fn lemma_trim_end(s: Seq<char>) -> (w: Seq<char>)
    ensures
        s == trim_end(s) + w,
        all_white(w),
        trim_end(s).len() > 0 ==> !is_white(trim_end(s).last()),
    decreases s.len(),
{
    if s.len() > 0 && is_white(s.last()) {
        let w = lemma_trim_end(s.drop_last());
        assert(s =~= s.drop_last().push(s.last()));
        assert(trim_end(s) + w.push(s.last()) =~= (trim_end(s) + w).push(s.last()));
        w.push(s.last())
    } else {
        assert(s =~= s + Seq::<char>::empty());
        seq![]
    }
}

proof fn lemma_trim_start_padded(w: Seq<char>, s: Seq<char>)
    requires
        all_white(w),
    ensures
        trim_start(w + s) == trim_start(s),
    decreases w.len(),
{
    if w.len() == 0 {
        assert(w + s =~= s);
    } else {
        assert(is_white(w[0]));
        assert((w + s).drop_first() =~= w.drop_first() + s);
        assert(all_white(w.drop_first())) by {
            assert forall|i: int| 0 <= i < w.drop_first().len() implies is_white(#[trigger] w.drop_first()[i]) by {
                assert(w.drop_first()[i] == w[i + 1]);
            }
        }
        lemma_trim_start_padded(w.drop_first(), s);
    }
}

proof fn lemma_trim_end_padded(s: Seq<char>, w: Seq<char>)
    requires
        all_white(w),
    ensures
        trim_end(s + w) == trim_end(s),
    decreases w.len(),
{
    if w.len() == 0 {
        assert(s + w =~= s);
    } else {
        assert(is_white(w.last()));
        assert((s + w).drop_last() =~= s + w.drop_last());
        assert(all_white(w.drop_last())) by {
            assert forall|i: int| 0 <= i < w.drop_last().len() implies is_white(#[trigger] w.drop_last()[i]) by {
                assert(w.drop_last()[i] == w[i]);
            }
        }
        lemma_trim_end_padded(s, w.drop_last());
    }
}

/// Text that starts with a character that is no white space keeps its front.
proof fn lemma_trim_start_solid(s: Seq<char>)
    requires
        s.len() > 0,
        !is_white(s[0]),
    ensures
        trim_start(s) == s,
{
}

/// White space around a text does not change what is left of it without white space.
pub proof fn lemma_trim_padded(a: Seq<char>, s: Seq<char>, b: Seq<char>)
    requires
        all_white(a),
        all_white(b),
    ensures
        trim(a + s + b) == trim(s),
{
    assert(a + s + b =~= a + (s + b));
    lemma_trim_start_padded(a, s + b);
    let w = lemma_trim_start(s);
    let core = trim_start(s);
    assert(s + b =~= w + (core + b));
    lemma_trim_start_padded(w, core + b);
    if core.len() > 0 {
        assert((core + b)[0] == core[0]);
        lemma_trim_start_solid(core + b);
        lemma_trim_end_padded(core, b);
    } else {
        let none: Seq<char> = seq![];
        assert(core + b =~= b + none);
        lemma_trim_start_padded(b, none);
        assert(core =~= none);
    }
}

/// What is left without white space at either end has none there, and holds every character that
/// is no white space.
pub proof fn lemma_trim_ends(s: Seq<char>)
    ensures
        trim(s).len() > 0 ==> !is_white(trim(s)[0]) && !is_white(trim(s).last()),
        s.len() > 0 && !is_white(s[0]) ==> trim(s).len() > 0 && trim(s)[0] == s[0],
        s.len() > 0 && !is_white(s.last()) ==> trim(s).len() > 0 && trim(s).last() == s.last(),
        forall|c: char| s.contains(c) && !is_white(c) ==> #[trigger] trim(s).contains(c),
{
    let a = lemma_trim_start(s);
    let mid = trim_start(s);
    let b = lemma_trim_end(mid);
    let core = trim(s);
    assert(s =~= a + core + b);
    if core.len() > 0 {
        assert(mid[0] == core[0]);
    }
    if s.len() > 0 && !is_white(s[0]) {
        if a.len() > 0 {
            assert(s[0] == a[0]);
        }
        if core.len() == 0 {
            assert(s[0] == b[0]);
        }
    }
    if s.len() > 0 && !is_white(s.last()) {
        if b.len() > 0 {
            assert(s.last() == b.last());
            assert(b.last() == b[b.len() - 1]);
        }
        if core.len() == 0 {
            assert(s.last() == a[a.len() - 1]);
        }
    }
    assert forall|c: char| s.contains(c) && !is_white(c) implies #[trigger] core.contains(c) by {
        let i = choose|i: int| 0 <= i < s.len() && s[i] == c;
        if i < a.len() {
            assert(is_white(a[i]));
        } else if i < a.len() + core.len() {
            assert(core[i - a.len()] == c);
        } else {
            assert(is_white(b[i - a.len() - core.len()]));
        }
    }
}

/// A text in two parts around a character that is no white space loses the white space in front of
/// the first part and behind the second.
pub proof fn lemma_trim_around(k: Seq<char>, c: char, v: Seq<char>)
    requires
        !is_white(c),
    ensures
        trim(k + seq![c] + v) == trim_start(k) + seq![c] + trim_end(v),
        trim(trim_start(k)) == trim(k),
        trim(trim_end(v)) == trim(v),
{
    let none: Seq<char> = seq![];
    let a = lemma_trim_start(k);
    let b = lemma_trim_end(v);
    let x = trim_start(k);
    let y = trim_end(v);
    let core = x + seq![c] + y;
    assert(k + seq![c] + v =~= a + core + b);
    lemma_trim_padded(a, core, b);
    assert(core[0] == (if x.len() > 0 { x[0] } else { c }));
    lemma_trim_start_solid(core);
    assert(core.last() == (if y.len() > 0 { y.last() } else { c }));
    assert(trim(core) == core);
    assert(k =~= a + x + none);
    lemma_trim_padded(a, x, none);
    assert(v =~= none + y + b);
    lemma_trim_padded(none, y, b);
}

fn is_white_char(c: char) -> (r: bool)
    ensures
        r == is_white(c),
{
    let v: u32 = c as u32;
    (0x9 <= v && v <= 0xd) || v == 0x20 || v == 0x85 || v == 0xa0 || v == 0x1680 || (0x2000 <= v && v <= 0x200a)
        || v == 0x2028 || v == 0x2029 || v == 0x202f || v == 0x205f || v == 0x3000
}

/// The characters of `s` without the white space at either end.
pub fn trimmed(s: &[char]) -> (r: &[char])
    ensures
        r@ == trim(s@),
{
    let n: usize = s.len();
    let mut a: usize = 0;
    assert(s@.skip(0) =~= s@);
    while a < n && is_white_char(s[a])
        invariant
            a <= n,
            n == s@.len(),
            trim_start(s@) == trim_start(s@.skip(a as int)),
        decreases n - a,
    {
        assert(s@.skip(a as int).drop_first() =~= s@.skip(a + 1));
        a = a + 1;
    }
    assert(trim_start(s@) == s@.skip(a as int)) by {
        if a < n {
            assert(s@.skip(a as int)[0] == s@[a as int]);
        }
    }
    let mut b: usize = n;
    assert(s@.subrange(a as int, n as int) =~= s@.skip(a as int));
    while b > a && is_white_char(s[b - 1])
        invariant
            a <= b <= n,
            n == s@.len(),
            trim(s@) == trim_end(s@.subrange(a as int, b as int)),
        decreases b,
    {
        assert(s@.subrange(a as int, b as int).drop_last() =~= s@.subrange(a as int, b - 1));
        b = b - 1;
    }
    assert(trim(s@) == s@.subrange(a as int, b as int)) by {
        if a < b {
            assert(s@.subrange(a as int, b as int).last() == s@[b - 1]);
        }
    }
    vstd::slice::slice_subrange(s, a, b)
}

// ---- Finding and splitting ----

/// The first position of a character, or the length where it does not occur.
pub open spec fn first_index(s: Seq<char>, c: char) -> int
    decreases s.len(),
{
    if s.len() == 0 || s[0] == c {
        0
    } else {
        1 + first_index(s.drop_first(), c)
    }
}

/// `first_index` is the first position of `c`.
pub proof fn lemma_first_index(s: Seq<char>, c: char)
    ensures
        0 <= first_index(s, c) <= s.len(),
        first_index(s, c) < s.len() ==> s[first_index(s, c)] == c,
        forall|i: int| 0 <= i < first_index(s, c) ==> s[i] != c,
    decreases s.len(),
{
    if s.len() > 0 && s[0] != c {
        lemma_first_index(s.drop_first(), c);
        assert forall|i: int| 0 <= i < first_index(s, c) implies s[i] != c by {
            if i > 0 {
                assert(s.drop_first()[i - 1] == s[i]);
            }
        }
    }
}

/// A position that holds `c`, with no `c` before it, is the first one.
pub proof fn lemma_first_index_is(s: Seq<char>, c: char, k: int)
    requires
        0 <= k <= s.len(),
        k < s.len() ==> s[k] == c,
        forall|i: int| 0 <= i < k ==> s[i] != c,
    ensures
        first_index(s, c) == k,
{
    lemma_first_index(s, c);
    if first_index(s, c) < k {
        assert(s[first_index(s, c)] != c);
    }
}

/// The first position of `c` in `s`, or the length of `s` where there is none.
pub fn find_first(s: &[char], c: char) -> (r: usize)
    ensures
        r == first_index(s@, c),
        r <= s@.len(),
{
    let n: usize = s.len();
    let mut i: usize = 0;
    while i < n
        invariant
            i <= n,
            n == s@.len(),
            forall|k: int| 0 <= k < i ==> s@[k] != c,
        decreases n - i,
    {
        if s[i] == c {
            proof {
                lemma_first_index_is(s@, c, i as int);
            }
            return i;
        }
        i = i + 1;
    }
    proof {
        lemma_first_index_is(s@, c, n as int);
    }
    n
}

/// The texts before and after the first `c`.
pub open spec fn split_once(s: Seq<char>, c: char) -> Option<(Seq<char>, Seq<char>)> {
    let i = first_index(s, c);
    if i < s.len() {
        Some((s.take(i), s.skip(i + 1)))
    } else {
        None
    }
}

/// The position of the last `c`, or -1 where it does not occur.
pub open spec fn last_index(s: Seq<char>, c: char) -> int
    decreases s.len(),
{
    if s.len() == 0 || s.last() == c {
        s.len() - 1
    } else {
        last_index(s.drop_last(), c)
    }
}

/// `last_index` is the last position of `c`.
pub proof fn lemma_last_index(s: Seq<char>, c: char)
    ensures
        -1 <= last_index(s, c) < s.len(),
        last_index(s, c) >= 0 ==> s[last_index(s, c)] == c,
        forall|i: int| last_index(s, c) < i < s.len() ==> s[i] != c,
    decreases s.len(),
{
    if s.len() > 0 && s.last() != c {
        lemma_last_index(s.drop_last(), c);
        assert forall|i: int| last_index(s, c) < i < s.len() implies s[i] != c by {
            if i < s.len() - 1 {
                assert(s.drop_last()[i] == s[i]);
            }
        }
    }
}

/// A position that holds `c`, with no `c` behind it, is the last one.
pub proof fn lemma_last_index_is(s: Seq<char>, c: char, k: int)
    requires
        -1 <= k < s.len(),
        k >= 0 ==> s[k] == c,
        forall|i: int| k < i < s.len() ==> s[i] != c,
    ensures
        last_index(s, c) == k,
{
    lemma_last_index(s, c);
    if last_index(s, c) > k {
        assert(s[last_index(s, c)] != c);
    }
}

/// The texts before and after the last `c`.
pub open spec fn rsplit_once(s: Seq<char>, c: char) -> Option<(Seq<char>, Seq<char>)> {
    let i = last_index(s, c);
    if i >= 0 {
        Some((s.take(i), s.skip(i + 1)))
    } else {
        None
    }
}

/// The last position of `c` in `s`.
pub fn find_last(s: &[char], c: char) -> (r: Option<usize>)
    ensures
        match r {
            Some(i) => i == last_index(s@, c) && i < s@.len(),
            None => last_index(s@, c) == -1,
        },
{
    let n: usize = s.len();
    let mut i: usize = n;
    while i > 0
        invariant
            i <= n,
            n == s@.len(),
            forall|k: int| i <= k < n ==> s@[k] != c,
        decreases i,
    {
        if s[i - 1] == c {
            proof {
                lemma_last_index_is(s@, c, i - 1);
            }
            return Some(i - 1);
        }
        i = i - 1;
    }
    proof {
        lemma_last_index_is(s@, c, -1);
    }
    None
}

/// The text without one carriage return at its end.
pub open spec fn strip_cr(s: Seq<char>) -> Seq<char> {
    if s.len() > 0 && s.last() == '\r' {
        s.drop_last()
    } else {
        s
    }
}

/// The lines of a text. A line ends at a line feed, or at a carriage return with a line feed; the
/// last line may lack its end.
pub open spec fn lines(s: Seq<char>) -> Seq<Seq<char>>
    decreases s.len(),
    via lines_decreases
{
    if s.len() == 0 {
        seq![]
    } else if first_index(s, '\n') < s.len() {
        seq![strip_cr(s.take(first_index(s, '\n')))] + lines(s.skip(first_index(s, '\n') + 1))
    } else {
        seq![s]
    }
}

#[via_fn]
proof fn lines_decreases(s: Seq<char>) {
    lemma_first_index(s, '\n');
}

/// Where the line at the head of `s` ends, and where the next one starts.
pub fn first_line(s: &[char]) -> (r: (usize, usize))
    requires
        s@.len() > 0,
    ensures
        r.0 <= s@.len(),
        0 < r.1 <= s@.len(),
        lines(s@) == seq![s@.take(r.0 as int)] + lines(s@.skip(r.1 as int)),
{
    let n: usize = s.len();
    let i: usize = find_first(s, '\n');
    if i < n {
        if i > 0 && s[i - 1] == '\r' {
            assert(s@.take(i as int).drop_last() =~= s@.take(i - 1));
            (i - 1, i + 1)
        } else {
            (i, i + 1)
        }
    } else {
        assert(s@.take(n as int) =~= s@);
        assert(s@.skip(n as int) =~= seq![]);
        assert(lines(s@) =~= seq![s@.take(n as int)] + lines(s@.skip(n as int)));
        (n, n)
    }
}

/// Whether two texts are the same.
pub fn same_text(a: &[char], b: &[char]) -> (r: bool)
    ensures
        r == (a@ == b@),
{
    let n: usize = a.len();
    if n != b.len() {
        return false;
    }
    let mut i: usize = 0;
    while i < n
        invariant
            i <= n,
            n == a@.len(),
            n == b@.len(),
            forall|k: int| 0 <= k < i ==> a@[k] == b@[k],
        decreases n - i,
    {
        if a[i] != b[i] {
            return false;
        }
        i = i + 1;
    }
    assert(a@ =~= b@);
    true
}

/// Whether the characters are those of a string.
pub fn is_text(a: &[char], b: &str) -> (r: bool)
    ensures
        r == (a@ == b@),
{
    let b: Vec<char> = chars_of(b);
    same_text(a, b.as_slice())
}

/// Whether two strings are the same.
pub fn same_str(a: &str, b: &str) -> (r: bool)
    ensures
        r == (a@ == b@),
{
    let a: Vec<char> = chars_of(a);
    is_text(a.as_slice(), b)
}

/// Whether the characters start with those of a string.
pub fn has_prefix(a: &[char], prefix: &str) -> (r: bool)
    ensures
        r == prefix@.is_prefix_of(a@),
{
    let p: Vec<char> = chars_of(prefix);
    let n: usize = p.len();
    if a.len() < n {
        return false;
    }
    let r = same_text(vstd::slice::slice_subrange(a, 0, n), p.as_slice());
    assert(a@.subrange(0, n as int) =~= a@.take(n as int));
    assert(r == (prefix@ =~= a@.subrange(0, prefix@.len() as int)));
    r
}

// ---- Numbers ----

/// The character of a digit below 16, in lower case.
pub open spec fn digit_char(d: int) -> char {
    if d < 10 {
        (0x30 + d) as char
    } else {
        (0x57 + d) as char
    }
}

/// A number written in a base, without leading zeros.
pub open spec fn numeral(n: nat, base: nat) -> Seq<char>
    decreases n,
    via numeral_decreases
{
    if n < base || base < 2 {
        seq![digit_char(n as int)]
    } else {
        numeral(n / base, base).push(digit_char((n % base) as int))
    }
}

#[via_fn]
proof fn numeral_decreases(n: nat, base: nat) {
    if 2 <= base <= n {
        assert(n / base < n) by (nonlinear_arith)
            requires
                2 <= base <= n,
        ;
    }
}

/// A number in decimal.
pub open spec fn decimal(n: nat) -> Seq<char> {
    numeral(n, 10)
}

/// A number in lower case hexadecimal.
pub open spec fn hexadecimal(n: nat) -> Seq<char> {
    numeral(n, 16)
}

/// Whether a character is a decimal digit.
pub open spec fn is_digit(c: char) -> bool {
    0x30 <= c as u32 <= 0x39
}

/// Whether a text holds decimal digits only.
pub open spec fn all_digits(s: Seq<char>) -> bool {
    forall|i: int| 0 <= i < s.len() ==> is_digit(#[trigger] s[i])
}

/// The number that decimal digits write.
pub open spec fn digits_value(s: Seq<char>) -> nat
    decreases s.len(),
{
    if s.len() == 0 {
        0
    } else {
        10 * digits_value(s.drop_last()) + (s.last() as u32 - 0x30) as nat
    }
}

/// The number that a text writes in decimal: an optional plus sign, then digits only, for a
/// number of at most `max`.
pub open spec fn parse_decimal(s: Seq<char>, max: nat) -> Option<nat> {
    let digits = if s.len() > 0 && s[0] == '+' { s.drop_first() } else { s };
    if digits.len() > 0 && all_digits(digits) && digits_value(digits) <= max {
        Some(digits_value(digits))
    } else {
        None
    }
}

fn digit_of(d: u8) -> (c: char)
    requires
        d < 16,
    ensures
        c == digit_char(d as int),
{
    if d < 10 {
        (0x30u8 + d) as char
    } else {
        (0x57u8 + d) as char
    }
}

/// Writes a number in a base from 2 to 16.
pub fn numeral_chars(n: u64, base: u64) -> (r: Vec<char>)
    requires
        2 <= base <= 16,
    ensures
        r@ == numeral(n as nat, base as nat),
    decreases n,
{
    if n < base {
        let mut r: Vec<char> = Vec::new();
        r.push(digit_of(n as u8));
        assert(r@ =~= seq![digit_char(n as int)]);
        r
    } else {
        assert(n / base < n) by (nonlinear_arith)
            requires
                2 <= base <= n,
        ;
        let mut r = numeral_chars(n / base, base);
        r.push(digit_of((n % base) as u8));
        r
    }
}

proof fn lemma_digits_value_mono(s: Seq<char>, i: int)
    requires
        0 <= i <= s.len(),
        all_digits(s),
    ensures
        digits_value(s.take(i)) <= digits_value(s),
    decreases s.len() - i,
{
    if i < s.len() {
        lemma_digits_value_mono(s, i + 1);
        assert(s.take(i + 1).drop_last() =~= s.take(i));
        assert(is_digit(s[i]));
        assert(digits_value(s.take(i + 1)) >= digits_value(s.take(i)));
    } else {
        assert(s.take(i) =~= s);
    }
}

/// The number of at most `max` that a text writes in decimal.
pub fn parse_number(s: &[char], max: u64) -> (r: Option<u64>)
    ensures
        match r {
            Some(n) => parse_decimal(s@, max as nat) == Some(n as nat),
            None => parse_decimal(s@, max as nat) is None,
        },
{
    let n: usize = s.len();
    let start: usize = if n > 0 && s[0] == '+' { 1 } else { 0 };
    let ghost digits = s@.skip(start as int);
    assert(start == 1 ==> digits =~= s@.drop_first());
    assert(start == 0 ==> digits =~= s@);
    if start == n {
        return None;
    }
    let mut value: u64 = 0;
    let mut i: usize = start;
    assert(digits.take(0) =~= seq![]);
    while i < n
        invariant
            start <= i <= n,
            n == s@.len(),
            digits == s@.skip(start as int),
            forall|k: int| 0 <= k < i - start ==> is_digit(#[trigger] digits[k]),
            value == digits_value(digits.take(i - start)),
            value <= max,
            parse_decimal(s@, max as nat) == (if digits.len() > 0 && all_digits(digits) && digits_value(digits) <= max {
                Some(digits_value(digits))
            } else {
                None
            }),
        decreases n - i,
    {
        let c: u32 = s[i] as u32;
        assert(digits[i - start] == s@[i as int]);
        if c < 0x30 || c > 0x39 {
            assert(!is_digit(digits[i - start]));
            return None;
        }
        let next: u128 = value as u128 * 10 + (c - 0x30) as u128;
        assert(digits.take(i + 1 - start).drop_last() =~= digits.take(i - start));
        assert(digits_value(digits.take(i + 1 - start)) == next);
        if next > max as u128 {
            proof {
                if all_digits(digits) {
                    lemma_digits_value_mono(digits, i + 1 - start);
                }
            }
            return None;
        }
        value = next as u64;
        i = i + 1;
    }
    assert(digits.take(n - start) =~= digits);
    Some(value)
}

/// A number in decimal, with leading zeros up to a width.
pub open spec fn padded(n: nat, width: nat) -> Seq<char> {
    zeros((width - decimal(n).len()) as int) + decimal(n)
}

/// Some zeros.
pub open spec fn zeros(n: int) -> Seq<char> {
    Seq::new(if n > 0 { n as nat } else { 0 }, |i: int| '0')
}

/// A number in decimal.
pub fn decimal_string(n: u64) -> (r: String)
    ensures
        r@ == decimal(n as nat),
{
    let chars = numeral_chars(n, 10);
    string_of(chars.as_slice())
}

/// A number in decimal, with leading zeros up to a width.
pub fn padded_string(n: u64, width: usize) -> (r: String)
    ensures
        r@ == padded(n as nat, width as nat),
{
    let digits = numeral_chars(n, 10);
    let len: usize = digits.len();
    let mut chars: Vec<char> = Vec::new();
    let missing: usize = if width > len { width - len } else { 0 };
    while chars.len() < missing
        invariant
            chars@.len() <= missing,
            forall|i: int| 0 <= i < chars@.len() ==> chars@[i] == '0',
        decreases missing - chars@.len(),
    {
        chars.push('0');
    }
    assert(chars@ =~= zeros(width - len));
    chars.extend_from_slice(digits.as_slice());
    assert(chars@ =~= padded(n as nat, width as nat));
    string_of(chars.as_slice())
}

proof fn lemma_decimal_digits(n: nat)
    ensures
        decimal(n).len() > 0,
        all_digits(decimal(n)),
        digits_value(decimal(n)) == n,
    decreases n,
{
    if n < 10 {
        assert(decimal(n).drop_last() =~= seq![]);
        assert(decimal(n) =~= seq![digit_char(n as int)]);
        assert(digits_value(decimal(n).drop_last()) == 0);
    } else {
        lemma_decimal_digits(n / 10);
        assert(decimal(n) == decimal(n / 10).push(digit_char((n % 10) as int)));
        assert(decimal(n).drop_last() =~= decimal(n / 10));
    }
}

/// Reading a number in decimal gives back the number that was written.
pub proof fn lemma_decimal_round_trip(n: nat, max: nat)
    requires
        n <= max,
    ensures
        parse_decimal(decimal(n), max) == Some(n),
{
    lemma_decimal_digits(n);
    assert(is_digit(decimal(n)[0]));
}

/// A number in decimal holds digits only.
pub proof fn lemma_decimal_is_digits(n: nat)
    ensures
        decimal(n).len() > 0,
        all_digits(decimal(n)),
{
    lemma_decimal_digits(n);
}

/// Trimming leaves a text alone that neither starts nor ends with white space.
pub proof fn lemma_trim_id(s: Seq<char>)
    requires
        s.len() > 0,
        !is_white(s[0]),
        !is_white(s.last()),
    ensures
        trim(s) == s,
{
}

// ---- Text as bytes ----

/// Whether a text is free of line feeds.
pub open spec fn one_line(s: Seq<char>) -> bool {
    forall|i: int| 0 <= i < s.len() ==> s[i] != '\n'
}

/// The bytes of two texts in a row are the bytes of the first and then those of the second.
pub proof fn lemma_bytes_concat(a: Seq<char>, b: Seq<char>)
    ensures
        vstd::utf8::encode_utf8(a + b) == vstd::utf8::encode_utf8(a) + vstd::utf8::encode_utf8(b),
    decreases a.len(),
{
    if a.len() == 0 {
        assert(a + b =~= b);
        assert(vstd::utf8::encode_utf8(a) =~= seq![]);
        assert(vstd::utf8::encode_utf8(a) + vstd::utf8::encode_utf8(b) =~= vstd::utf8::encode_utf8(b));
    } else {
        lemma_bytes_concat(a.drop_first(), b);
        assert((a + b).drop_first() =~= a.drop_first() + b);
        let first = vstd::utf8::encode_scalar(a[0] as u32);
        let rest = vstd::utf8::encode_utf8(a.drop_first());
        let after = vstd::utf8::encode_utf8(b);
        assert(first + (rest + after) =~= (first + rest) + after);
    }
}

/// A character below 128 is one byte.
pub proof fn lemma_ascii_byte(c: char)
    requires
        c as u32 <= 0x7f,
    ensures
        vstd::utf8::encode_utf8(seq![c]) == seq![c as u8],
{
    lemma_scalar_bytes(c as u32);
    assert(seq![c].drop_first() =~= seq![]);
    assert(vstd::utf8::encode_utf8(seq![c].drop_first()) =~= seq![]);
    assert(vstd::utf8::encode_utf8(seq![c]) =~= seq![c as u8]);
}

proof fn lemma_scalar_bytes(v: u32)
    requires
        v <= 0x10ffff,
    ensures
        v <= 0x7f ==> vstd::utf8::encode_scalar(v) == seq![v as u8],
        v > 0x7f ==> forall|i: int| 0 <= i < vstd::utf8::encode_scalar(v).len() ==> vstd::utf8::encode_scalar(v)[i] >= 0x80,
{
    if v <= 0x7f {
        assert((v & 0x7f) as u8 == v as u8) by (bit_vector)
            requires
                v <= 0x7f,
        ;
        assert(vstd::utf8::encode_scalar(v) =~= seq![v as u8]);
    }
    assert(0xC0u8 | ((v >> 6) & 0x1F) as u8 >= 0x80) by (bit_vector);
    assert(0xE0u8 | ((v >> 12) & 0x0F) as u8 >= 0x80) by (bit_vector);
    assert(0xF0u8 | ((v >> 18) & 0x7) as u8 >= 0x80) by (bit_vector);
    assert(0x80u8 | (v & 0x3F) as u8 >= 0x80) by (bit_vector);
    assert(0x80u8 | ((v >> 6) & 0x3F) as u8 >= 0x80) by (bit_vector);
    assert(0x80u8 | ((v >> 12) & 0x3F) as u8 >= 0x80) by (bit_vector);
}

/// The bytes of a text without line feeds hold no line feed, and there are some where the text is
/// not empty.
pub proof fn lemma_one_line_bytes(s: Seq<char>)
    requires
        one_line(s),
    ensures
        forall|i: int| 0 <= i < vstd::utf8::encode_utf8(s).len() ==> vstd::utf8::encode_utf8(s)[i] != 10,
        s.len() <= vstd::utf8::encode_utf8(s).len(),
    decreases s.len(),
{
    if s.len() > 0 {
        lemma_one_line_bytes(s.drop_first());
        let v = s[0] as u32;
        vstd::utf8::char_is_scalar(s[0]);
        vstd::utf8::char_u32_cast(s[0], v);
        lemma_scalar_bytes(v);
        assert(s[0] != '\n');
    }
}

// ---- What the functions above come to, in plain terms ----

/// The bytes of a text read as that text.
pub proof fn lemma_text_of_bytes(s: Seq<char>)
    ensures
        lossy_text(vstd::utf8::encode_utf8(s)) == s,
{
    vstd::utf8::encode_utf8_valid_utf8(s);
    vstd::utf8::encode_utf8_decode_utf8(s);
}

/// A number in decimal is the decimal of its tens with one more of the ten digits behind it.
pub proof fn lemma_decimal_by_digits(n: nat)
    ensures
        n < 10 ==> decimal(n) == seq!["0123456789"@[n as int]],
        n >= 10 ==> decimal(n) == decimal(n / 10).push("0123456789"@[(n % 10) as int]),
{
    reveal_strlit("0123456789");
    let d = n % 10;
    assert(digit_char(d as int) == "0123456789"@[d as int]);
    if n < 10 {
        assert(decimal(n) =~= seq![digit_char(n as int)]);
    }
}

/// A number in hexadecimal is the hexadecimal of its sixteenths with one more of the sixteen digits
/// behind it.
pub proof fn lemma_hexadecimal_by_digits(n: nat)
    ensures
        n < 16 ==> hexadecimal(n) == seq!["0123456789abcdef"@[n as int]],
        n >= 16 ==> hexadecimal(n) == hexadecimal(n / 16).push("0123456789abcdef"@[(n % 16) as int]),
{
    reveal_strlit("0123456789abcdef");
    let d = n % 16;
    assert(digit_char(d as int) == "0123456789abcdef"@[d as int]);
    if n < 16 {
        assert(hexadecimal(n) =~= seq![digit_char(n as int)]);
    }
}

/// A number below 100 in two digits.
pub proof fn lemma_two_digits(n: nat)
    requires
        n < 100,
    ensures
        padded(n, 2) == seq!["0123456789"@[(n / 10) as int], "0123456789"@[(n % 10) as int]],
{
    reveal_strlit("0123456789");
    lemma_decimal_by_digits(n);
    if n < 10 {
        assert(padded(n, 2) =~= seq!['0', "0123456789"@[n as int]]);
    } else {
        lemma_decimal_by_digits(n / 10);
        assert(padded(n, 2) =~= decimal(n));
        assert(decimal(n) =~= seq!["0123456789"@[(n / 10) as int], "0123456789"@[(n % 10) as int]]);
    }
}

/// A number of four digits takes no padding to four.
pub proof fn lemma_four_digits(n: nat)
    requires
        1000 <= n,
    ensures
        padded(n, 4) == decimal(n),
{
    lemma_decimal_by_digits(n);
    lemma_decimal_by_digits(n / 10);
    lemma_decimal_by_digits(n / 10 / 10);
    lemma_decimal_by_digits(n / 10 / 10 / 10);
    lemma_decimal_is_digits(n / 10 / 10 / 10);
    assert(padded(n, 4) =~= decimal(n));
}

/// The number that a text writes: one more digit behind it makes it ten times as large, plus the
/// digit.
pub proof fn lemma_digits_value_by_digits(s: Seq<char>, d: nat)
    requires
        d < 10,
    ensures
        digits_value(seq![]) == 0,
        digits_value(s.push("0123456789"@[d as int])) == 10 * digits_value(s) + d,
{
    reveal_strlit("0123456789");
    assert(s.push("0123456789"@[d as int]).drop_last() =~= s);
}

/// What reads as a number: the decimal of every number up to the largest, with any leading zeros and
/// with or without a plus sign; no larger number, no empty text, no lone sign, and nothing that holds
/// another character.
pub proof fn lemma_parse_decimal(n: nat, max: nat, z: nat, s: Seq<char>)
    ensures
        parse_decimal(zeros(z as int) + decimal(n), max) == (if n <= max {
            Some(n)
        } else {
            None
        }),
        parse_decimal(seq!['+'] + (zeros(z as int) + decimal(n)), max) == (if n <= max {
            Some(n)
        } else {
            None
        }),
        parse_decimal(seq![], max) is None,
        parse_decimal(seq!['+'], max) is None,
        (exists|i: int| 0 < i < s.len() && !("0123456789"@.contains(#[trigger] s[i]))) ==> parse_decimal(s, max) is None,
        s.len() > 0 && s[0] != '+' && !("0123456789"@.contains(s[0])) ==> parse_decimal(s, max) is None,
{
    reveal_strlit("0123456789");
    let t = zeros(z as int) + decimal(n);
    lemma_decimal_digits(n);
    lemma_zeros_in_front(decimal(n), z);
    assert(t[0] == '0' || t[0] == decimal(n)[0]);
    assert(is_digit(t[0])) by {
        assert(all_digits(t));
    }
    assert((seq!['+'] + t).drop_first() =~= t);
    assert(seq!['+'].drop_first() =~= seq![]);
    if exists|i: int| 0 < i < s.len() && !("0123456789"@.contains(#[trigger] s[i])) {
        let i = choose|i: int| 0 < i < s.len() && !("0123456789"@.contains(#[trigger] s[i]));
        lemma_digit_is_listed(s[i]);
        if s[0] == '+' {
            assert(s.drop_first()[i - 1] == s[i]);
        }
    }
    if s.len() > 0 {
        lemma_digit_is_listed(s[0]);
    }
}

proof fn lemma_digit_is_listed(c: char)
    ensures
        is_digit(c) ==> "0123456789"@.contains(c),
{
    reveal_strlit("0123456789");
    if is_digit(c) {
        assert("0123456789"@[c as u32 - 0x30] == c);
    }
}

proof fn lemma_zeros_in_front(s: Seq<char>, z: nat)
    requires
        all_digits(s),
    ensures
        all_digits(zeros(z as int) + s),
        digits_value(zeros(z as int) + s) == digits_value(s),
    decreases s.len(), z,
{
    let t = zeros(z as int) + s;
    assert forall|i: int| 0 <= i < t.len() implies is_digit(#[trigger] t[i]) by {
        if i >= z {
            assert(t[i] == s[i - z]);
        }
    }
    if s.len() > 0 {
        assert forall|i: int| 0 <= i < s.drop_last().len() implies is_digit(#[trigger] s.drop_last()[i]) by {
            assert(is_digit(s[i]));
        }
        lemma_zeros_in_front(s.drop_last(), z);
        assert(t.drop_last() =~= zeros(z as int) + s.drop_last());
    } else if z > 0 {
        lemma_zeros_in_front(s, (z - 1) as nat);
        assert(t.drop_last() =~= zeros(z - 1) + s);
    } else {
        assert(t =~= s);
    }
}

/// A text splits at the first of a character: what stands before it holds none.
pub proof fn lemma_split_once(a: Seq<char>, c: char, b: Seq<char>)
    requires
        !a.contains(c),
    ensures
        split_once(a + seq![c] + b, c) == Some((a, b)),
        split_once(a, c) is None,
{
    let s = a + seq![c] + b;
    assert forall|i: int| 0 <= i < a.len() implies s[i] != c by {
        assert(a.contains(a[i]));
    }
    lemma_first_index_is(s, c, a.len() as int);
    assert(s.take(a.len() as int) =~= a);
    assert(s.skip(a.len() as int + 1) =~= b);
    lemma_first_index(a, c);
    if first_index(a, c) < a.len() {
        assert(a.contains(a[first_index(a, c)]));
    }
}

/// A text splits at the last of a character: what stands behind it holds none.
pub proof fn lemma_rsplit_once(a: Seq<char>, c: char, b: Seq<char>)
    requires
        !b.contains(c),
    ensures
        rsplit_once(a + seq![c] + b, c) == Some((a, b)),
        rsplit_once(b, c) is None,
{
    let s = a + seq![c] + b;
    let k = a.len() as int;
    assert forall|i: int| k < i < s.len() implies s[i] != c by {
        assert(s[i] == b[i - k - 1]);
        assert(b.contains(b[i - k - 1]));
    }
    lemma_last_index_is(s, c, k);
    assert(s.take(k) =~= a);
    assert(s.skip(k + 1) =~= b);
    lemma_last_index(b, c);
    if last_index(b, c) >= 0 {
        assert(b.contains(b[last_index(b, c)]));
    }
}

/// A text with a line in front of it has that line first, whether the line ends with a line feed or
/// with a carriage return and a line feed. A text without a line feed is one line.
pub proof fn lemma_lines_front(line: Seq<char>, rest: Seq<char>)
    requires
        !line.contains('\n'),
        line.len() > 0 ==> line.last() != '\r',
    ensures
        lines(seq![]) == Seq::<Seq<char>>::empty(),
        lines(line + seq!['\n'] + rest) == seq![line] + lines(rest),
        lines(line + seq!['\r', '\n'] + rest) == seq![line] + lines(rest),
        line.len() > 0 ==> lines(line) == seq![line],
{
    let s = line + seq!['\n'] + rest;
    let t = line + seq!['\r', '\n'] + rest;
    let k = line.len() as int;
    assert forall|i: int| 0 <= i < k implies line[i] != '\n' by {
        assert(line.contains(line[i]));
    }
    lemma_first_index_is(s, '\n', k);
    assert(s.take(k) =~= line);
    assert(s.skip(k + 1) =~= rest);
    assert forall|i: int| 0 <= i < k + 1 implies t[i] != '\n' by {}
    lemma_first_index_is(t, '\n', k + 1);
    assert(t.take(k + 1) =~= line.push('\r'));
    assert(strip_cr(t.take(k + 1)) =~= line);
    assert(t.skip(k + 2) =~= rest);
    lemma_first_index(line, '\n');
}

/// The blanks at the ends of a text are the 25 characters that Unicode counts as white space, and no
/// others.
pub proof fn lemma_blanks(c: char)
    ensures
        is_white(c) <==> seq![
            0x09u32,
            0x0au32,
            0x0bu32,
            0x0cu32,
            0x0du32,
            0x20u32,
            0x85u32,
            0xa0u32,
            0x1680u32,
            0x2000u32,
            0x2001u32,
            0x2002u32,
            0x2003u32,
            0x2004u32,
            0x2005u32,
            0x2006u32,
            0x2007u32,
            0x2008u32,
            0x2009u32,
            0x200au32,
            0x2028u32,
            0x2029u32,
            0x202fu32,
            0x205fu32,
            0x3000u32,
        ].contains(c as u32),
{
    let all = seq![
        0x09u32,
        0x0au32,
        0x0bu32,
        0x0cu32,
        0x0du32,
        0x20u32,
        0x85u32,
        0xa0u32,
        0x1680u32,
        0x2000u32,
        0x2001u32,
        0x2002u32,
        0x2003u32,
        0x2004u32,
        0x2005u32,
        0x2006u32,
        0x2007u32,
        0x2008u32,
        0x2009u32,
        0x200au32,
        0x2028u32,
        0x2029u32,
        0x202fu32,
        0x205fu32,
        0x3000u32,
    ];
    let v = c as u32;
    if 0x9 <= v <= 0xd {
        assert(all[v - 0x9] == v);
    } else if 0x2000 <= v <= 0x200a {
        assert(all[9 + (v - 0x2000)] == v);
    } else if is_white(c) {
        assert(v == all[5] || v == all[6] || v == all[7] || v == all[8] || v == all[20] || v == all[21] || v == all[22] || v == all[23]
            || v == all[24]);
    }
}

/// Trimming takes the blanks at both ends away, and those alone: what is left neither starts nor ends
/// with one.
pub proof fn lemma_trim(p: Seq<char>, s: Seq<char>, q: Seq<char>)
    requires
        all_white(p),
        all_white(q),
        s.len() > 0 ==> !is_white(s[0]) && !is_white(s.last()),
    ensures
        trim(p + s + q) == s,
{
    lemma_trim_padded(p, s, q);
    if s.len() > 0 {
        lemma_trim_id(s);
    }
}

/// A number in any base from 2 to 16 is its quotient by the base with one more digit behind it.
pub proof fn lemma_numeral_by_digits(n: nat, base: nat)
    requires
        2 <= base <= 16,
    ensures
        n < base ==> numeral(n, base) == seq!["0123456789abcdef"@[n as int]],
        n >= base ==> numeral(n, base) == numeral(n / base, base).push("0123456789abcdef"@[(n % base) as int]),
{
    reveal_strlit("0123456789abcdef");
    let d = n % base;
    vstd::arithmetic::div_mod::lemma_mod_bound(n as int, base as int);
    assert(digit_char(d as int) == "0123456789abcdef"@[d as int]);
    if n < base {
        vstd::arithmetic::div_mod::lemma_small_mod(n, base);
    }
}

/// A padded number is as wide as was asked for, or wider where the number is: zeros and then its decimal.
pub proof fn lemma_padded(n: nat, width: nat)
    ensures
        decimal(n).len() >= width ==> padded(n, width) == decimal(n),
        decimal(n).len() < width ==> {
            let k = width - decimal(n).len();
            &&& padded(n, width).len() == width
            &&& forall|i: int| 0 <= i < k ==> padded(n, width)[i] == '0'
            &&& padded(n, width).skip(k) == decimal(n)
        },
{
    if decimal(n).len() >= width {
        assert(padded(n, width) =~= decimal(n));
    } else {
        let k = width - decimal(n).len();
        assert(padded(n, width).skip(k) =~= decimal(n));
    }
}

}
