//! The HTTP disguise: a WebSocket upgrade request or response ahead of the payload.
use crate::entropy::unix_seconds;
use crate::text;
use vstd::prelude::*;
use vstd::string::StringExecFns;

verus! {

// ---- Content-Length ----

/// Whether a line announces a body length.
pub open spec fn announces(line: Seq<char>) -> bool {
    "Content-Length:"@.is_prefix_of(line) || "content-length:"@.is_prefix_of(line)
}

/// The number that the first `Content-Length` line announces; `None` where there is no such line,
/// or where it does not hold a number.
pub open spec fn announced_length(lines: Seq<Seq<char>>) -> Option<nat>
    decreases lines.len(),
{
    if lines.len() == 0 {
        None
    } else if announces(lines[0]) {
        text::parse_decimal(text::trim(lines[0].skip(15)), usize::MAX as nat)
    } else {
        announced_length(lines.drop_first())
    }
}

/// The body length that the lines of a header block announce.
pub fn extract_content_length(headers: &str) -> (r: Option<usize>)
    ensures
        match r {
            Some(n) => announced_length(text::lines(headers@)) == Some(n as nat),
            None => announced_length(text::lines(headers@)) is None,
        },
{
    proof {
        reveal_strlit("Content-Length:");
        reveal_strlit("content-length:");
    }
    let chars = text::chars_of(headers);
    let n: usize = chars.len();
    let mut start: usize = 0;
    assert(chars@.skip(0) =~= chars@);
    while start < n
        invariant
            start <= n,
            n == chars@.len(),
            "Content-Length:"@.len() == 15,
            "content-length:"@.len() == 15,
            announced_length(text::lines(headers@)) == announced_length(text::lines(chars@.skip(start as int))),
        decreases n - start,
    {
        let rest: &[char] = vstd::slice::slice_subrange(chars.as_slice(), start, n);
        assert(rest@ =~= chars@.skip(start as int));
        let (end, next) = text::first_line(rest);
        let line: &[char] = vstd::slice::slice_subrange(rest, 0, end);
        assert(line@ =~= rest@.take(end as int));
        let ghost all = text::lines(rest@);
        assert(all[0] == line@);
        assert(all.drop_first() =~= text::lines(rest@.skip(next as int)));
        if text::has_prefix(line, "Content-Length:") || text::has_prefix(line, "content-length:") {
            let value = text::trimmed(vstd::slice::slice_subrange(line, 15, line.len()));
            assert(line@.subrange(15, line@.len() as int) =~= line@.skip(15));
            return match text::parse_number(value, usize::MAX as u64) {
                Some(v) => Some(v as usize),
                None => None,
            };
        }
        assert(rest@.skip(next as int) =~= chars@.skip(start + next));
        start = start + next;
    }
    assert(chars@.skip(n as int) =~= seq![]);
    None
}

// ---- Base64 ----

/// A symbol of the URL-safe Base64 alphabet.
pub open spec fn base64_symbol(i: int) -> char {
    if i < 26 {
        (0x41 + i) as char
    } else if i < 52 {
        (0x61 + i - 26) as char
    } else if i < 62 {
        (0x30 + i - 52) as char
    } else if i == 62 {
        '-'
    } else {
        '_'
    }
}

/// Up to three bytes as a 24 bit number, with zeros for the bytes that lack.
pub open spec fn base64_triple(data: Seq<u8>) -> int {
    data[0] * 0x1_0000 + (if data.len() > 1 { data[1] as int } else { 0 }) * 0x100 + (if data.len() > 2 {
        data[2] as int
    } else {
        0
    })
}

/// Bytes in URL-safe Base64 without padding: four symbols for three bytes, and one symbol more
/// than there are bytes for a last group of one or two.
pub open spec fn base64_url(data: Seq<u8>) -> Seq<char>
    decreases data.len(),
{
    if data.len() == 0 {
        seq![]
    } else {
        let t = base64_triple(data);
        let symbols = seq![
            base64_symbol(t / 0x4_0000 % 64),
            base64_symbol(t / 0x1000 % 64),
            base64_symbol(t / 0x40 % 64),
            base64_symbol(t % 64),
        ];
        if data.len() <= 3 {
            symbols.take(data.len() as int + 1)
        } else {
            symbols + base64_url(data.skip(3))
        }
    }
}

fn symbol(i: u32) -> (c: char)
    requires
        i < 64,
    ensures
        c == base64_symbol(i as int),
{
    if i < 26 {
        (0x41u8 + i as u8) as char
    } else if i < 52 {
        (0x61u8 + (i - 26) as u8) as char
    } else if i < 62 {
        (0x30u8 + (i - 52) as u8) as char
    } else if i == 62 {
        '-'
    } else {
        '_'
    }
}

/// Bytes in URL-safe Base64 without padding.
pub fn base64_url_encode(data: &[u8]) -> (out: String)
    ensures
        out@ == base64_url(data@),
{
    let n: usize = data.len();
    let mut out = String::new();
    let mut i: usize = 0;
    assert(data@.skip(0) =~= data@);
    assert(base64_url(data@) =~= out@ + base64_url(data@.skip(0)));
    while i < n
        invariant
            i <= n,
            n == data@.len(),
            base64_url(data@) == out@ + base64_url(data@.skip(i as int)),
        decreases n - i,
    {
        let ghost rest = data@.skip(i as int);
        let ghost prior = out@;
        let left: usize = n - i;
        let b0: u32 = data[i] as u32;
        let b1: u32 = if left > 1 { data[i + 1] as u32 } else { 0 };
        let b2: u32 = if left > 2 { data[i + 2] as u32 } else { 0 };
        let triple: u32 = b0 * 0x1_0000 + b1 * 0x100 + b2;
        assert(triple == base64_triple(rest));
        out.push(symbol(triple / 0x4_0000 % 64));
        out.push(symbol(triple / 0x1000 % 64));
        if left > 1 {
            out.push(symbol(triple / 0x40 % 64));
        }
        if left > 2 {
            out.push(symbol(triple % 64));
        }
        let step: usize = if left > 3 { 3 } else { left };
        assert(left > 3 ==> rest.skip(3) =~= data@.skip(i + 3));
        assert(left <= 3 ==> data@.skip(i + left) =~= seq![]);
        assert(prior + base64_url(rest) =~= out@ + base64_url(data@.skip(i + step)));
        i = i + step;
    }
    assert(data@.skip(n as int) =~= seq![]);
    assert(out@ + base64_url(data@.skip(n as int)) =~= out@);
    out
}

// ---- Dates ----

/// Whether a year of the Gregorian calendar has 366 days.
pub open spec fn leap_year(y: int) -> bool {
    (y % 4 == 0 && y % 100 != 0) || y % 400 == 0
}

/// Number of days of a year.
pub open spec fn year_length(y: int) -> int {
    if leap_year(y) {
        366
    } else {
        365
    }
}

/// Number of days of a month, from 1 for January.
pub open spec fn month_length(y: int, m: int) -> int {
    if m == 2 {
        if leap_year(y) {
            29
        } else {
            28
        }
    } else if m == 4 || m == 6 || m == 9 || m == 11 {
        30
    } else {
        31
    }
}

/// Number of days from the start of 1970 to the start of a year.
pub open spec fn days_before_year(y: int) -> int
    decreases y - 1970,
{
    if y <= 1970 {
        0
    } else {
        days_before_year(y - 1) + year_length(y - 1)
    }
}

/// Number of days from the start of a year to the start of a month.
pub open spec fn days_before_month(y: int, m: int) -> int
    decreases m,
{
    if m <= 1 {
        0
    } else {
        days_before_month(y, m - 1) + month_length(y, m - 1)
    }
}

/// Whether a day exists in the calendar, from 1970 on.
pub open spec fn valid_date(y: int, m: int, d: int) -> bool {
    y >= 1970 && 1 <= m <= 12 && 1 <= d <= month_length(y, m)
}

/// Number of days from the start of 1970 to a date.
pub open spec fn day_number(y: int, m: int, d: int) -> int {
    days_before_year(y) + days_before_month(y, m) + d - 1
}

proof fn lemma_month_sum(y: int)
    ensures
        days_before_month(y, 13) == year_length(y),
{
    reveal_with_fuel(days_before_month, 14);
}

proof fn lemma_days_before_year(a: int, b: int)
    requires
        1970 <= a <= b,
    ensures
        days_before_year(b) >= days_before_year(a) + 365 * (b - a),
        a < b ==> days_before_year(b) >= days_before_year(a) + year_length(a),
    decreases b - a,
{
    if a < b {
        lemma_days_before_year(a, b - 1);
    }
}

proof fn lemma_days_before_month(y: int, a: int, b: int)
    requires
        1 <= a <= b <= 13,
    ensures
        days_before_month(y, b) >= days_before_month(y, a),
        a < b ==> days_before_month(y, b) >= days_before_month(y, a) + month_length(y, a),
    decreases b - a,
{
    if a < b {
        lemma_days_before_month(y, a, b - 1);
    }
}

/// No two dates have the same day number.
pub proof fn lemma_day_number_unique(y1: int, m1: int, d1: int, y2: int, m2: int, d2: int)
    requires
        valid_date(y1, m1, d1),
        valid_date(y2, m2, d2),
        day_number(y1, m1, d1) == day_number(y2, m2, d2),
    ensures
        y1 == y2,
        m1 == m2,
        d1 == d2,
{
    lemma_days_before_month(y1, m1, 13);
    lemma_days_before_month(y2, m2, 13);
    lemma_days_before_month(y1, 1, m1);
    lemma_days_before_month(y2, 1, m2);
    lemma_month_sum(y1);
    lemma_month_sum(y2);
    lemma_days_before_month(y1, m1, m1 + 1);
    lemma_days_before_month(y2, m2, m2 + 1);
    if y1 < y2 {
        lemma_days_before_year(y1, y2);
    } else if y2 < y1 {
        lemma_days_before_year(y2, y1);
    } else if m1 < m2 {
        lemma_days_before_month(y1, m1, m2);
    } else if m2 < m1 {
        lemma_days_before_month(y1, m2, m1);
    }
}

/// Whether a year has 366 days.
pub fn is_leap(y: u64) -> (r: bool)
    ensures
        r == leap_year(y as int),
{
    (y % 4 == 0 && y % 100 != 0) || y % 400 == 0
}

fn month_days(y: u64, m: u64) -> (r: u64)
    ensures
        r == month_length(y as int, m as int),
{
    if m == 2 {
        if is_leap(y) {
            29
        } else {
            28
        }
    } else if m == 4 || m == 6 || m == 9 || m == 11 {
        30
    } else {
        31
    }
}

/// The date that lies `days` days after 1970-01-01.
pub open spec fn date_of(days: int) -> (int, int, int) {
    choose|t: (int, int, int)| #[trigger] valid_date(t.0, t.1, t.2) && day_number(t.0, t.1, t.2) == days
}

/// The year, month and day of the month that lie `days` days after 1970-01-01.
pub fn days_to_date(days: u64) -> (r: (u64, u64, u64))
    ensures
        valid_date(r.0 as int, r.1 as int, r.2 as int),
        day_number(r.0 as int, r.1 as int, r.2 as int) == days,
        (r.0 as int, r.1 as int, r.2 as int) == date_of(days as int),
{
    let mut y: u64 = 1970;
    let mut remaining: u64 = days;
    let mut length: u64 = 365;
    while remaining >= length
        invariant
            1970 <= y,
            length == year_length(y as int),
            days == days_before_year(y as int) + remaining,
        decreases remaining,
    {
        remaining = remaining - length;
        proof {
            lemma_days_before_year(1970, y as int);
            assert(365 * (y - 1970) <= days);
        }
        y = y + 1;
        length = if is_leap(y) { 366 } else { 365 };
    }
    let mut m: u64 = 1;
    let mut length: u64 = 31;
    proof {
        lemma_month_sum(y as int);
    }
    while remaining >= length
        invariant
            1970 <= y,
            1 <= m <= 12,
            length == month_length(y as int, m as int),
            days == days_before_year(y as int) + days_before_month(y as int, m as int) + remaining,
            remaining + days_before_month(y as int, m as int) < days_before_month(y as int, 13),
        decreases remaining,
    {
        remaining = remaining - length;
        m = m + 1;
        length = month_days(y, m);
    }
    let d: u64 = remaining + 1;
    proof {
        let t = (y as int, m as int, d as int);
        assert(valid_date(t.0, t.1, t.2));
        let c = date_of(days as int);
        lemma_day_number_unique(t.0, t.1, t.2, c.0, c.1, c.2);
    }
    (y, m, d)
}

/// The weekday that a date line names, counted from Thursday for 1970-01-01.
pub open spec fn weekday_name(days: int) -> Seq<char> {
    let i = (3 + days) % 7;
    if i == 0 {
        "Mon"@
    } else if i == 1 {
        "Tue"@
    } else if i == 2 {
        "Wed"@
    } else if i == 3 {
        "Thu"@
    } else if i == 4 {
        "Fri"@
    } else if i == 5 {
        "Sat"@
    } else {
        "Sun"@
    }
}

/// The name of a month, from 1 for January.
pub open spec fn month_name(m: int) -> Seq<char> {
    if m == 1 {
        "Jan"@
    } else if m == 2 {
        "Feb"@
    } else if m == 3 {
        "Mar"@
    } else if m == 4 {
        "Apr"@
    } else if m == 5 {
        "May"@
    } else if m == 6 {
        "Jun"@
    } else if m == 7 {
        "Jul"@
    } else if m == 8 {
        "Aug"@
    } else if m == 9 {
        "Sep"@
    } else if m == 10 {
        "Oct"@
    } else if m == 11 {
        "Nov"@
    } else {
        "Dec"@
    }
}

/// The text of a time, given in seconds since the Unix epoch, in the form of RFC 1123.
pub open spec fn rfc1123(seconds: int) -> Seq<char> {
    let days = seconds / 86400;
    let time = seconds % 86400;
    let date = date_of(days);
    weekday_name(days) + ", "@ + text::padded(date.2 as nat, 2) + " "@ + month_name(date.1) + " "@ + text::padded(
        date.0 as nat,
        4,
    ) + " "@ + text::padded((time / 3600) as nat, 2) + ":"@ + text::padded((time % 3600 / 60) as nat, 2) + ":"@
        + text::padded((time % 60) as nat, 2) + " GMT"@
}

fn weekday(days: u64) -> (r: &'static str)
    ensures
        r@ == weekday_name(days as int),
{
    let i: u64 = (3 + days % 7) % 7;
    assert(i == (3 + days) % 7);
    if i == 0 {
        "Mon"
    } else if i == 1 {
        "Tue"
    } else if i == 2 {
        "Wed"
    } else if i == 3 {
        "Thu"
    } else if i == 4 {
        "Fri"
    } else if i == 5 {
        "Sat"
    } else {
        "Sun"
    }
}

fn month(m: u64) -> (r: &'static str)
    ensures
        r@ == month_name(m as int),
{
    if m == 1 {
        "Jan"
    } else if m == 2 {
        "Feb"
    } else if m == 3 {
        "Mar"
    } else if m == 4 {
        "Apr"
    } else if m == 5 {
        "May"
    } else if m == 6 {
        "Jun"
    } else if m == 7 {
        "Jul"
    } else if m == 8 {
        "Aug"
    } else if m == 9 {
        "Sep"
    } else if m == 10 {
        "Oct"
    } else if m == 11 {
        "Nov"
    } else {
        "Dec"
    }
}

/// The text of a time, given in seconds since the Unix epoch.
pub fn rfc1123_date(seconds: u64) -> (r: String)
    ensures
        r@ == rfc1123(seconds as int),
{
    let days: u64 = seconds / 86400;
    let time: u64 = seconds % 86400;
    let (y, m, d) = days_to_date(days);
    let mut r = String::from_str(weekday(days));
    r.append(", ");
    r.append(text::padded_string(d, 2).as_str());
    r.append(" ");
    r.append(month(m));
    r.append(" ");
    r.append(text::padded_string(y, 4).as_str());
    r.append(" ");
    r.append(text::padded_string(time / 3600, 2).as_str());
    r.append(":");
    r.append(text::padded_string(time % 3600 / 60, 2).as_str());
    r.append(":");
    r.append(text::padded_string(time % 60, 2).as_str());
    r.append(" GMT");
    r
}

/// The text of the present time.
pub fn chrono_now_rfc1123() -> (r: String)
    ensures
        exists|seconds: u64| r@ == #[trigger] rfc1123(seconds as int),
{
    let seconds: u64 = unix_seconds();
    rfc1123_date(seconds)
}

// ---- Header blocks ----

/// A line end.
pub open spec fn crlf() -> Seq<char> {
    seq!['\r', '\n']
}

/// Lines, each with its end.
pub open spec fn joined(lines: Seq<Seq<char>>) -> Seq<char>
    decreases lines.len(),
{
    if lines.len() == 0 {
        seq![]
    } else {
        joined(lines.drop_last()) + lines.last() + crlf()
    }
}

/// The lines of an upgrade response, with the empty line that ends it.
pub open spec fn response_lines(major: nat, minor: nat, date: Seq<char>, accept: Seq<char>) -> Seq<Seq<char>> {
    seq![
        "HTTP/1.1 101 Switching Protocols"@,
        "Server: nginx/1."@ + text::decimal(major) + "."@ + text::decimal(minor),
        "Date: "@ + date,
        "Upgrade: websocket"@,
        "Connection: Upgrade"@,
        "Sec-WebSocket-Accept: "@ + accept,
        ""@,
    ]
}

/// The lines of an upgrade request that announces a body, with the empty line that ends it.
pub open spec fn request_lines(
    host: Seq<char>,
    port: Seq<char>,
    minor: nat,
    patch: nat,
    key: Seq<char>,
    body_len: nat,
) -> Seq<Seq<char>> {
    seq![
        "GET / HTTP/1.1"@,
        "Host: "@ + host + ":"@ + port,
        "User-Agent: curl/7."@ + text::decimal(minor) + "."@ + text::decimal(patch),
        "Upgrade: websocket"@,
        "Connection: Upgrade"@,
        "Sec-WebSocket-Key: "@ + key,
        "Content-Length: "@ + text::decimal(body_len),
        ""@,
    ]
}

fn push_line(out: &mut String, line: &str)
    ensures
        final(out)@ == old(out)@ + line@ + crlf(),
{
    out.append(line);
    out.push('\r');
    out.push('\n');
    assert(out@ =~= old(out)@ + line@ + crlf());
}

proof fn lemma_joined_push(lines: Seq<Seq<char>>, line: Seq<char>)
    ensures
        joined(lines.push(line)) == joined(lines) + line + crlf(),
{
    assert(lines.push(line).drop_last() =~= lines);
}

/// An upgrade response with the given server version, date and accept token.
pub fn upgrade_response(major: usize, minor: usize, date: &str, accept: &str) -> (out: String)
    ensures
        out@ == joined(response_lines(major as nat, minor as nat, date@, accept@)),
{
    let mut server = String::from_str("Server: nginx/1.");
    server.append(text::decimal_string(major as u64).as_str());
    server.append(".");
    server.append(text::decimal_string(minor as u64).as_str());
    let mut date_line = String::from_str("Date: ");
    date_line.append(date);
    let mut accept_line = String::from_str("Sec-WebSocket-Accept: ");
    accept_line.append(accept);
    let mut out = String::new();
    push_line(&mut out, "HTTP/1.1 101 Switching Protocols");
    push_line(&mut out, server.as_str());
    push_line(&mut out, date_line.as_str());
    push_line(&mut out, "Upgrade: websocket");
    push_line(&mut out, "Connection: Upgrade");
    push_line(&mut out, accept_line.as_str());
    push_line(&mut out, "");
    proof {
        let all = response_lines(major as nat, minor as nat, date@, accept@);
        let none: Seq<Seq<char>> = seq![];
        assert(joined(none) + all[0] =~= Seq::<char>::empty() + all[0]);
        assert(all =~= none.push(all[0]).push(all[1]).push(all[2]).push(all[3]).push(all[4]).push(all[5]).push(all[6]));
        lemma_joined_push(none, all[0]);
        lemma_joined_push(none.push(all[0]), all[1]);
        lemma_joined_push(none.push(all[0]).push(all[1]), all[2]);
        lemma_joined_push(none.push(all[0]).push(all[1]).push(all[2]), all[3]);
        lemma_joined_push(none.push(all[0]).push(all[1]).push(all[2]).push(all[3]), all[4]);
        lemma_joined_push(none.push(all[0]).push(all[1]).push(all[2]).push(all[3]).push(all[4]), all[5]);
        lemma_joined_push(none.push(all[0]).push(all[1]).push(all[2]).push(all[3]).push(all[4]).push(all[5]), all[6]);
    }
    out
}

/// An upgrade request for a host and port, with the given client version and key, that announces
/// a body of `body_len` bytes.
pub fn upgrade_request(host: &str, port: &str, minor: usize, patch: usize, key: &str, body_len: usize) -> (out: String)
    ensures
        out@ == joined(request_lines(host@, port@, minor as nat, patch as nat, key@, body_len as nat)),
{
    let mut host_line = String::from_str("Host: ");
    host_line.append(host);
    host_line.append(":");
    host_line.append(port);
    let mut agent = String::from_str("User-Agent: curl/7.");
    agent.append(text::decimal_string(minor as u64).as_str());
    agent.append(".");
    agent.append(text::decimal_string(patch as u64).as_str());
    let mut key_line = String::from_str("Sec-WebSocket-Key: ");
    key_line.append(key);
    let mut length = String::from_str("Content-Length: ");
    length.append(text::decimal_string(body_len as u64).as_str());
    let mut out = String::new();
    push_line(&mut out, "GET / HTTP/1.1");
    push_line(&mut out, host_line.as_str());
    push_line(&mut out, agent.as_str());
    push_line(&mut out, "Upgrade: websocket");
    push_line(&mut out, "Connection: Upgrade");
    push_line(&mut out, key_line.as_str());
    push_line(&mut out, length.as_str());
    push_line(&mut out, "");
    proof {
        let all = request_lines(host@, port@, minor as nat, patch as nat, key@, body_len as nat);
        let none: Seq<Seq<char>> = seq![];
        assert(joined(none) + all[0] =~= Seq::<char>::empty() + all[0]);
        let six = none.push(all[0]).push(all[1]).push(all[2]).push(all[3]).push(all[4]).push(all[5]);
        assert(all =~= six.push(all[6]).push(all[7]));
        lemma_joined_push(none, all[0]);
        lemma_joined_push(none.push(all[0]), all[1]);
        lemma_joined_push(none.push(all[0]).push(all[1]), all[2]);
        lemma_joined_push(none.push(all[0]).push(all[1]).push(all[2]), all[3]);
        lemma_joined_push(none.push(all[0]).push(all[1]).push(all[2]).push(all[3]), all[4]);
        lemma_joined_push(none.push(all[0]).push(all[1]).push(all[2]).push(all[3]).push(all[4]), all[5]);
        lemma_joined_push(six, all[6]);
        lemma_joined_push(six.push(all[6]), all[7]);
    }
    out
}

// ---- Header blocks as a reader sees them ----

/// Whether lines form a header block: one empty line ends them, and none holds a line feed.
pub open spec fn is_block(lines: Seq<Seq<char>>) -> bool {
    &&& lines.len() > 1
    &&& lines.last().len() == 0
    &&& forall|i: int| 0 <= i < lines.len() ==> text::one_line(#[trigger] lines[i])
    &&& forall|i: int| 0 <= i < lines.len() - 1 ==> (#[trigger] lines[i]).len() > 0
}

proof fn lemma_joined_front(lines: Seq<Seq<char>>)
    requires
        lines.len() > 0,
    ensures
        joined(lines) == lines[0] + crlf() + joined(lines.drop_first()),
    decreases lines.len(),
{
    if lines.len() == 1 {
        assert(lines.drop_last() =~= seq![]);
        assert(lines.drop_first() =~= seq![]);
        assert(joined(lines) =~= lines[0] + crlf() + joined(lines.drop_first()));
    } else {
        lemma_joined_front(lines.drop_last());
        assert(lines.drop_first().drop_last() =~= lines.drop_last().drop_first());
        assert(joined(lines) =~= lines[0] + crlf() + joined(lines.drop_first()));
    }
}

/// Splitting joined lines gives back the lines, where none holds a line feed.
pub proof fn lemma_lines_of_joined(lines: Seq<Seq<char>>)
    requires
        forall|i: int| 0 <= i < lines.len() ==> text::one_line(#[trigger] lines[i]),
    ensures
        text::lines(joined(lines)) == lines,
    decreases lines.len(),
{
    if lines.len() == 0 {
        assert(text::lines(joined(lines)) =~= lines);
    } else {
        lemma_joined_front(lines);
        let s = joined(lines);
        let k = lines[0].len() as int + 1;
        assert(text::one_line(lines[0]));
        text::lemma_first_index_is(s, '\n', k);
        assert(s.take(k) =~= lines[0].push('\r'));
        assert(text::strip_cr(s.take(k)) =~= lines[0]);
        assert(s.skip(k + 1) =~= joined(lines.drop_first()));
        lemma_lines_of_joined(lines.drop_first());
        assert(text::lines(s) =~= lines);
    }
}

/// The bytes of joined lines, line by line.
pub proof fn lemma_joined_bytes(lines: Seq<Seq<char>>)
    requires
        lines.len() > 0,
    ensures
        vstd::utf8::encode_utf8(joined(lines)) == vstd::utf8::encode_utf8(lines[0]) + seq![13u8, 10u8] + vstd::utf8::encode_utf8(
            joined(lines.drop_first()),
        ),
{
    lemma_joined_front(lines);
    text::lemma_bytes_concat(lines[0] + crlf(), joined(lines.drop_first()));
    text::lemma_bytes_concat(lines[0], crlf());
    text::lemma_bytes_concat(seq!['\r'], seq!['\n']);
    text::lemma_ascii_byte('\r');
    text::lemma_ascii_byte('\n');
    assert(crlf() =~= seq!['\r'] + seq!['\n']);
    assert(seq![13u8] + seq![10u8] =~= seq![13u8, 10u8]);
}

proof fn lemma_literals_one_line()
    ensures
        text::one_line("HTTP/1.1 101 Switching Protocols"@),
        text::one_line("Server: nginx/1."@),
        text::one_line("Date: "@),
        text::one_line("Upgrade: websocket"@),
        text::one_line("Connection: Upgrade"@),
        text::one_line("Sec-WebSocket-Accept: "@),
        text::one_line("GET / HTTP/1.1"@),
        text::one_line("Host: "@),
        text::one_line("User-Agent: curl/7."@),
        text::one_line("Sec-WebSocket-Key: "@),
        text::one_line("Content-Length: "@),
        text::one_line("."@),
        text::one_line(":"@),
        text::one_line(", "@),
        text::one_line(" "@),
        text::one_line(" GMT"@),
        text::one_line(""@),
{
    reveal_strlit("HTTP/1.1 101 Switching Protocols");
    reveal_strlit("Server: nginx/1.");
    reveal_strlit("Date: ");
    reveal_strlit("Upgrade: websocket");
    reveal_strlit("Connection: Upgrade");
    reveal_strlit("Sec-WebSocket-Accept: ");
    reveal_strlit("GET / HTTP/1.1");
    reveal_strlit("Host: ");
    reveal_strlit("User-Agent: curl/7.");
    reveal_strlit("Sec-WebSocket-Key: ");
    reveal_strlit("Content-Length: ");
    reveal_strlit(".");
    reveal_strlit(":");
    reveal_strlit(", ");
    reveal_strlit(" ");
    reveal_strlit(" GMT");
    reveal_strlit("");
}

proof fn lemma_names_one_line(days: int, m: int)
    ensures
        text::one_line(weekday_name(days)),
        text::one_line(month_name(m)),
{
    reveal_strlit("Mon");
    reveal_strlit("Tue");
    reveal_strlit("Wed");
    reveal_strlit("Thu");
    reveal_strlit("Fri");
    reveal_strlit("Sat");
    reveal_strlit("Sun");
    reveal_strlit("Jan");
    reveal_strlit("Feb");
    reveal_strlit("Mar");
    reveal_strlit("Apr");
    reveal_strlit("May");
    reveal_strlit("Jun");
    reveal_strlit("Jul");
    reveal_strlit("Aug");
    reveal_strlit("Sep");
    reveal_strlit("Oct");
    reveal_strlit("Nov");
    reveal_strlit("Dec");
}

proof fn lemma_decimal_one_line(n: nat)
    ensures
        text::one_line(text::decimal(n)),
        forall|w: nat| text::one_line(#[trigger] text::padded(n, w)),
{
    text::lemma_decimal_is_digits(n);
    assert forall|i: int| 0 <= i < text::decimal(n).len() implies text::decimal(n)[i] != '\n' by {
        assert(text::is_digit(text::decimal(n)[i]));
    }
}

proof fn lemma_base64_one_line(data: Seq<u8>)
    ensures
        text::one_line(base64_url(data)),
    decreases data.len(),
{
    if data.len() > 3 {
        lemma_base64_one_line(data.skip(3));
    }
}

proof fn lemma_rfc1123_one_line(seconds: int)
    ensures
        text::one_line(rfc1123(seconds)),
{
    let days = seconds / 86400;
    let time = seconds % 86400;
    let date = date_of(days);
    lemma_literals_one_line();
    lemma_names_one_line(days, date.1);
    lemma_decimal_one_line(date.2 as nat);
    lemma_decimal_one_line(date.0 as nat);
    lemma_decimal_one_line((time / 3600) as nat);
    lemma_decimal_one_line((time % 3600 / 60) as nat);
    lemma_decimal_one_line((time % 60) as nat);
}

/// The lines of an upgrade response form a header block that announces no body.
pub proof fn lemma_response_block(major: nat, minor: nat, seconds: int, token: Seq<u8>)
    ensures
        is_block(response_lines(major, minor, rfc1123(seconds), base64_url(token))),
        announced_length(response_lines(major, minor, rfc1123(seconds), base64_url(token))) is None,
{
    lemma_literals_one_line();
    lemma_decimal_one_line(major);
    lemma_decimal_one_line(minor);
    lemma_rfc1123_one_line(seconds);
    lemma_base64_one_line(token);
    let lines = response_lines(major, minor, rfc1123(seconds), base64_url(token));
    reveal_strlit("HTTP/1.1 101 Switching Protocols");
    reveal_strlit("Server: nginx/1.");
    reveal_strlit("Date: ");
    reveal_strlit("Upgrade: websocket");
    reveal_strlit("Connection: Upgrade");
    reveal_strlit("Sec-WebSocket-Accept: ");
    reveal_strlit("");
    assert forall|i: int| 0 <= i < lines.len() implies text::one_line(#[trigger] lines[i]) by {}
    assert forall|i: int| 0 <= i < lines.len() implies !announces(#[trigger] lines[i]) by {
        lemma_no_length(lines[i]);
    }
    lemma_nothing_announced(lines);
}

proof fn lemma_no_length(line: Seq<char>)
    requires
        line.len() < 4 || (line[0] != 'C' && line[0] != 'c') || line[3] == 'n',
    ensures
        !announces(line),
{
    reveal_strlit("Content-Length:");
    reveal_strlit("content-length:");
    if announces(line) {
        if "Content-Length:"@.is_prefix_of(line) {
            assert(line[0] == "Content-Length:"@[0]);
            assert(line[3] == "Content-Length:"@[3]);
        } else {
            assert(line[0] == "content-length:"@[0]);
            assert(line[3] == "content-length:"@[3]);
        }
    }
}

proof fn lemma_nothing_announced(lines: Seq<Seq<char>>)
    requires
        forall|i: int| 0 <= i < lines.len() ==> !announces(#[trigger] lines[i]),
    ensures
        announced_length(lines) is None,
    decreases lines.len(),
{
    if lines.len() > 0 {
        assert(!announces(lines[0]));
        lemma_nothing_announced(lines.drop_first());
    }
}

proof fn lemma_announced_at(lines: Seq<Seq<char>>, k: int)
    requires
        0 <= k < lines.len(),
        announces(lines[k]),
        forall|i: int| 0 <= i < k ==> !announces(#[trigger] lines[i]),
    ensures
        announced_length(lines) == text::parse_decimal(text::trim(lines[k].skip(15)), usize::MAX as nat),
    decreases k,
{
    if k > 0 {
        assert(!announces(lines[0]));
        lemma_announced_at(lines.drop_first(), k - 1);
    }
}

/// The lines of an upgrade request form a header block that announces the body that follows,
/// where host and port hold no line feed.
pub proof fn lemma_request_block(host: Seq<char>, port: Seq<char>, minor: nat, patch: nat, token: Seq<u8>, body_len: nat)
    requires
        text::one_line(host),
        text::one_line(port),
        body_len <= usize::MAX,
    ensures
        is_block(request_lines(host, port, minor, patch, base64_url(token), body_len)),
        announced_length(request_lines(host, port, minor, patch, base64_url(token), body_len)) == Some(body_len),
{
    lemma_literals_one_line();
    lemma_decimal_one_line(minor);
    lemma_decimal_one_line(patch);
    lemma_decimal_one_line(body_len);
    lemma_base64_one_line(token);
    let lines = request_lines(host, port, minor, patch, base64_url(token), body_len);
    reveal_strlit("GET / HTTP/1.1");
    reveal_strlit("Host: ");
    reveal_strlit("User-Agent: curl/7.");
    reveal_strlit("Upgrade: websocket");
    reveal_strlit("Connection: Upgrade");
    reveal_strlit("Sec-WebSocket-Key: ");
    reveal_strlit("Content-Length: ");
    reveal_strlit("Content-Length:");
    reveal_strlit("");
    assert forall|i: int| 0 <= i < lines.len() implies text::one_line(#[trigger] lines[i]) by {}
    assert forall|i: int| 0 <= i < 6 implies !announces(#[trigger] lines[i]) by {
        lemma_no_length(lines[i]);
    }
    let last = lines[6];
    assert("Content-Length:"@ =~= last.subrange(0, 15));
    lemma_announced_at(lines, 6);
    let digits = text::decimal(body_len);
    text::lemma_decimal_is_digits(body_len);
    assert(text::is_digit(digits[0]));
    assert(text::is_digit(digits.last()));
    assert(last.skip(15) =~= seq![' '] + digits);
    assert(last.skip(15).drop_first() =~= digits);
    assert(text::trim_start(last.skip(15)) == text::trim_start(digits));
    text::lemma_trim_id(digits);
    assert(text::trim_start(digits) == digits);
    text::lemma_decimal_round_trip(body_len, usize::MAX as nat);
}

// ---- The texts, character by character ----

/// Three bytes are four symbols of the URL-safe alphabet, of six bits each; one or two bytes at the end
/// are two or three symbols, with zero bits behind the last byte.
pub proof fn lemma_base64_groups(a: u8, b: u8, c: u8, rest: Seq<u8>)
    ensures
        ({
            let alphabet = "ABCDEFGHIJKLMNOPQRSTUVWXYZabcdefghijklmnopqrstuvwxyz0123456789-_"@;
            &&& base64_url(seq![]) == Seq::<char>::empty()
            &&& base64_url(seq![a]) == seq![alphabet[a as int / 4], alphabet[a as int % 4 * 16]]
            &&& base64_url(seq![a, b]) == seq![
                alphabet[a as int / 4],
                alphabet[a as int % 4 * 16 + b as int / 16],
                alphabet[b as int % 16 * 4],
            ]
            &&& base64_url(seq![a, b, c] + rest) == seq![
                alphabet[a as int / 4],
                alphabet[a as int % 4 * 16 + b as int / 16],
                alphabet[b as int % 16 * 4 + c as int / 64],
                alphabet[c as int % 64],
            ] + base64_url(rest)
        }),
{
    let (x, y, z) = (a as int, b as int, c as int);
    lemma_base64_symbol(x / 4);
    lemma_base64_symbol(x % 4 * 16);
    lemma_base64_symbol(x % 4 * 16 + y / 16);
    lemma_base64_symbol(y % 16 * 4);
    lemma_base64_symbol(y % 16 * 4 + z / 64);
    lemma_base64_symbol(z % 64);
    lemma_base64_bits(x, 0, 0);
    lemma_base64_bits(x, y, 0);
    lemma_base64_bits(x, y, z);
    let none: Seq<char> = seq![];
    assert(base64_url(seq![a]) =~= seq![base64_symbol(x / 4), base64_symbol(x % 4 * 16)]);
    assert(base64_url(seq![a, b]) =~= seq![
        base64_symbol(x / 4),
        base64_symbol(x % 4 * 16 + y / 16),
        base64_symbol(y % 16 * 4),
    ]);
    let all = seq![a, b, c] + rest;
    let four = seq![
        base64_symbol(x / 4),
        base64_symbol(x % 4 * 16 + y / 16),
        base64_symbol(y % 16 * 4 + z / 64),
        base64_symbol(z % 64),
    ];
    assert(base64_triple(all) == x * 0x1_0000 + y * 0x100 + z);
    if rest.len() == 0 {
        assert(base64_url(rest) =~= none);
        assert(base64_url(all) =~= four);
        assert(four + none =~= four);
    } else {
        assert(all.skip(3) =~= rest);
        assert(base64_url(all) =~= four + base64_url(rest));
    }
}

proof fn lemma_base64_bits(x: int, y: int, z: int)
    requires
        0 <= x < 256,
        0 <= y < 256,
        0 <= z < 256,
    ensures
        ({
            let t = x * 0x1_0000 + y * 0x100 + z;
            &&& t / 0x4_0000 % 64 == x / 4
            &&& t / 0x1000 % 64 == x % 4 * 16 + y / 16
            &&& t / 0x40 % 64 == y % 16 * 4 + z / 64
            &&& t % 64 == z % 64
        }),
{
    let (a, b) = (x / 4, x % 4);
    let (c, d) = (y / 16, y % 16);
    let (e, f) = (z / 64, z % 64);
    let t = x * 0x1_0000 + y * 0x100 + z;
    let low = 0x40 * (4 * d + e) + f;
    let mid = 0x1000 * (16 * b + c) + low;
    assert(0 <= low < 0x1000);
    assert(0 <= mid < 0x4_0000);
    assert(t == 0x4_0000 * a + mid);
    assert(t / 0x4_0000 == a);
    assert(t == 0x1000 * (64 * a + 16 * b + c) + low);
    assert(t / 0x1000 == 64 * a + (16 * b + c));
    assert(0 <= 16 * b + c < 64);
    assert((64 * a + (16 * b + c)) % 64 == 16 * b + c);
    assert(t == 0x40 * (64 * (64 * a + 16 * b + c) + (4 * d + e)) + f);
    assert(t / 0x40 == 64 * (64 * a + 16 * b + c) + (4 * d + e));
    assert(0 <= 4 * d + e < 64);
    assert((64 * (64 * a + 16 * b + c) + (4 * d + e)) % 64 == 4 * d + e);
}

proof fn lemma_base64_symbol(i: int)
    requires
        0 <= i < 64,
    ensures
        "ABCDEFGHIJKLMNOPQRSTUVWXYZabcdefghijklmnopqrstuvwxyz0123456789-_"@[i] == base64_symbol(i),
{
    reveal_strlit("ABCDEFGHIJKLMNOPQRSTUVWXYZabcdefghijklmnopqrstuvwxyz0123456789-_");
}

/// The months of the calendar have their lengths, February 29 days in the years that 4 divides and 100
/// does not, and in those that 400 divides.
pub proof fn lemma_months(y: int, m: int, d: int)
    ensures
        leap_year(y) <==> (y % 4 == 0 && y % 100 != 0) || y % 400 == 0,
        valid_date(y, 2, d) <==> y >= 1970 && 1 <= d && (d <= 28 || (d == 29 && leap_year(y))),
        m == 4 || m == 6 || m == 9 || m == 11 ==> (valid_date(y, m, d) <==> y >= 1970 && 1 <= d <= 30),
        m == 1 || m == 3 || m == 5 || m == 7 || m == 8 || m == 10 || m == 12 ==> (valid_date(y, m, d) <==> y >= 1970 && 1 <= d <= 31),
        m < 1 || m > 12 ==> !valid_date(y, m, d),
{
}

/// Days are counted from 1970-01-01, and the next day has the next number: in the same month, on the first
/// of the next month, or on the first of the next year.
pub proof fn lemma_next_day(y: int, m: int, d: int)
    requires
        valid_date(y, m, d),
    ensures
        day_number(1970, 1, 1) == 0,
        valid_date(y, m, d + 1) ==> day_number(y, m, d + 1) == day_number(y, m, d) + 1,
        !valid_date(y, m, d + 1) && m < 12 ==> valid_date(y, m + 1, 1) && day_number(y, m + 1, 1) == day_number(y, m, d) + 1,
        !valid_date(y, m, d + 1) && m == 12 ==> valid_date(y + 1, 1, 1) && day_number(y + 1, 1, 1) == day_number(y, m, d) + 1,
{
    assert(days_before_month(1970, 1) == 0);
    if !valid_date(y, m, d + 1) {
        assert(d == month_length(y, m));
        if m < 12 {
            assert(days_before_month(y, m + 1) == days_before_month(y, m) + month_length(y, m));
        } else {
            lemma_month_sum(y);
            assert(days_before_month(y, 13) == days_before_month(y, 12) + month_length(y, 12));
            assert(days_before_year(y + 1) == days_before_year(y) + year_length(y));
            assert(days_before_month(y + 1, 1) == 0);
        }
    }
}

/// A date that is counted from 1970-01-01 is the date with that day number.
pub proof fn lemma_date_of(y: int, m: int, d: int)
    requires
        valid_date(y, m, d),
    ensures
        date_of(day_number(y, m, d)) == (y, m, d),
{
    let t = (y, m, d);
    assert(valid_date(t.0, t.1, t.2) && day_number(t.0, t.1, t.2) == day_number(y, m, d));
    let c = date_of(day_number(y, m, d));
    lemma_day_number_unique(t.0, t.1, t.2, c.0, c.1, c.2);
}

/// The text of a time: the weekday, of which 1970-01-01 was a Thursday, the day in two digits, the
/// month, the year, and hours, minutes and seconds in two digits each.
pub proof fn lemma_date_text(seconds: nat, y: int, m: int, d: int)
    requires
        valid_date(y, m, d),
        day_number(y, m, d) == seconds / 86400,
    ensures
        ({
            let w = (seconds / 86400) as int % 7 * 3;
            let time = (seconds % 86400) as int;
            rfc1123(seconds as int) == "ThuFriSatSunMonTueWed"@.subrange(w, w + 3) + ", "@ + two_digits(d) + " "@
                + "JanFebMarAprMayJunJulAugSepOctNovDec"@.subrange(3 * m - 3, 3 * m) + " "@ + text::decimal(y as nat) + " "@ + two_digits(
                time / 3600,
            ) + ":"@ + two_digits(time % 3600 / 60) + ":"@ + two_digits(time % 60) + " GMT"@
        }),
{
    let days = (seconds / 86400) as int;
    let time = (seconds % 86400) as int;
    lemma_date_of(y, m, d);
    lemma_weekday_text(days);
    lemma_month_text(m);
    text::lemma_two_digits(d as nat);
    text::lemma_four_digits(y as nat);
    text::lemma_two_digits((time / 3600) as nat);
    text::lemma_two_digits((time % 3600 / 60) as nat);
    text::lemma_two_digits((time % 60) as nat);
}

/// A number below 100 in two digits.
pub open spec fn two_digits(n: int) -> Seq<char> {
    seq!["0123456789"@[n / 10], "0123456789"@[n % 10]]
}

proof fn lemma_weekday_text(days: int)
    ensures
        weekday_name(days) == "ThuFriSatSunMonTueWed"@.subrange(days % 7 * 3, days % 7 * 3 + 3),
{
    reveal_strlit("ThuFriSatSunMonTueWed");
    reveal_strlit("Mon");
    reveal_strlit("Tue");
    reveal_strlit("Wed");
    reveal_strlit("Thu");
    reveal_strlit("Fri");
    reveal_strlit("Sat");
    reveal_strlit("Sun");
    let k = days % 7;
    assert((3 + days) % 7 == (3 + k) % 7);
    let part = "ThuFriSatSunMonTueWed"@.subrange(k * 3, k * 3 + 3);
    if k == 0 {
        assert(part =~= "Thu"@);
    } else if k == 1 {
        assert(part =~= "Fri"@);
    } else if k == 2 {
        assert(part =~= "Sat"@);
    } else if k == 3 {
        assert(part =~= "Sun"@);
    } else if k == 4 {
        assert(part =~= "Mon"@);
    } else if k == 5 {
        assert(part =~= "Tue"@);
    } else {
        assert(part =~= "Wed"@);
    }
}

proof fn lemma_month_text(m: int)
    requires
        1 <= m <= 12,
    ensures
        month_name(m) == "JanFebMarAprMayJunJulAugSepOctNovDec"@.subrange(3 * m - 3, 3 * m),
{
    if m <= 6 {
        lemma_first_months(m);
    } else {
        lemma_last_months(m);
    }
}

proof fn lemma_first_months(m: int)
    requires
        1 <= m <= 6,
    ensures
        month_name(m) == "JanFebMarAprMayJunJulAugSepOctNovDec"@.subrange(3 * m - 3, 3 * m),
{
    reveal_strlit("JanFebMarAprMayJunJulAugSepOctNovDec");
    reveal_strlit("Jan");
    reveal_strlit("Feb");
    reveal_strlit("Mar");
    reveal_strlit("Apr");
    reveal_strlit("May");
    reveal_strlit("Jun");
    let all = "JanFebMarAprMayJunJulAugSepOctNovDec"@;
    if m == 1 {
        assert(all.subrange(0, 3) =~= "Jan"@);
    } else if m == 2 {
        assert(all.subrange(3, 6) =~= "Feb"@);
    } else if m == 3 {
        assert(all.subrange(6, 9) =~= "Mar"@);
    } else if m == 4 {
        assert(all.subrange(9, 12) =~= "Apr"@);
    } else if m == 5 {
        assert(all.subrange(12, 15) =~= "May"@);
    } else {
        assert(all.subrange(15, 18) =~= "Jun"@);
    }
}

proof fn lemma_last_months(m: int)
    requires
        7 <= m <= 12,
    ensures
        month_name(m) == "JanFebMarAprMayJunJulAugSepOctNovDec"@.subrange(3 * m - 3, 3 * m),
{
    reveal_strlit("JanFebMarAprMayJunJulAugSepOctNovDec");
    reveal_strlit("Jul");
    reveal_strlit("Aug");
    reveal_strlit("Sep");
    reveal_strlit("Oct");
    reveal_strlit("Nov");
    reveal_strlit("Dec");
    let all = "JanFebMarAprMayJunJulAugSepOctNovDec"@;
    if m == 7 {
        assert(all.subrange(18, 21) =~= "Jul"@);
    } else if m == 8 {
        assert(all.subrange(21, 24) =~= "Aug"@);
    } else if m == 9 {
        assert(all.subrange(24, 27) =~= "Sep"@);
    } else if m == 10 {
        assert(all.subrange(27, 30) =~= "Oct"@);
    } else if m == 11 {
        assert(all.subrange(30, 33) =~= "Nov"@);
    } else {
        assert(all.subrange(33, 36) =~= "Dec"@);
    }
}

/// The text of an upgrade request: each line with its end, and an empty line behind the last.
pub proof fn lemma_request_text(host: Seq<char>, port: Seq<char>, minor: nat, patch: nat, key: Seq<char>, body_len: nat)
    ensures
        ({
            let end = seq!['\r', '\n'];
            joined(request_lines(host, port, minor, patch, key, body_len)) == "GET / HTTP/1.1"@ + end + ("Host: "@ + host + seq![':']
                + port) + end + ("User-Agent: curl/7."@ + text::decimal(minor) + seq!['.'] + text::decimal(patch)) + end
                + "Upgrade: websocket"@ + end + "Connection: Upgrade"@ + end + ("Sec-WebSocket-Key: "@ + key) + end + (
            "Content-Length: "@ + text::decimal(body_len)) + end + end
        }),
{
    let all = request_lines(host, port, minor, patch, key, body_len);
    let end = seq!['\r', '\n'];
    reveal_strlit(":");
    reveal_strlit(".");
    reveal_strlit("");
    assert(":"@ =~= seq![':']);
    assert("."@ =~= seq!['.']);
    assert(""@ =~= Seq::<char>::empty());
    lemma_eight_lines(all);
    let front = all[0] + end + all[1] + end + all[2] + end + all[3] + end + all[4] + end + all[5] + end + all[6] + end;
    assert(front + ""@ =~= front);
}

proof fn lemma_eight_lines(all: Seq<Seq<char>>)
    requires
        all.len() == 8,
    ensures
        ({
            let end = seq!['\r', '\n'];
            joined(all) == all[0] + end + all[1] + end + all[2] + end + all[3] + end + all[4] + end + all[5] + end + all[6] + end
                + all[7] + end
        }),
{
    lemma_seven_lines(all.drop_last());
    lemma_joined_push(all.drop_last(), all[7]);
    assert(all.drop_last().push(all[7]) =~= all);
}

proof fn lemma_seven_lines(all: Seq<Seq<char>>)
    requires
        all.len() == 7,
    ensures
        ({
            let end = seq!['\r', '\n'];
            joined(all) == all[0] + end + all[1] + end + all[2] + end + all[3] + end + all[4] + end + all[5] + end + all[6] + end
        }),
{
    let none: Seq<Seq<char>> = seq![];
    let a = none.push(all[0]);
    let b = a.push(all[1]);
    let c = b.push(all[2]);
    let d = c.push(all[3]);
    let e = d.push(all[4]);
    let f = e.push(all[5]);
    lemma_joined_push(none, all[0]);
    lemma_joined_push(a, all[1]);
    lemma_joined_push(b, all[2]);
    lemma_joined_push(c, all[3]);
    lemma_joined_push(d, all[4]);
    lemma_joined_push(e, all[5]);
    lemma_joined_push(f, all[6]);
    assert(f.push(all[6]) =~= all);
    assert(joined(none) + all[0] =~= all[0]);
}

/// The text of an upgrade response: each line with its end, and an empty line behind the last.
pub proof fn lemma_response_text(major: nat, minor: nat, date: Seq<char>, accept: Seq<char>)
    ensures
        ({
            let end = seq!['\r', '\n'];
            joined(response_lines(major, minor, date, accept)) == "HTTP/1.1 101 Switching Protocols"@ + end + ("Server: nginx/1."@
                + text::decimal(major) + seq!['.'] + text::decimal(minor)) + end + ("Date: "@ + date) + end + "Upgrade: websocket"@
                + end + "Connection: Upgrade"@ + end + ("Sec-WebSocket-Accept: "@ + accept) + end + end
        }),
{
    let all = response_lines(major, minor, date, accept);
    let end = seq!['\r', '\n'];
    reveal_strlit(".");
    reveal_strlit("");
    assert("."@ =~= seq!['.']);
    assert(""@ =~= Seq::<char>::empty());
    lemma_seven_lines(all);
    let front = all[0] + end + all[1] + end + all[2] + end + all[3] + end + all[4] + end + all[5] + end;
    assert(front + ""@ =~= front);
}

/// The first line that starts with "Content-Length:", in this spelling or all in lower case, announces
/// the number behind it, blanks around it aside; no other line does, and nothing that is not a number
/// of the machine is announced.
pub proof fn lemma_announced(before: Seq<Seq<char>>, p: Seq<char>, n: nat, q: Seq<char>, value: Seq<char>, after: Seq<Seq<char>>)
    requires
        forall|i: int|
            0 <= i < before.len() ==> !"Content-Length:"@.is_prefix_of(#[trigger] before[i]) && !"content-length:"@.is_prefix_of(
                before[i],
            ),
        text::all_white(p),
        text::all_white(q),
    ensures
        announced_length(before) is None,
        announced_length(before + seq!["Content-Length:"@ + (p + text::decimal(n) + q)] + after) == (if n <= usize::MAX {
            Some(n)
        } else {
            None
        }),
        announced_length(before + seq!["content-length:"@ + (p + text::decimal(n) + q)] + after) == (if n <= usize::MAX {
            Some(n)
        } else {
            None
        }),
        text::parse_decimal(text::trim(value), usize::MAX as nat) is None ==> announced_length(
            before + seq!["Content-Length:"@ + value] + after,
        ) is None && announced_length(before + seq!["content-length:"@ + value] + after) is None,
{
    assert forall|i: int| 0 <= i < before.len() implies !announces(#[trigger] before[i]) by {}
    lemma_nothing_announced(before);
    let shown = p + text::decimal(n) + q;
    lemma_announced_value(before, "Content-Length:"@, shown, after);
    lemma_announced_value(before, "content-length:"@, shown, after);
    lemma_announced_value(before, "Content-Length:"@, value, after);
    lemma_announced_value(before, "content-length:"@, value, after);
    text::lemma_decimal_is_digits(n);
    assert(text::is_digit(text::decimal(n)[0]));
    assert(text::is_digit(text::decimal(n).last()));
    text::lemma_trim(p, text::decimal(n), q);
    text::lemma_parse_decimal(n, usize::MAX as nat, 0, seq![]);
    assert(text::zeros(0) + text::decimal(n) =~= text::decimal(n));
}

proof fn lemma_announced_value(before: Seq<Seq<char>>, name: Seq<char>, value: Seq<char>, after: Seq<Seq<char>>)
    requires
        forall|i: int| 0 <= i < before.len() ==> !announces(#[trigger] before[i]),
        name == "Content-Length:"@ || name == "content-length:"@,
    ensures
        announced_length(before + seq![name + value] + after) == text::parse_decimal(text::trim(value), usize::MAX as nat),
{
    reveal_strlit("Content-Length:");
    reveal_strlit("content-length:");
    let line = name + value;
    let all = before + seq![line] + after;
    let k = before.len() as int;
    assert(all[k] == line);
    assert(line.subrange(0, 15) =~= name);
    assert(name.is_prefix_of(line));
    assert forall|i: int| 0 <= i < k implies !announces(#[trigger] all[i]) by {
        assert(all[i] == before[i]);
    }
    lemma_announced_at(all, k);
    assert(line.skip(15) =~= value);
}

}
