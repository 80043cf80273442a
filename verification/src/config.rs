//! The configuration: the file format, and what a configuration starts.
use crate::client::SnellClient;
use crate::text;
use vstd::prelude::*;
use vstd::string::StringExecFns;

verus! {

/// A configuration, from a file or from the command line.
#[derive(Debug)]
pub struct Config {
    /// Whether to run a server.
    pub server: bool,
    /// The address to listen at.
    pub listen: String,
    /// The address of the server, for a client.
    pub server_addr: String,
    /// The pre-shared key.
    pub psk: String,
    /// The obfuscation type.
    pub obfs: String,
    /// The host that the disguise presents.
    pub obfs_host: String,
    /// The protocol version.
    pub version: String,
}

/// What a configuration holds.
#[verifier::ext_equal]
pub struct Settings {
    pub server: bool,
    pub listen: Seq<char>,
    pub server_addr: Seq<char>,
    pub psk: Seq<char>,
    pub obfs: Seq<char>,
    pub obfs_host: Seq<char>,
    pub version: Seq<char>,
}

impl View for Config {
    type V = Settings;

    open spec fn view(&self) -> Settings {
        Settings {
            server: self.server,
            listen: self.listen@,
            server_addr: self.server_addr@,
            psk: self.psk@,
            obfs: self.obfs@,
            obfs_host: self.obfs_host@,
            version: self.version@,
        }
    }
}

/// A configuration that says nothing.
pub open spec fn no_settings() -> Settings {
    Settings {
        server: false,
        listen: seq![],
        server_addr: seq![],
        psk: seq![],
        obfs: seq![],
        obfs_host: seq![],
        version: seq![],
    }
}

impl Default for Config {
    fn default() -> (c: Config)
        ensures
            c@ == no_settings(),
    {
        let c = Config {
            server: false,
            listen: String::new(),
            server_addr: String::new(),
            psk: String::new(),
            obfs: String::new(),
            obfs_host: String::new(),
            version: String::new(),
        };
        assert(c@ =~= no_settings());
        c
    }
}

// ---- The file format ----

/// The section that a line of a file belongs to.
#[derive(Clone, Copy, PartialEq, Eq, Structural, Debug)]
pub enum Section {
    Server,
    Client,
    Other,
}

/// The section of a name.
pub open spec fn section_of(name: Seq<char>) -> Section {
    if name == "snell-server"@ {
        Section::Server
    } else if name == "snell-client"@ {
        Section::Client
    } else {
        Section::Other
    }
}

/// Whether a trimmed line opens a section.
pub open spec fn is_heading(line: Seq<char>) -> bool {
    line.len() > 1 && line[0] == '[' && line.last() == ']'
}

/// Whether a trimmed line says nothing: it is empty, or a comment.
pub open spec fn is_silent(line: Seq<char>) -> bool {
    line.len() == 0 || line[0] == '#' || line[0] == ';'
}

/// What a key sets in a section. A key marks the configuration as that of its section, whether or
/// not the section knows the key.
pub open spec fn assign(section: Section, key: Seq<char>, value: Seq<char>, c: Settings) -> Settings {
    match section {
        Section::Server => {
            let c = Settings { server: true, ..c };
            if key == "listen"@ {
                Settings { listen: value, ..c }
            } else if key == "psk"@ {
                Settings { psk: value, ..c }
            } else if key == "obfs"@ {
                Settings { obfs: value, ..c }
            } else {
                c
            }
        },
        Section::Client => {
            let c = Settings { server: false, ..c };
            if key == "listen"@ {
                Settings { listen: value, ..c }
            } else if key == "server"@ {
                Settings { server_addr: value, ..c }
            } else if key == "psk"@ {
                Settings { psk: value, ..c }
            } else if key == "obfs"@ {
                Settings { obfs: value, ..c }
            } else if key == "obfs-host"@ {
                Settings { obfs_host: value, ..c }
            } else if key == "version"@ {
                Settings { version: value, ..c }
            } else {
                c
            }
        },
        Section::Other => c,
    }
}

/// What a line of a file does: it opens a section, sets a key, or says nothing.
pub open spec fn take_line(line: Seq<char>, section: Section, c: Settings) -> (Section, Settings) {
    let line = text::trim(line);
    if is_heading(line) {
        (section_of(text::trim(line.subrange(1, line.len() - 1))), c)
    } else if is_silent(line) {
        (section, c)
    } else {
        match text::split_once(line, '=') {
            None => (section, c),
            Some((key, value)) => (section, assign(section, text::trim(key), text::trim(value), c)),
        }
    }
}

/// What the lines of a file do, one after the other.
pub open spec fn take_lines(lines: Seq<Seq<char>>, section: Section, c: Settings) -> (Section, Settings)
    decreases lines.len(),
{
    if lines.len() == 0 {
        (section, c)
    } else {
        let (next, d) = take_line(lines[0], section, c);
        take_lines(lines.drop_first(), next, d)
    }
}

/// The settings of a file.
pub open spec fn settings_of(content: Seq<char>) -> Settings {
    take_lines(text::lines(content), Section::Other, no_settings()).1
}

/// The lines of a file take effect in order: what is set later holds.
pub proof fn lemma_lines_in_order(a: Seq<Seq<char>>, b: Seq<Seq<char>>, section: Section, c: Settings)
    ensures
        take_lines(a + b, section, c) == take_lines(b, take_lines(a, section, c).0, take_lines(a, section, c).1),
    decreases a.len(),
{
    if a.len() == 0 {
        assert(a + b =~= b);
    } else {
        let (next, d) = take_line(a[0], section, c);
        lemma_lines_in_order(a.drop_first(), b, next, d);
        assert((a + b).drop_first() =~= a.drop_first() + b);
    }
}

/// Whether a line says nothing: it is empty, a comment, or neither a heading nor a key with a value.
pub open spec fn says_nothing(line: Seq<char>) -> bool {
    let line = text::trim(line);
    !is_heading(line) && (is_silent(line) || text::split_once(line, '=') is None)
}

/// One line of a file, between those before and those behind it.
proof fn lemma_line_between(a: Seq<Seq<char>>, line: Seq<char>, b: Seq<Seq<char>>, section: Section, c: Settings)
    ensures
        ({
            let (s, d) = take_lines(a, section, c);
            let (t, e) = take_line(line, s, d);
            take_lines(a + seq![line] + b, section, c) == take_lines(b, t, e)
        }),
{
    lemma_lines_in_order(a + seq![line], b, section, c);
    lemma_lines_in_order(a, seq![line], section, c);
    let (s, d) = take_lines(a, section, c);
    let (t, e) = take_line(line, s, d);
    assert(seq![line].drop_first() =~= seq![]);
    assert(take_lines(seq![line].drop_first(), t, e) == (t, e));
}

/// Empty lines, comments and lines that are neither a heading nor a key with a value may stand
/// anywhere and change nothing.
pub proof fn lemma_silent_lines(a: Seq<Seq<char>>, line: Seq<char>, b: Seq<Seq<char>>, section: Section, c: Settings)
    requires
        says_nothing(line),
    ensures
        take_lines(a + seq![line] + b, section, c) == take_lines(a + b, section, c),
{
    lemma_line_between(a, line, b, section, c);
    lemma_lines_in_order(a, b, section, c);
}

/// What stands between the brackets of a heading.
pub open spec fn inside(heading: Seq<char>) -> Seq<char> {
    heading.subrange(1, heading.len() - 1)
}

/// Whether two lines differ at most in blanks: around the line, just inside the brackets of a
/// heading, or around the first `=`.
pub open spec fn same_but_blanks(x: Seq<char>, y: Seq<char>) -> bool {
    let x = text::trim(x);
    let y = text::trim(y);
    ||| x == y
    ||| is_heading(x) && is_heading(y) && text::trim(inside(x)) == text::trim(inside(y))
    ||| same_key_and_value(text::split_once(x, '='), text::split_once(y, '='))
}

/// Whether two keys with values differ at most in the blanks around them.
pub open spec fn same_key_and_value(x: Option<(Seq<char>, Seq<char>)>, y: Option<(Seq<char>, Seq<char>)>) -> bool {
    match (x, y) {
        (Some((k1, v1)), Some((k2, v2))) => text::trim(k1) == text::trim(k2) && text::trim(v1) == text::trim(v2),
        _ => false,
    }
}

/// The first and the last character of a trimmed line that holds an `=`, from what stands before
/// and behind it.
proof fn lemma_line_ends(line: Seq<char>)
    requires
        line.len() > 0 ==> !text::is_white(line[0]) && !text::is_white(line.last()),
        text::split_once(line, '=') is Some,
    ensures
        ({
            let (k, v) = text::split_once(line, '=').unwrap();
            &&& line.len() > 0
            &&& line[0] == (if text::trim(k).len() > 0 {
                text::trim(k)[0]
            } else {
                '='
            })
            &&& line.last() == (if text::trim(v).len() > 0 {
                text::trim(v).last()
            } else {
                '='
            })
        }),
{
    text::lemma_first_index(line, '=');
    let (k, v) = text::split_once(line, '=').unwrap();
    text::lemma_trim_ends(k);
    text::lemma_trim_ends(v);
    let none: Seq<char> = seq![];
    if k.len() > 0 {
        assert(k[0] == line[0]);
    } else {
        assert(text::trim(k) =~= none);
    }
    if v.len() > 0 {
        assert(v.last() == line.last());
    } else {
        assert(text::trim(v) =~= none);
    }
}

/// A heading that holds an `=` opens no section that a file can set anything in.
proof fn lemma_no_section(line: Seq<char>)
    requires
        is_heading(line),
        text::split_once(line, '=') is Some,
    ensures
        section_of(text::trim(inside(line))) == Section::Other,
{
    text::lemma_first_index(line, '=');
    let i = text::first_index(line, '=');
    let name = inside(line);
    assert(line[i] == '=');
    assert(name[i - 1] == '=');
    assert(name.contains('='));
    text::lemma_trim_ends(name);
    assert(text::trim(name).contains('='));
    reveal_strlit("snell-server");
    reveal_strlit("snell-client");
    assert(!"snell-server"@.contains('='));
    assert(!"snell-client"@.contains('='));
}

/// Lines that differ at most in blanks do the same.
pub proof fn lemma_blanks_do_nothing(x: Seq<char>, y: Seq<char>, section: Section, c: Settings)
    requires
        same_but_blanks(x, y),
    ensures
        take_line(x, section, c) == take_line(y, section, c),
{
    let a = text::trim(x);
    let b = text::trim(y);
    text::lemma_trim_ends(x);
    text::lemma_trim_ends(y);
    if a != b && !(is_heading(a) && is_heading(b) && text::trim(inside(a)) == text::trim(inside(b))) {
        lemma_line_ends(a);
        lemma_line_ends(b);
        assert(a[0] == b[0] && a.last() == b.last());
        if is_heading(a) {
            assert(is_heading(b));
            lemma_no_section(a);
            lemma_no_section(b);
        }
    }
}

/// Files whose lines differ at most in blanks say the same.
pub proof fn lemma_blanks_say_nothing(a: Seq<Seq<char>>, b: Seq<Seq<char>>, section: Section, c: Settings)
    requires
        a.len() == b.len(),
        forall|i: int| 0 <= i < a.len() ==> same_but_blanks(#[trigger] a[i], b[i]),
    ensures
        take_lines(a, section, c) == take_lines(b, section, c),
    decreases a.len(),
{
    if a.len() > 0 {
        assert(same_but_blanks(a[0], b[0]));
        lemma_blanks_do_nothing(a[0], b[0], section, c);
        let (next, d) = take_line(a[0], section, c);
        assert forall|i: int| 0 <= i < a.drop_first().len() implies same_but_blanks(
            #[trigger] a.drop_first()[i],
            b.drop_first()[i],
        ) by {
            assert(same_but_blanks(a[i + 1], b[i + 1]));
        }
        lemma_blanks_say_nothing(a.drop_first(), b.drop_first(), next, d);
    }
}

/// The settings of a file do not depend on blanks, nor on where lines that say nothing stand: two
/// files whose other lines differ at most in blanks have the same settings.
pub proof fn lemma_same_settings(x: Seq<char>, y: Seq<char>, a: Seq<Seq<char>>, b: Seq<Seq<char>>)
    requires
        a == text::lines(x).filter(|line: Seq<char>| !says_nothing(line)),
        b == text::lines(y).filter(|line: Seq<char>| !says_nothing(line)),
        a.len() == b.len(),
        forall|i: int| 0 <= i < a.len() ==> same_but_blanks(#[trigger] a[i], b[i]),
    ensures
        settings_of(x) == settings_of(y),
{
    lemma_speaking_lines(text::lines(x), Section::Other, no_settings());
    lemma_speaking_lines(text::lines(y), Section::Other, no_settings());
    lemma_blanks_say_nothing(a, b, Section::Other, no_settings());
}

/// Only the lines that say something count.
proof fn lemma_speaking_lines(lines: Seq<Seq<char>>, section: Section, c: Settings)
    ensures
        take_lines(lines.filter(|line: Seq<char>| !says_nothing(line)), section, c) == take_lines(lines, section, c),
    decreases lines.len(),
{
    reveal(Seq::filter);
    if lines.len() > 0 {
        let front = lines.drop_last();
        let last = lines.last();
        let none: Seq<Seq<char>> = seq![];
        let kept = front.filter(|line: Seq<char>| !says_nothing(line));
        lemma_speaking_lines(front, section, c);
        lemma_line_between(front, last, none, section, c);
        lemma_line_between(kept, last, none, section, c);
        assert(front + seq![last] + none =~= lines);
        assert(kept + seq![last] + none =~= kept.push(last));
    }
}

/// Blanks may stand around a line, just inside the brackets of a heading, and around the first `=`
/// of a line.
pub proof fn lemma_blanks_allowed(p: Seq<char>, q: Seq<char>, line: Seq<char>, name: Seq<char>, key: Seq<char>, value: Seq<char>)
    requires
        text::all_white(p),
        text::all_white(q),
        forall|i: int| 0 <= i < key.len() ==> key[i] != '=',
    ensures
        same_but_blanks(p + line + q, line),
        same_but_blanks(seq!['['] + (p + name + q) + seq![']'], seq!['['] + name + seq![']']),
        same_but_blanks((key + p) + seq!['='] + (q + value), key + seq!['='] + value),
{
    text::lemma_trim_padded(p, line, q);
    lemma_heading(p + name + q);
    lemma_heading(name);
    text::lemma_trim_padded(p, name, q);
    let none: Seq<char> = seq![];
    assert forall|i: int| 0 <= i < (key + p).len() implies (key + p)[i] != '=' by {
        if i >= key.len() {
            assert(text::is_white(p[i - key.len()]));
        }
    }
    lemma_key_and_value(key + p, q + value);
    lemma_key_and_value(key, value);
    assert(none + key + p =~= key + p);
    text::lemma_trim_padded(none, key, p);
    assert(q + value + none =~= q + value);
    text::lemma_trim_padded(q, value, none);
}

proof fn lemma_heading(name: Seq<char>)
    ensures
        ({
            let line = seq!['['] + name + seq![']'];
            text::trim(line) == line && is_heading(line) && inside(line) == name
        }),
{
    let line = seq!['['] + name + seq![']'];
    let none: Seq<char> = seq![];
    assert(line[0] == '[');
    assert(line.last() == ']');
    assert(inside(line) =~= name);
}

/// What a key with a value holds, where the key has no `=`.
proof fn lemma_key_and_value(key: Seq<char>, value: Seq<char>)
    requires
        forall|i: int| 0 <= i < key.len() ==> key[i] != '=',
    ensures
        ({
            let parts = text::split_once(text::trim(key + seq!['='] + value), '=');
            &&& parts is Some
            &&& text::trim(parts.unwrap().0) == text::trim(key)
            &&& text::trim(parts.unwrap().1) == text::trim(value)
        }),
{
    text::lemma_trim_around(key, '=', value);
    let a = text::lemma_trim_start(key);
    let k = text::trim_start(key);
    let v = text::trim_end(value);
    let line = k + seq!['='] + v;
    assert forall|i: int| 0 <= i < k.len() implies line[i] != '=' by {
        assert(line[i] == key[a.len() + i]);
    }
    text::lemma_first_index_is(line, '=', k.len() as int);
    assert(line.take(k.len() as int) =~= k);
    assert(line.skip(k.len() as int + 1) =~= v);
}

fn set(section: Section, key: &[char], value: &[char], c: &mut Config)
    ensures
        final(c)@ == assign(section, key@, value@, old(c)@),
{
    match section {
        Section::Server => {
            c.server = true;
            if text::is_text(key, "listen") {
                c.listen = text::string_of(value);
            } else if text::is_text(key, "psk") {
                c.psk = text::string_of(value);
            } else if text::is_text(key, "obfs") {
                c.obfs = text::string_of(value);
            }
        },
        Section::Client => {
            c.server = false;
            if text::is_text(key, "listen") {
                c.listen = text::string_of(value);
            } else if text::is_text(key, "server") {
                c.server_addr = text::string_of(value);
            } else if text::is_text(key, "psk") {
                c.psk = text::string_of(value);
            } else if text::is_text(key, "obfs") {
                c.obfs = text::string_of(value);
            } else if text::is_text(key, "obfs-host") {
                c.obfs_host = text::string_of(value);
            } else if text::is_text(key, "version") {
                c.version = text::string_of(value);
            }
        },
        Section::Other => {},
    }
    assert(c@ =~= assign(section, key@, value@, old(c)@));
}

fn section_named(name: &[char]) -> (r: Section)
    ensures
        r == section_of(name@),
{
    if text::is_text(name, "snell-server") {
        Section::Server
    } else if text::is_text(name, "snell-client") {
        Section::Client
    } else {
        Section::Other
    }
}

fn read_line(line: &[char], section: Section, c: &mut Config) -> (r: Section)
    ensures
        (r, final(c)@) == take_line(line@, section, old(c)@),
{
    let line = text::trimmed(line);
    let n: usize = line.len();
    if n > 1 && line[0] == '[' && line[n - 1] == ']' {
        let name = text::trimmed(vstd::slice::slice_subrange(line, 1, n - 1));
        return section_named(name);
    }
    if n == 0 || line[0] == '#' || line[0] == ';' {
        return section;
    }
    let i: usize = text::find_first(line, '=');
    if i < n {
        let key = vstd::slice::slice_subrange(line, 0, i);
        let value = vstd::slice::slice_subrange(line, i + 1, n);
        assert(key@ =~= line@.take(i as int));
        assert(value@ =~= line@.skip(i + 1));
        set(section, text::trimmed(key), text::trimmed(value), c);
    }
    section
}

impl Config {
    /// The configuration of a file, whose sections tell whether it is that of a server or of a
    /// client.
    pub fn parse_file_auto(content: &str) -> (c: Config)
        ensures
            c@ == settings_of(content@),
    {
        let mut c = Config::default();
        let mut section = Section::Other;
        let chars = text::chars_of(content);
        let n: usize = chars.len();
        let mut start: usize = 0;
        assert(chars@.skip(0) =~= chars@);
        while start < n
            invariant
                start <= n,
                n == chars@.len(),
                settings_of(content@) == take_lines(text::lines(chars@.skip(start as int)), section, c@).1,
            decreases n - start,
        {
            let rest: &[char] = vstd::slice::slice_subrange(chars.as_slice(), start, n);
            assert(rest@ =~= chars@.skip(start as int));
            let (end, next) = text::first_line(rest);
            let line: &[char] = vstd::slice::slice_subrange(rest, 0, end);
            assert(line@ =~= rest@.take(end as int));
            let ghost all = text::lines(rest@);
            assert(all[0] == line@);
            assert(all.drop_first() =~= text::lines(rest@.skip(next as int)));
            section = read_line(line, section, &mut c);
            assert(rest@.skip(next as int) =~= chars@.skip(start + next));
            start = start + next;
        }
        assert(chars@.skip(n as int) =~= seq![]);
        c
    }
}

// ---- What a configuration starts ----

/// What a configuration starts.
pub enum Launch {
    /// A server.
    Server { listen: String, psk: String, obfs: String },
    /// A client that listens for applications.
    Client { listen: String, client: SnellClient },
    /// Nothing: the pre-shared key is missing.
    NoPsk,
    /// Nothing: a client needs the address of its server.
    NoServer,
}

/// The obfuscation type of a setting: "none" and "off" are none.
pub open spec fn obfs_type(obfs: Seq<char>) -> Seq<char> {
    if obfs == "none"@ || obfs == "off"@ {
        seq![]
    } else {
        obfs
    }
}

/// The host that a disguise presents: the one that is set, or a common one.
pub open spec fn presented_host(host: Seq<char>) -> Seq<char> {
    if host.len() == 0 {
        "www.bing.com"@
    } else {
        host
    }
}

/// Whether a configuration starts the given thing. Every version but "1" is version 2.
pub open spec fn launches(c: Settings, l: Launch) -> bool {
    if c.psk.len() == 0 {
        l is NoPsk
    } else if c.server {
        l matches Launch::Server { listen, psk, obfs } && listen@ == c.listen && psk@ == c.psk && obfs@ == obfs_type(c.obfs)
    } else if c.server_addr.len() == 0 {
        l is NoServer
    } else {
        l matches Launch::Client { listen, client } && listen@ == c.listen && client.server() == c.server_addr && client.obfs()
            == obfs_type(c.obfs) && client.obfs_host() == presented_host(c.obfs_host) && client.psk() == c.psk
            && client.is_v2() == (c.version != "1"@)
    }
}

impl Config {
    /// What the configuration starts.
    pub fn launch(&self) -> (l: Launch)
        ensures
            launches(self@, l),
    {
        if text::chars_of(self.psk.as_str()).len() == 0 {
            return Launch::NoPsk;
        }
        let obfs = if text::same_str(self.obfs.as_str(), "none") || text::same_str(self.obfs.as_str(), "off") {
            let none = String::new();
            assert(none@ =~= seq![]);
            none
        } else {
            self.obfs.clone()
        };
        if self.server {
            return Launch::Server { listen: self.listen.clone(), psk: self.psk.clone(), obfs };
        }
        if text::chars_of(self.server_addr.as_str()).len() == 0 {
            return Launch::NoServer;
        }
        let is_v2 = !text::same_str(self.version.as_str(), "1");
        let host = if text::chars_of(self.obfs_host.as_str()).len() == 0 {
            String::from_str("www.bing.com")
        } else {
            self.obfs_host.clone()
        };
        let client = SnellClient::new(self.server_addr.as_str(), obfs.as_str(), host.as_str(), self.psk.as_str(), is_v2);
        Launch::Client { listen: self.listen.clone(), client }
    }
}

// ---- Files and what they start, in plain terms ----

/// The type of a launched server or client is what the file sets: "tls" for "tls", "http" for "http",
/// and so on for every setting but "none" and "off", which are no type, as no setting is.
pub proof fn lemma_launched_type(c: Config, l: Launch)
    requires
        launches(c@, l),
    ensures
        l matches Launch::Server { obfs, .. } ==> {
            &&& c.obfs@ == "tls"@ ==> obfs@ == "tls"@
            &&& c.obfs@ == "http"@ ==> obfs@ == "http"@
            &&& c.obfs@ == "none"@ || c.obfs@ == "off"@ ==> obfs@.len() == 0
            &&& c.obfs@ != "none"@ && c.obfs@ != "off"@ ==> obfs@ == c.obfs@
            &&& obfs@.len() == 0 ==> c.obfs@ == "none"@ || c.obfs@ == "off"@ || c.obfs@.len() == 0
        },
        l matches Launch::Client { client, .. } ==> {
            &&& c.obfs@ == "tls"@ ==> client.obfs() == "tls"@
            &&& c.obfs@ == "http"@ ==> client.obfs() == "http"@
            &&& c.obfs@ == "none"@ || c.obfs@ == "off"@ ==> client.obfs().len() == 0
            &&& c.obfs@ != "none"@ && c.obfs@ != "off"@ ==> client.obfs() == c.obfs@
            &&& client.obfs().len() == 0 ==> c.obfs@ == "none"@ || c.obfs@ == "off"@ || c.obfs@.len() == 0
        },
{
    reveal_strlit("tls");
    reveal_strlit("http");
    reveal_strlit("none");
    reveal_strlit("off");
    assert("tls"@[0] == 't');
    assert("off"@[0] == 'o');
    assert("http"@[0] == 'h');
    assert("none"@[0] == 'n');
}

/// What a configuration starts besides: nothing without a pre-shared key; a server where the file is
/// one of a server; else a client, which needs the address of its server. All of them listen where the
/// file says, and take the key as it stands there.
pub proof fn lemma_launched(c: Config, l: Launch)
    requires
        launches(c@, l),
    ensures
        l is NoPsk <==> c.psk@.len() == 0,
        l is Server <==> c.psk@.len() > 0 && c.server,
        l is NoServer <==> c.psk@.len() > 0 && !c.server && c.server_addr@.len() == 0,
        l is Client <==> c.psk@.len() > 0 && !c.server && c.server_addr@.len() > 0,
        l matches Launch::Server { listen, psk, .. } ==> listen@ == c.listen@ && psk@ == c.psk@,
        l matches Launch::Client { listen, client } ==> listen@ == c.listen@ && client.psk() == c.psk@ && client.server()
            == c.server_addr@,
{
}

/// A launched client presents the host that the file sets, and a common one where it sets none; and it
/// speaks version 1 where the file says "1", and version 2 in every other case.
pub proof fn lemma_launched_client(c: Config, l: Launch)
    requires
        launches(c@, l),
        l is Client,
    ensures
        l matches Launch::Client { client, .. } ==> {
            &&& c.obfs_host@.len() > 0 ==> client.obfs_host() == c.obfs_host@
            &&& c.obfs_host@.len() == 0 ==> client.obfs_host() == "www.bing.com"@
            &&& c.version@ == seq!['1'] ==> !client.is_v2()
            &&& c.version@ != seq!['1'] ==> client.is_v2()
        },
{
    reveal_strlit("1");
    assert("1"@ =~= seq!['1']);
}

/// What each field of the settings is after a key of a section: the value behind the key of that
/// field, where the section has the key, and else what it was.
pub proof fn lemma_assigned(section: Section, key: Seq<char>, value: Seq<char>, c: Settings)
    ensures
        ({
            let d = assign(section, key, value, c);
            &&& d.server == (section is Server || (c.server && section is Other))
            &&& d.listen == (if section !is Other && key == "listen"@ {
                value
            } else {
                c.listen
            })
            &&& d.psk == (if section !is Other && key == "psk"@ {
                value
            } else {
                c.psk
            })
            &&& d.obfs == (if section !is Other && key == "obfs"@ {
                value
            } else {
                c.obfs
            })
            &&& d.server_addr == (if section is Client && key == "server"@ {
                value
            } else {
                c.server_addr
            })
            &&& d.obfs_host == (if section is Client && key == "obfs-host"@ {
                value
            } else {
                c.obfs_host
            })
            &&& d.version == (if section is Client && key == "version"@ {
                value
            } else {
                c.version
            })
        }),
{
    reveal_strlit("listen");
    reveal_strlit("server");
    reveal_strlit("psk");
    reveal_strlit("obfs");
    reveal_strlit("obfs-host");
    reveal_strlit("version");
    assert("listen"@[0] == 'l');
    assert("server"@[0] == 's');
    assert("listen"@.len() == 6 && "server"@.len() == 6);
    assert("psk"@.len() == 3 && "obfs"@.len() == 4 && "obfs-host"@.len() == 9 && "version"@.len() == 7);
}

/// What a line does: a name in brackets opens the section of that name, whatever was open; a key and a
/// value with the first `=` between them set the key, blanks around either aside; a comment does
/// nothing, nor does a line without an `=`.
pub proof fn lemma_line(key: Seq<char>, value: Seq<char>, name: Seq<char>, word: Seq<char>, section: Section, c: Settings)
    requires
        !key.contains('='),
        text::trim(key).len() > 0 ==> text::trim(key)[0] != '[' && text::trim(key)[0] != '#' && text::trim(key)[0] != ';',
        !word.contains('='),
        text::trim(word).len() > 0 ==> text::trim(word)[0] != '[',
    ensures
        take_line(key + seq!['='] + value, section, c) == (section, assign(section, text::trim(key), text::trim(value), c)),
        text::trim(name) == "snell-server"@ ==> take_line(seq!['['] + name + seq![']'], section, c) == (Section::Server, c),
        text::trim(name) == "snell-client"@ ==> take_line(seq!['['] + name + seq![']'], section, c) == (Section::Client, c),
        text::trim(name) != "snell-server"@ && text::trim(name) != "snell-client"@ ==> take_line(
            seq!['['] + name + seq![']'],
            section,
            c,
        ) == (Section::Other, c),
        take_line(seq!['#'] + value, section, c) == (section, c),
        take_line(seq![';'] + value, section, c) == (section, c),
        take_line(word, section, c) == (section, c),
{
    lemma_heading(name);
    assert forall|i: int| 0 <= i < key.len() implies key[i] != '=' by {
        assert(key.contains(key[i]));
    }
    lemma_key_and_value(key, value);
    let line = text::trim(key + seq!['='] + value);
    text::lemma_trim_ends(key + seq!['='] + value);
    lemma_line_ends(line);
    lemma_comment('#', value);
    lemma_comment(';', value);
    reveal_strlit("snell-server");
    reveal_strlit("snell-client");
    assert("snell-server"@[6] == 's');
    assert("snell-client"@[6] == 'c');
    let bare = text::trim(word);
    text::lemma_trim_ends(word);
    assert(!bare.contains('=')) by {
        if bare.contains('=') {
            lemma_trim_holds(word, '=');
        }
    }
    text::lemma_split_once(bare, '=', seq![]);
}

/// What a text holds after trimming, it held before.
proof fn lemma_trim_holds(s: Seq<char>, c: char)
    requires
        text::trim(s).contains(c),
    ensures
        s.contains(c),
{
    let a = text::lemma_trim_start(s);
    let b = text::lemma_trim_end(text::trim_start(s));
    let t = text::trim(s);
    let i = choose|i: int| 0 <= i < t.len() && t[i] == c;
    assert(text::trim_start(s)[i] == c);
    assert(s[a.len() + i] == c);
}

proof fn lemma_comment(c: char, value: Seq<char>)
    requires
        c == '#' || c == ';',
    ensures
        ({
            let line = text::trim(seq![c] + value);
            line.len() > 0 && line[0] == c
        }),
{
    let line = seq![c] + value;
    assert(text::trim_start(line) == line);
    let w = text::lemma_trim_end(line);
    if text::trim_end(line).len() == 0 {
        assert(line[0] == w[0]);
    } else {
        assert(text::trim_end(line)[0] == line[0]);
    }
}

/// Whether a value can stand in a line of a file: it holds no line feed, and does not end with a
/// carriage return.
pub open spec fn fits_line(value: Seq<char>) -> bool {
    !value.contains('\n') && (value.len() > 0 ==> value.last() != '\r')
}

/// A line with a key, and the rest of a file behind it.
proof fn lemma_key_line(key: Seq<char>, value: Seq<char>, rest: Seq<char>, section: Section, c: Settings)
    requires
        fits_line(value),
        key == "listen"@ || key == "server"@ || key == "psk"@ || key == "obfs"@ || key == "obfs-host"@ || key == "version"@,
    ensures
        take_lines(text::lines(key + seq![' ', '=', ' '] + value + seq!['\n'] + rest), section, c) == take_lines(
            text::lines(rest),
            section,
            assign(section, key, text::trim(value), c),
        ),
{
    reveal_strlit("listen");
    reveal_strlit("server");
    reveal_strlit("psk");
    reveal_strlit("obfs");
    reveal_strlit("obfs-host");
    reveal_strlit("version");
    let line = key + seq![' ', '=', ' '] + value;
    let blank = seq![' '];
    let none: Seq<char> = seq![];
    assert(line =~= (key + blank) + seq!['='] + (blank + value));
    assert(!line.contains('\n')) by {
        if line.contains('\n') {
            let i = choose|i: int| 0 <= i < line.len() && line[i] == '\n';
            if i >= key.len() + 3 {
                assert(value[i - key.len() - 3] == '\n');
            }
        }
    }
    assert(line.last() != '\r') by {
        if value.len() > 0 {
            assert(line.last() == value.last());
        }
    }
    text::lemma_lines_front(line, rest);
    let all = text::lines(line + seq!['\n'] + rest);
    assert(all[0] == line);
    assert(all.drop_first() =~= text::lines(rest));
    text::lemma_trim(none, key, blank);
    assert(none + key + blank =~= key + blank);
    text::lemma_trim_padded(blank, value, none);
    assert(blank + value + none =~= blank + value);
    assert(!(key + blank).contains('='));
    lemma_line(key + blank, blank + value, none, none, section, c);
}

/// A line with the heading of a section, and the rest of a file behind it.
proof fn lemma_heading_line(name: Seq<char>, rest: Seq<char>, section: Section, c: Settings)
    requires
        name == "snell-server"@ || name == "snell-client"@,
    ensures
        take_lines(text::lines(seq!['['] + name + seq![']'] + seq!['\n'] + rest), section, c) == take_lines(
            text::lines(rest),
            if name == "snell-server"@ {
                Section::Server
            } else {
                Section::Client
            },
            c,
        ),
{
    reveal_strlit("snell-server");
    reveal_strlit("snell-client");
    assert("snell-server"@[6] != "snell-client"@[6]);
    let line = seq!['['] + name + seq![']'];
    let none: Seq<char> = seq![];
    assert(!line.contains('\n'));
    text::lemma_lines_front(line, rest);
    let all = text::lines(line + seq!['\n'] + rest);
    assert(all[0] == line);
    assert(all.drop_first() =~= text::lines(rest));
    text::lemma_trim(none, name, none);
    assert(none + name + none =~= name);
    lemma_line(none, none, name, none, section, c);
}

/// The file of a server, with the keys that a server has, in the order of the documentation: each value
/// is what stands behind its key, without the blanks around it.
pub proof fn lemma_server_file(listen: Seq<char>, psk: Seq<char>, obfs: Seq<char>)
    requires
        fits_line(listen),
        fits_line(psk),
        fits_line(obfs),
    ensures
        ({
            let is = seq![' ', '=', ' '];
            let end = seq!['\n'];
            settings_of(
                seq!['['] + "snell-server"@ + seq![']'] + end + ("listen"@ + is + listen + end + ("psk"@ + is + psk + end + ("obfs"@ + is
                    + obfs + end + seq![]))),
            ) == Settings {
                server: true,
                listen: text::trim(listen),
                server_addr: seq![],
                psk: text::trim(psk),
                obfs: text::trim(obfs),
                obfs_host: seq![],
                version: seq![],
            }
        }),
{
    let is = seq![' ', '=', ' '];
    let end = seq!['\n'];
    let none: Seq<char> = seq![];
    let d = "obfs"@ + is + obfs + end + none;
    let c = "psk"@ + is + psk + end + d;
    let b = "listen"@ + is + listen + end + c;
    let s0 = no_settings();
    let s1 = assign(Section::Server, "listen"@, text::trim(listen), s0);
    let s2 = assign(Section::Server, "psk"@, text::trim(psk), s1);
    let s3 = assign(Section::Server, "obfs"@, text::trim(obfs), s2);
    lemma_heading_line("snell-server"@, b, Section::Other, s0);
    lemma_key_line("listen"@, listen, c, Section::Server, s0);
    lemma_key_line("psk"@, psk, d, Section::Server, s1);
    lemma_key_line("obfs"@, obfs, none, Section::Server, s2);
    assert(text::lines(none) =~= seq![]);
    assert(take_lines(text::lines(none), Section::Server, s3) == (Section::Server, s3));
    lemma_assigned(Section::Server, "listen"@, text::trim(listen), s0);
    lemma_assigned(Section::Server, "psk"@, text::trim(psk), s1);
    lemma_assigned(Section::Server, "obfs"@, text::trim(obfs), s2);
    lemma_keys_differ();
}

/// No two keys are the same.
proof fn lemma_keys_differ()
    ensures
        "listen"@ != "server"@ && "listen"@ != "psk"@ && "listen"@ != "obfs"@ && "listen"@ != "obfs-host"@ && "listen"@ != "version"@,
        "server"@ != "psk"@ && "server"@ != "obfs"@ && "server"@ != "obfs-host"@ && "server"@ != "version"@,
        "psk"@ != "obfs"@ && "psk"@ != "obfs-host"@ && "psk"@ != "version"@,
        "obfs"@ != "obfs-host"@ && "obfs"@ != "version"@ && "obfs-host"@ != "version"@,
{
    reveal_strlit("listen");
    reveal_strlit("server");
    reveal_strlit("psk");
    reveal_strlit("obfs");
    reveal_strlit("obfs-host");
    reveal_strlit("version");
    assert("listen"@[0] == 'l');
    assert("server"@[0] == 's');
    assert("listen"@.len() == 6 && "server"@.len() == 6);
    assert("psk"@.len() == 3 && "obfs"@.len() == 4 && "obfs-host"@.len() == 9 && "version"@.len() == 7);
}

/// The file of a client, with the keys that a client has, in the order of the documentation: each value
/// is what stands behind its key, without the blanks around it.
pub proof fn lemma_client_file(
    listen: Seq<char>,
    server: Seq<char>,
    psk: Seq<char>,
    obfs: Seq<char>,
    obfs_host: Seq<char>,
    version: Seq<char>,
)
    requires
        fits_line(listen),
        fits_line(server),
        fits_line(psk),
        fits_line(obfs),
        fits_line(obfs_host),
        fits_line(version),
    ensures
        ({
            let is = seq![' ', '=', ' '];
            let end = seq!['\n'];
            settings_of(
                seq!['['] + "snell-client"@ + seq![']'] + end + ("listen"@ + is + listen + end + ("server"@ + is + server + end + ("psk"@
                    + is + psk + end + ("obfs"@ + is + obfs + end + ("obfs-host"@ + is + obfs_host + end + ("version"@ + is + version
                    + end + seq![])))))),
            ) == Settings {
                server: false,
                listen: text::trim(listen),
                server_addr: text::trim(server),
                psk: text::trim(psk),
                obfs: text::trim(obfs),
                obfs_host: text::trim(obfs_host),
                version: text::trim(version),
            }
        }),
{
    let is = seq![' ', '=', ' '];
    let end = seq!['\n'];
    let none: Seq<char> = seq![];
    let g = "version"@ + is + version + end + none;
    let f = "obfs-host"@ + is + obfs_host + end + g;
    let e = "obfs"@ + is + obfs + end + f;
    let d = "psk"@ + is + psk + end + e;
    let c = "server"@ + is + server + end + d;
    let b = "listen"@ + is + listen + end + c;
    let of = Section::Client;
    let s0 = no_settings();
    let s1 = assign(of, "listen"@, text::trim(listen), s0);
    let s2 = assign(of, "server"@, text::trim(server), s1);
    let s3 = assign(of, "psk"@, text::trim(psk), s2);
    let s4 = assign(of, "obfs"@, text::trim(obfs), s3);
    let s5 = assign(of, "obfs-host"@, text::trim(obfs_host), s4);
    let s6 = assign(of, "version"@, text::trim(version), s5);
    lemma_heading_line("snell-client"@, b, Section::Other, s0);
    lemma_sections_differ();
    lemma_key_line("listen"@, listen, c, of, s0);
    lemma_key_line("server"@, server, d, of, s1);
    lemma_key_line("psk"@, psk, e, of, s2);
    lemma_key_line("obfs"@, obfs, f, of, s3);
    lemma_key_line("obfs-host"@, obfs_host, g, of, s4);
    lemma_key_line("version"@, version, none, of, s5);
    assert(text::lines(none) =~= seq![]);
    assert(take_lines(text::lines(none), of, s6) == (of, s6));
    lemma_assigned(of, "listen"@, text::trim(listen), s0);
    lemma_assigned(of, "server"@, text::trim(server), s1);
    lemma_assigned(of, "psk"@, text::trim(psk), s2);
    lemma_assigned(of, "obfs"@, text::trim(obfs), s3);
    lemma_assigned(of, "obfs-host"@, text::trim(obfs_host), s4);
    lemma_assigned(of, "version"@, text::trim(version), s5);
    lemma_keys_differ();
}

proof fn lemma_sections_differ()
    ensures
        "snell-server"@ != "snell-client"@,
{
    reveal_strlit("snell-server");
    reveal_strlit("snell-client");
    assert("snell-server"@[6] != "snell-client"@[6]);
}

/// A file that says nothing sets nothing.
pub proof fn lemma_empty_file()
    ensures
        settings_of(seq![]) == (Settings {
            server: false,
            listen: seq![],
            server_addr: seq![],
            psk: seq![],
            obfs: seq![],
            obfs_host: seq![],
            version: seq![],
        }),
{
    let none: Seq<char> = seq![];
    assert(text::lines(none) =~= seq![]);
}

}
