//! Traffic obfuscation: what goes over the wire is disguised as a TLS 1.2 connection or as a
//! WebSocket upgrade over HTTP, or goes as it is.
use crate::entropy::{random_below, random_bytes};
use crate::http;
use crate::text;
use crate::tls;
use crate::wire::{IoError, Wire};
use vstd::prelude::*;

verus! {

/// The disguise of a connection, and the side that plays it.
#[derive(Debug)]
pub enum ObfsMode {
    Plain,
    TlsServer,
    TlsClient { host: String },
    HttpServer,
    HttpClient { host: String, port: String },
}

/// The disguise and the side, without the names that a client presents.
#[derive(Clone, Copy, PartialEq, Eq, Structural, Debug)]
pub enum Kind {
    Plain,
    TlsServer,
    TlsClient,
    HttpServer,
    HttpClient,
}

impl ObfsMode {
    /// The disguise and the side of this mode.
    pub open spec fn kind(&self) -> Kind {
        match self {
            ObfsMode::Plain => Kind::Plain,
            ObfsMode::TlsServer => Kind::TlsServer,
            ObfsMode::TlsClient { .. } => Kind::TlsClient,
            ObfsMode::HttpServer => Kind::HttpServer,
            ObfsMode::HttpClient { .. } => Kind::HttpClient,
        }
    }

    /// The host name that this mode presents.
    pub open spec fn host(&self) -> Seq<char> {
        match self {
            ObfsMode::TlsClient { host } => host@,
            ObfsMode::HttpClient { host, .. } => host@,
            _ => seq![],
        }
    }

    /// The port that this mode presents.
    pub open spec fn port(&self) -> Seq<char> {
        match self {
            ObfsMode::HttpClient { port, .. } => port@,
            _ => seq![],
        }
    }
}

// ---- What a read does ----

/// The reading half of an obfuscated stream.
#[verifier::ext_equal]
pub struct Reader {
    /// The disguise and this side.
    pub kind: Kind,
    /// Whether the peer's hello is still to be read.
    pub first: bool,
    /// Whether the rest of a client hello behind its session ticket has been read.
    pub ticket_done: bool,
    /// Payload bytes of the present record that are still on the wire.
    pub remain: nat,
    /// Payload bytes that were taken off the wire and not handed out yet.
    pub pending: Seq<u8>,
}

/// What a read comes to.
pub enum Outcome {
    /// Bytes are lacking that may still come; nothing changes.
    Starved,
    /// Bytes are lacking that will not come: what is there is taken off the wire and lost.
    Cut { next: Reader },
    /// `consumed` bytes are taken off the wire and `out` is handed out.
    Data { consumed: nat, out: Seq<u8>, next: Reader },
}

/// The reading half of a fresh stream.
pub open spec fn fresh_reader(kind: Kind) -> Reader {
    Reader { kind, first: true, ticket_done: false, remain: 0, pending: seq![] }
}

/// The smaller of two numbers.
pub open spec fn least(a: nat, b: nat) -> nat {
    if a < b {
        a
    } else {
        b
    }
}

/// Whether a read of up to `cap` bytes returns: some bytes are there, or none will come, or none
/// are asked for.
pub open spec fn returns_some(s: Seq<u8>, eof: bool, cap: nat) -> bool {
    s.len() > 0 || eof || cap == 0
}

/// What a read comes to that lacks bytes.
pub open spec fn lacks(next: Reader, eof: bool) -> Outcome {
    if eof {
        Outcome::Cut { next }
    } else {
        Outcome::Starved
    }
}

/// A read behind `skip` bytes that need to be there and are dropped: up to `cap` bytes, as many
/// as have arrived.
pub open spec fn raw_read(next: Reader, s: Seq<u8>, eof: bool, skip: nat, cap: nat) -> Outcome {
    if s.len() < skip || !returns_some(s.skip(skip as int), eof, cap) {
        lacks(next, eof)
    } else {
        let n = least(cap, (s.len() - skip) as nat);
        Outcome::Data { consumed: skip + n, out: s.subrange(skip as int, (skip + n) as int), next }
    }
}

/// A read of a TLS payload behind `head` bytes, the last two of which hold its length. A payload
/// that fits into `cap` is read whole; of a longer one as much as has arrived.
pub open spec fn tls_read(next: Reader, s: Seq<u8>, eof: bool, head: nat, cap: nat) -> Outcome {
    if s.len() < head {
        lacks(next, eof)
    } else {
        let length = tls::from_be16(s[head - 2], s[head - 1]);
        if length <= cap {
            if s.len() < head + length {
                lacks(next, eof)
            } else {
                Outcome::Data { consumed: head + length, out: s.subrange(head as int, (head + length) as int), next }
            }
        } else {
            match raw_read(next, s, eof, head, cap) {
                Outcome::Data { consumed, out, next } => Outcome::Data {
                    consumed,
                    out,
                    next: Reader { remain: (length - out.len()) as nat, ..next },
                },
                lacking => lacking,
            }
        }
    }
}

/// Bytes of a client hello behind its session ticket, for a server name of the given length.
pub open spec fn hello_tail_len(name_len: nat) -> nat {
    tls::SNI_HEAD as nat + 2 + name_len + 66
}

/// Bytes of a record ahead of its payload.
pub open spec fn record_head_len() -> nat {
    tls::RECORD_HEAD as nat + 2
}

/// The end of the first empty line, which ends a header block.
pub open spec fn head_end(s: Seq<u8>) -> Option<nat>
    decreases s.len(),
{
    if s.len() < 4 {
        None
    } else if s[0] == 13 && s[1] == 10 && s[2] == 13 && s[3] == 10 {
        Some(4)
    } else {
        match head_end(s.drop_first()) {
            Some(e) => Some(e + 1),
            None => None,
        }
    }
}

/// The body length that a header block announces, or 0.
pub open spec fn body_length(head: Seq<u8>) -> nat {
    match http::announced_length(text::lines(text::lossy_text(head))) {
        Some(n) => n,
        None => 0,
    }
}

/// The first read of an HTTP stream: the header block, and behind it the body that it announces.
/// Behind a request without a body nothing is handed out; a response without a body switches
/// protocols, and the payload follows at once.
pub open spec fn http_read(r: Reader, s: Seq<u8>, eof: bool, cap: nat) -> Outcome {
    let next = Reader { first: false, ..r };
    match head_end(s) {
        None => lacks(next, eof),
        Some(e) => {
            let length = body_length(s.take(e as int));
            if length > 0 {
                if s.len() < e + length {
                    lacks(next, eof)
                } else {
                    let n = least(cap, length);
                    Outcome::Data {
                        consumed: e + length,
                        out: s.subrange(e as int, (e + n) as int),
                        next: Reader { pending: s.subrange((e + n) as int, (e + length) as int), ..next },
                    }
                }
            } else if r.kind is HttpClient {
                raw_read(next, s, eof, e, cap)
            } else {
                Outcome::Data { consumed: e, out: seq![], next }
            }
        },
    }
}

/// A read of up to `cap` bytes, where `s` has arrived and `eof` tells whether the stream ends
/// there.
#[verifier::opaque]
pub open spec fn obfs_read(r: Reader, s: Seq<u8>, eof: bool, cap: nat) -> Outcome {
    if r.pending.len() > 0 {
        let n = least(cap, r.pending.len());
        Outcome::Data {
            consumed: 0,
            out: r.pending.take(n as int),
            next: Reader { pending: r.pending.skip(n as int), ..r },
        }
    } else if r.kind is Plain {
        raw_read(r, s, eof, 0, cap)
    } else if r.kind is HttpServer || r.kind is HttpClient {
        if r.first {
            http_read(r, s, eof, cap)
        } else {
            raw_read(r, s, eof, 0, cap)
        }
    } else if r.remain > 0 {
        let n = least(cap, r.remain);
        if s.len() < n {
            lacks(r, eof)
        } else {
            Outcome::Data { consumed: n, out: s.take(n as int), next: Reader { remain: (r.remain - n) as nat, ..r } }
        }
    } else if r.first {
        let head = if r.kind is TlsServer { tls::CLIENT_HELLO_HEAD as nat } else { tls::SERVER_HELLO_HEAD as nat };
        tls_read(Reader { first: false, ..r }, s, eof, head + 2, cap)
    } else if r.kind is TlsServer && !r.ticket_done {
        if s.len() < tls::SNI_HEAD + 2 {
            lacks(Reader { ticket_done: true, ..r }, eof)
        } else {
            let name_len = tls::from_be16(s[tls::SNI_HEAD as int], s[tls::SNI_HEAD + 1]);
            tls_read(Reader { ticket_done: true, ..r }, s, eof, hello_tail_len(name_len) + record_head_len(), cap)
        }
    } else {
        tls_read(r, s, eof, record_head_len(), cap)
    }
}

// ---- What a write does ----

/// The writing half of an obfuscated stream.
pub struct Writer {
    /// The disguise and this side.
    pub kind: Kind,
    /// The host name that a client presents.
    pub host: Seq<char>,
    /// The port that a client presents.
    pub port: Seq<char>,
    /// Whether the hello is still to be written.
    pub first: bool,
}

/// The writing half after a write.
pub open spec fn after_write(w: Writer) -> Writer {
    if w.kind is Plain {
        w
    } else {
        Writer { first: false, ..w }
    }
}

/// Whether `out` is an upgrade response with `data` behind it.
pub open spec fn is_http_response(out: Seq<u8>, data: Seq<u8>) -> bool {
    exists|major: nat, minor: nat, seconds: u64, token: Seq<u8>| {
        &&& major < 11
        &&& minor < 12
        &&& token.len() == 16
        &&& out == vstd::utf8::encode_utf8(
            http::joined(
                #[trigger] http::response_lines(major, minor, http::rfc1123(seconds as int), http::base64_url(token)),
            ),
        ) + data
    }
}

/// Whether `out` is an upgrade request with `data` as its body.
pub open spec fn is_http_request(out: Seq<u8>, data: Seq<u8>, host: Seq<char>, port: Seq<char>) -> bool {
    exists|minor: nat, patch: nat, token: Seq<u8>| {
        &&& minor < 54
        &&& patch < 2
        &&& token.len() == 16
        &&& out == vstd::utf8::encode_utf8(
            http::joined(
                #[trigger] http::request_lines(host, port, minor, patch, http::base64_url(token), data.len()),
            ),
        ) + data
    }
}

/// Whether a write of `data` can put `out` on the wire. A hello holds the time and random values,
/// so that there are many; everything else is fixed by the data.
pub open spec fn writes(w: Writer, data: Seq<u8>, out: Seq<u8>) -> bool {
    match w.kind {
        Kind::Plain => out == data,
        Kind::TlsServer => if w.first {
            tls::is_server_hello(out, data)
        } else {
            out == tls::app_data(data)
        },
        Kind::TlsClient => if w.first {
            tls::is_client_hello(out, data, vstd::utf8::encode_utf8(w.host))
        } else {
            out == tls::app_data(data)
        },
        Kind::HttpServer => if w.first {
            is_http_response(out, data)
        } else {
            out == data
        },
        Kind::HttpClient => if w.first {
            is_http_request(out, data, w.host, w.port)
        } else {
            out == data
        },
    }
}

/// The writing half after a number of writes.
pub open spec fn writer_after(w: Writer, n: nat) -> Writer {
    if n == 0 {
        w
    } else {
        after_write(w)
    }
}

/// Whether writes of each of `data`, one after the other, can put `out` on the wire.
pub open spec fn writes_each(w: Writer, data: Seq<Seq<u8>>, out: Seq<u8>) -> bool
    decreases data.len(),
{
    if data.len() == 0 {
        out.len() == 0
    } else {
        exists|k: int|
            {
                &&& 0 <= k <= out.len()
                &&& writes_each(w, data.drop_last(), #[trigger] out.take(k))
                &&& writes(writer_after(w, (data.len() - 1) as nat), data.last(), out.skip(k))
            }
    }
}

/// One write more puts its bytes behind those of the writes before it.
pub proof fn lemma_writes_push(w: Writer, data: Seq<Seq<u8>>, out: Seq<u8>, more: Seq<u8>, more_out: Seq<u8>)
    requires
        writes_each(w, data, out),
        writes(writer_after(w, data.len()), more, more_out),
    ensures
        writes_each(w, data.push(more), out + more_out),
{
    let all = out + more_out;
    let k = out.len() as int;
    assert(data.push(more).drop_last() =~= data);
    assert(all.take(k) =~= out);
    assert(all.skip(k) =~= more_out);
}

/// What some writes put on the wire opens with what the first of them puts there.
pub proof fn lemma_first_write(w: Writer, data: Seq<Seq<u8>>, out: Seq<u8>) -> (k: int)
    requires
        data.len() > 0,
        writes_each(w, data, out),
    ensures
        0 <= k <= out.len(),
        writes(w, data[0], out.take(k)),
        writes_each(after_write(w), data.drop_first(), out.skip(k)),
    decreases data.len(),
{
    let end = choose|end: int|
        {
            &&& 0 <= end <= out.len()
            &&& writes_each(w, data.drop_last(), #[trigger] out.take(end))
            &&& writes(writer_after(w, (data.len() - 1) as nat), data.last(), out.skip(end))
        };
    if data.len() == 1 {
        let k = out.len() as int;
        assert(out.take(end).len() == 0);
        assert(out.skip(end) =~= out);
        assert(out.take(k) =~= out);
        assert(data.drop_first() =~= seq![]);
        k
    } else {
        let k = lemma_first_write(w, data.drop_last(), out.take(end));
        let middle = data.drop_last().drop_first();
        assert(out.take(end).take(k) =~= out.take(k));
        lemma_writes_push(after_write(w), middle, out.take(end).skip(k), data.last(), out.skip(end));
        assert(middle.push(data.last()) =~= data.drop_first());
        assert(out.take(end).skip(k) + out.skip(end) =~= out.skip(k));
        k
    }
}

// ---- The state of a connection ----

/// The state of an obfuscated stream, both halves.
pub struct ObfsState {
    mode: ObfsMode,
    first_read: bool,
    first_write: bool,
    tls_session_ticket_done: bool,
    tls_remain: usize,
    read_buf: Vec<u8>,
}

/// What follows a header block: a body, of which up to as much as was asked for is handed out, or
/// none, behind a block of `head` bytes.
enum HttpBody {
    Present { payload: Vec<u8> },
    Absent { head: usize },
}

/// The end of the first empty line.
fn find_head_end(s: &[u8]) -> (r: Option<usize>)
    ensures
        match r {
            Some(e) => head_end(s@) == Some(e as nat) && e <= s@.len(),
            None => head_end(s@) is None,
        },
{
    let n: usize = s.len();
    let mut i: usize = 0;
    assert(s@.skip(0) =~= s@);
    while n - i >= 4
        invariant
            i <= n,
            n == s@.len(),
            head_end(s@) == (match head_end(s@.skip(i as int)) {
                Some(e) => Some(e + i as nat),
                None => None,
            }),
        decreases n - i,
    {
        if s[i] == 13 && s[i + 1] == 10 && s[i + 2] == 13 && s[i + 3] == 10 {
            return Some(i + 4);
        }
        assert(s@.skip(i as int).drop_first() =~= s@.skip(i + 1));
        i = i + 1;
    }
    None
}

fn smaller(a: usize, b: usize) -> (r: usize)
    ensures
        r == least(a as nat, b as nat),
{
    if a < b {
        a
    } else {
        b
    }
}

/// What the methods of the reading half promise: the result, and the wire and the reader after it.
pub open spec fn reads_as(
    outcome: Outcome,
    before: Reader,
    inbox: Seq<u8>,
    result: Result<Seq<u8>, IoError>,
    after: Reader,
    inbox_after: Seq<u8>,
) -> bool {
    match outcome {
        Outcome::Starved => {
            &&& result matches Err(e) && e is WouldBlock
            &&& after == before
            &&& inbox_after == inbox
        },
        Outcome::Cut { next } => {
            &&& result matches Err(e) && e is UnexpectedEof
            &&& after == next
            &&& inbox_after.len() == 0
        },
        Outcome::Data { consumed, out, next } => {
            &&& result matches Ok(data) && data == out
            &&& after == next
            &&& inbox_after == inbox.skip(consumed as int)
        },
    }
}

/// The bytes of a result.
pub open spec fn seen(r: Result<Vec<u8>, IoError>) -> Result<Seq<u8>, IoError> {
    match r {
        Ok(v) => Ok(v@),
        Err(e) => Err(e),
    }
}

/// What a write put behind the bytes that were to be sent before it.
pub open spec fn appended(before: Wire, after: Wire) -> Seq<u8> {
    after.outbox@.skip(before.outbox@.len() as int)
}

/// What the methods of the writing half promise: `data` goes out under the disguise, and neither
/// the reading half nor the bytes that arrived are touched.
pub open spec fn wrote(before: ObfsState, wire_before: Wire, data: Seq<u8>, after: ObfsState, wire_after: Wire) -> bool {
    &&& after.reader() == before.reader()
    &&& after.writer() == after_write(before.writer())
    &&& wire_after.inbox@ == wire_before.inbox@
    &&& wire_after.eof == wire_before.eof
    &&& wire_after.outbox@ == wire_before.outbox@ + appended(wire_before, wire_after)
    &&& writes(before.writer(), data, appended(wire_before, wire_after))
}

impl ObfsState {
    /// The reading half.
    pub closed spec fn reader(&self) -> Reader {
        Reader {
            kind: self.mode.kind(),
            first: self.first_read,
            ticket_done: self.tls_session_ticket_done,
            remain: self.tls_remain as nat,
            pending: self.read_buf@,
        }
    }

    /// The writing half.
    pub closed spec fn writer(&self) -> Writer {
        Writer { kind: self.mode.kind(), host: self.mode.host(), port: self.mode.port(), first: self.first_write }
    }

    /// A fresh stream.
    pub fn new(mode: ObfsMode) -> (s: ObfsState)
        ensures
            s.reader() == fresh_reader(mode.kind()),
            s.writer() == (Writer { kind: mode.kind(), host: mode.host(), port: mode.port(), first: true }),
    {
        ObfsState {
            mode,
            first_read: true,
            first_write: true,
            tls_session_ticket_done: false,
            tls_remain: 0,
            read_buf: Vec::new(),
        }
    }

    /// Reads behind `skip` bytes up to `cap` bytes, as many as have arrived.
    fn read_raw(&self, stream: &mut Wire, skip: usize, cap: usize) -> (r: Result<Vec<u8>, IoError>)
        ensures
            final(stream).eof == old(stream).eof,
            final(stream).outbox@ == old(stream).outbox@,
            reads_as(
                raw_read(self.reader(), old(stream).inbox@, old(stream).eof, skip as nat, cap as nat),
                self.reader(),
                old(stream).inbox@,
                seen(r),
                self.reader(),
                final(stream).inbox@,
            ),
    {
        let ghost s = stream.inbox@;
        let have: usize = stream.inbox.len();
        if have < skip || (have == skip && !stream.eof && cap > 0) {
            return Err(stream.lack());
        }
        let n: usize = smaller(cap, have - skip);
        let _head = stream.take(skip);
        let out = stream.take(n);
        assert(out@ =~= s.subrange(skip as int, skip + n));
        assert(stream.inbox@ =~= s.skip(skip + n));
        Ok(out)
    }

    /// Reads a TLS payload behind `head` bytes, the last two of which hold its length.
    fn read_tls_payload(&mut self, stream: &mut Wire, head: usize, cap: usize) -> (r: Result<Vec<u8>, IoError>)
        requires
            head >= 2,
            old(self).reader().remain == 0,
        ensures
            final(self).writer() == old(self).writer(),
            final(stream).eof == old(stream).eof,
            final(stream).outbox@ == old(stream).outbox@,
            reads_as(
                tls_read(old(self).reader(), old(stream).inbox@, old(stream).eof, head as nat, cap as nat),
                old(self).reader(),
                old(stream).inbox@,
                seen(r),
                final(self).reader(),
                final(stream).inbox@,
            ),
    {
        let ghost s = stream.inbox@;
        let have: usize = stream.inbox.len();
        if have < head {
            return Err(stream.lack());
        }
        let length: usize = stream.inbox[head - 2] as usize * 256 + stream.inbox[head - 1] as usize;
        if length <= cap {
            if have - head < length {
                return Err(stream.lack());
            }
            let _head = stream.take(head);
            let out = stream.take(length);
            assert(out@ =~= s.subrange(head as int, head + length));
            assert(stream.inbox@ =~= s.skip(head + length));
            assert(self.reader() == Reader { remain: 0, ..self.reader() });
            Ok(out)
        } else {
            match self.read_raw(stream, head, cap) {
                Err(e) => Err(e),
                Ok(out) => {
                    self.tls_remain = length - out.len();
                    Ok(out)
                },
            }
        }
    }

    /// Reads on inside a record.
    fn read_tls_rest(&mut self, stream: &mut Wire, cap: usize) -> (r: Result<Vec<u8>, IoError>)
        requires
            old(self).reader().kind is TlsServer || old(self).reader().kind is TlsClient,
            old(self).reader().pending.len() == 0,
            old(self).reader().remain > 0,
        ensures
            final(self).writer() == old(self).writer(),
            final(stream).eof == old(stream).eof,
            final(stream).outbox@ == old(stream).outbox@,
            reads_as(
                obfs_read(old(self).reader(), old(stream).inbox@, old(stream).eof, cap as nat),
                old(self).reader(),
                old(stream).inbox@,
                seen(r),
                final(self).reader(),
                final(stream).inbox@,
            ),
    {
        proof {
            reveal(obfs_read);
        }
        let n: usize = smaller(cap, self.tls_remain);
        match stream.read_exact(n) {
            Err(e) => Err(e),
            Ok(out) => {
                self.tls_remain = self.tls_remain - n;
                Ok(out)
            },
        }
    }

    /// Reads the next application data record.
    fn tls_read_record(&mut self, stream: &mut Wire, cap: usize) -> (r: Result<Vec<u8>, IoError>)
        requires
            old(self).reader().remain == 0,
        ensures
            final(self).writer() == old(self).writer(),
            final(stream).eof == old(stream).eof,
            final(stream).outbox@ == old(stream).outbox@,
            reads_as(
                tls_read(old(self).reader(), old(stream).inbox@, old(stream).eof, record_head_len(), cap as nat),
                old(self).reader(),
                old(stream).inbox@,
                seen(r),
                final(self).reader(),
                final(stream).inbox@,
            ),
    {
        self.read_tls_payload(stream, tls::RECORD_HEAD + 2, cap)
    }

    /// Reads the rest of the client hello, then the first record.
    fn read_behind_ticket(&mut self, stream: &mut Wire, cap: usize) -> (r: Result<Vec<u8>, IoError>)
        requires
            old(self).reader().kind is TlsServer,
            old(self).reader().pending.len() == 0,
            old(self).reader().remain == 0,
            !old(self).reader().first,
            !old(self).reader().ticket_done,
        ensures
            final(self).writer() == old(self).writer(),
            final(stream).eof == old(stream).eof,
            final(stream).outbox@ == old(stream).outbox@,
            reads_as(
                obfs_read(old(self).reader(), old(stream).inbox@, old(stream).eof, cap as nat),
                old(self).reader(),
                old(stream).inbox@,
                seen(r),
                final(self).reader(),
                final(stream).inbox@,
            ),
    {
        proof {
            reveal(obfs_read);
        }
        if stream.inbox.len() < tls::SNI_HEAD + 2 {
            if stream.eof {
                self.tls_session_ticket_done = true;
            }
            return Err(stream.lack());
        }
        let name_len: usize = stream.inbox[tls::SNI_HEAD] as usize * 256 + stream.inbox[tls::SNI_HEAD + 1] as usize;
        let r = self.read_tls_payload(stream, tls::SNI_HEAD + 2 + name_len + 66 + tls::RECORD_HEAD + 2, cap);
        if r.is_ok() || stream.eof {
            self.tls_session_ticket_done = true;
        }
        r
    }

    /// Reads as the server of a TLS disguise.
    fn tls_server_read(&mut self, stream: &mut Wire, cap: usize) -> (r: Result<Vec<u8>, IoError>)
        requires
            old(self).reader().kind is TlsServer,
            old(self).reader().pending.len() == 0,
        ensures
            final(self).writer() == old(self).writer(),
            final(stream).eof == old(stream).eof,
            final(stream).outbox@ == old(stream).outbox@,
            reads_as(
                obfs_read(old(self).reader(), old(stream).inbox@, old(stream).eof, cap as nat),
                old(self).reader(),
                old(stream).inbox@,
                seen(r),
                final(self).reader(),
                final(stream).inbox@,
            ),
    {
        proof {
            reveal(obfs_read);
        }
        if self.tls_remain > 0 {
            return self.read_tls_rest(stream, cap);
        }
        if self.first_read {
            // The payload is the session ticket of the client hello.
            let r = self.read_tls_payload(stream, tls::CLIENT_HELLO_HEAD + 2, cap);
            if r.is_ok() || stream.eof {
                self.first_read = false;
            }
            r
        } else if !self.tls_session_ticket_done {
            self.read_behind_ticket(stream, cap)
        } else {
            self.tls_read_record(stream, cap)
        }
    }

    /// Reads as the client of a TLS disguise.
    fn tls_client_read(&mut self, stream: &mut Wire, cap: usize) -> (r: Result<Vec<u8>, IoError>)
        requires
            old(self).reader().kind is TlsClient,
            old(self).reader().pending.len() == 0,
        ensures
            final(self).writer() == old(self).writer(),
            final(stream).eof == old(stream).eof,
            final(stream).outbox@ == old(stream).outbox@,
            reads_as(
                obfs_read(old(self).reader(), old(stream).inbox@, old(stream).eof, cap as nat),
                old(self).reader(),
                old(stream).inbox@,
                seen(r),
                final(self).reader(),
                final(stream).inbox@,
            ),
    {
        proof {
            reveal(obfs_read);
        }
        if self.tls_remain > 0 {
            return self.read_tls_rest(stream, cap);
        }
        if self.first_read {
            // The payload is the handshake record behind the server hello.
            let r = self.read_tls_payload(stream, tls::SERVER_HELLO_HEAD + 2, cap);
            if r.is_ok() || stream.eof {
                self.first_read = false;
            }
            r
        } else {
            self.tls_read_record(stream, cap)
        }
    }

    /// Reads a header block and the body that it announces; a block without a body is left unread.
    fn read_http_body(&mut self, stream: &mut Wire, cap: usize) -> (r: Result<HttpBody, IoError>)
        requires
            old(self).reader().pending.len() == 0,
        ensures
            final(self).writer() == old(self).writer(),
            final(stream).eof == old(stream).eof,
            final(stream).outbox@ == old(stream).outbox@,
            match r {
                Ok(HttpBody::Absent { head: e }) => {
                    &&& head_end(old(stream).inbox@) == Some(e as nat)
                    &&& e <= old(stream).inbox@.len()
                    &&& body_length(old(stream).inbox@.take(e as int)) == 0
                    &&& final(self).reader() == old(self).reader()
                    &&& final(stream).inbox@ == old(stream).inbox@
                },
                Ok(HttpBody::Present { payload: out }) => {
                    &&& head_end(old(stream).inbox@) matches Some(e)
                    &&& body_length(old(stream).inbox@.take(e as int)) > 0
                    &&& reads_as(
                        http_read(old(self).reader(), old(stream).inbox@, old(stream).eof, cap as nat),
                        old(self).reader(),
                        old(stream).inbox@,
                        Ok(out@),
                        final(self).reader(),
                        final(stream).inbox@,
                    )
                },
                Err(e) => {
                    &&& head_end(old(stream).inbox@) matches Some(e) ==> body_length(old(stream).inbox@.take(e as int)) > 0
                    &&& reads_as(
                        http_read(old(self).reader(), old(stream).inbox@, old(stream).eof, cap as nat),
                        old(self).reader(),
                        old(stream).inbox@,
                        Err(e),
                        final(self).reader(),
                        final(stream).inbox@,
                    )
                },
            },
    {
        let ghost s = stream.inbox@;
        let e: usize = match find_head_end(stream.inbox.as_slice()) {
            None => {
                if stream.eof {
                    self.first_read = false;
                }
                return Err(stream.lack());
            },
            Some(e) => e,
        };
        let head = text::text_of_bytes(vstd::slice::slice_subrange(stream.inbox.as_slice(), 0, e));
        assert(s.subrange(0, e as int) =~= s.take(e as int));
        let length: usize = match http::extract_content_length(head.as_str()) {
            Some(n) => n,
            None => 0,
        };
        assert(length == body_length(s.take(e as int)));
        if length == 0 {
            return Ok(HttpBody::Absent { head: e });
        }
        if stream.inbox.len() - e < length {
            if stream.eof {
                self.first_read = false;
            }
            return Err(stream.lack());
        }
        let _head = stream.take(e);
        let n: usize = smaller(cap, length);
        let out = stream.take(n);
        let rest = stream.take(length - n);
        assert(out@ =~= s.subrange(e as int, e + n));
        assert(rest@ =~= s.subrange(e + n, e + length));
        assert(stream.inbox@ =~= s.skip(e + length));
        self.read_buf = rest;
        self.first_read = false;
        Ok(HttpBody::Present { payload: out })
    }

    /// Reads as the server of an HTTP disguise.
    fn http_server_read(&mut self, stream: &mut Wire, cap: usize) -> (r: Result<Vec<u8>, IoError>)
        requires
            old(self).reader().kind is HttpServer,
            old(self).reader().pending.len() == 0,
        ensures
            final(self).writer() == old(self).writer(),
            final(stream).eof == old(stream).eof,
            final(stream).outbox@ == old(stream).outbox@,
            reads_as(
                obfs_read(old(self).reader(), old(stream).inbox@, old(stream).eof, cap as nat),
                old(self).reader(),
                old(stream).inbox@,
                seen(r),
                final(self).reader(),
                final(stream).inbox@,
            ),
    {
        proof {
            reveal(obfs_read);
        }
        if !self.first_read {
            return self.read_raw(stream, 0, cap);
        }
        match self.read_http_body(stream, cap) {
            Err(e) => Err(e),
            Ok(HttpBody::Present { payload }) => Ok(payload),
            Ok(HttpBody::Absent { head }) => {
                let _head = stream.take(head);
                self.first_read = false;
                Ok(Vec::new())
            },
        }
    }

    /// Reads as the client of an HTTP disguise.
    pub fn http_client_read(&mut self, stream: &mut Wire, cap: usize) -> (r: Result<Vec<u8>, IoError>)
        requires
            old(self).reader().kind is HttpClient,
            old(self).reader().pending.len() == 0,
        ensures
            final(self).writer() == old(self).writer(),
            final(stream).eof == old(stream).eof,
            final(stream).outbox@ == old(stream).outbox@,
            reads_as(
                obfs_read(old(self).reader(), old(stream).inbox@, old(stream).eof, cap as nat),
                old(self).reader(),
                old(stream).inbox@,
                seen(r),
                final(self).reader(),
                final(stream).inbox@,
            ),
    {
        proof {
            reveal(obfs_read);
        }
        if !self.first_read {
            return self.read_raw(stream, 0, cap);
        }
        match self.read_http_body(stream, cap) {
            Err(e) => Err(e),
            Ok(HttpBody::Present { payload }) => Ok(payload),
            Ok(HttpBody::Absent { head }) => {
                let r = self.read_raw(stream, head, cap);
                if r.is_ok() || stream.eof {
                    self.first_read = false;
                }
                r
            },
        }
    }

    /// Reads up to `cap` bytes of payload.
    pub fn read_up_to(&mut self, stream: &mut Wire, cap: usize) -> (r: Result<Vec<u8>, IoError>)
        ensures
            final(self).writer() == old(self).writer(),
            final(stream).eof == old(stream).eof,
            final(stream).outbox@ == old(stream).outbox@,
            reads_as(
                obfs_read(old(self).reader(), old(stream).inbox@, old(stream).eof, cap as nat),
                old(self).reader(),
                old(stream).inbox@,
                seen(r),
                final(self).reader(),
                final(stream).inbox@,
            ),
    {
        proof {
            reveal(obfs_read);
        }
        if self.read_buf.len() > 0 {
            let ghost pending = self.read_buf@;
            let n: usize = smaller(cap, self.read_buf.len());
            let mut rest = self.read_buf.split_off(n);
            std::mem::swap(&mut rest, &mut self.read_buf);
            assert(rest@ =~= pending.take(n as int));
            assert(self.read_buf@ =~= pending.skip(n as int));
            assert(stream.inbox@.skip(0) =~= stream.inbox@);
            return Ok(rest);
        }
        match self.mode {
            ObfsMode::Plain => self.read_raw(stream, 0, cap),
            ObfsMode::TlsServer => self.tls_server_read(stream, cap),
            ObfsMode::TlsClient { .. } => self.tls_client_read(stream, cap),
            ObfsMode::HttpServer => self.http_server_read(stream, cap),
            ObfsMode::HttpClient { .. } => self.http_client_read(stream, cap),
        }
    }

    /// Reads payload into the front of `buf`, and returns how many bytes it put there.
    pub fn read(&mut self, stream: &mut Wire, buf: &mut [u8]) -> (r: Result<usize, IoError>)
        ensures
            final(self).writer() == old(self).writer(),
            final(stream).eof == old(stream).eof,
            final(stream).outbox@ == old(stream).outbox@,
            final(buf)@.len() == old(buf)@.len(),
            match r {
                Ok(n) => n <= old(buf)@.len() && final(buf)@.skip(n as int) == old(buf)@.skip(n as int),
                Err(_) => final(buf)@ == old(buf)@,
            },
            reads_as(
                obfs_read(old(self).reader(), old(stream).inbox@, old(stream).eof, old(buf)@.len()),
                old(self).reader(),
                old(stream).inbox@,
                match r {
                    Ok(n) => Ok(final(buf)@.take(n as int)),
                    Err(e) => Err(e),
                },
                final(self).reader(),
                final(stream).inbox@,
            ),
    {
        let ghost s = stream.inbox@;
        let ghost before = self.reader();
        proof {
            lemma_read_bounds(before, s, stream.eof, buf@.len());
        }
        match self.read_up_to(stream, buf.len()) {
            Err(e) => Err(e),
            Ok(out) => {
                let n: usize = out.len();
                copy_to_front(buf, out.as_slice());
                assert(buf@.take(n as int) =~= out@);
                assert(buf@.skip(n as int) =~= old(buf)@.skip(n as int));
                Ok(n)
            },
        }
    }
}

impl ObfsState {
    /// Writes `data` as application data records.
    fn tls_write_app_data(&self, stream: &mut Wire, data: &[u8])
        ensures
            final(stream).inbox@ == old(stream).inbox@,
            final(stream).eof == old(stream).eof,
            final(stream).outbox@ == old(stream).outbox@ + tls::app_data(data@),
    {
        tls::push_app_data(&mut stream.outbox, data);
    }

    /// Writes as the server of a TLS disguise.
    fn tls_server_write(&mut self, stream: &mut Wire, data: &[u8])
        requires
            old(self).writer().kind is TlsServer,
        ensures
            wrote(*old(self), *old(stream), data@, *final(self), *final(stream)),
    {
        if self.first_write {
            self.first_write = false;
            let hello = tls::make_server_hello(data);
            stream.write_all(hello.as_slice());
            assert(appended(*old(stream), *stream) =~= hello@);
        } else {
            self.tls_write_app_data(stream, data);
            assert(appended(*old(stream), *stream) =~= tls::app_data(data@));
        }
    }

    /// Writes as the client of a TLS disguise.
    fn tls_client_write(&mut self, stream: &mut Wire, data: &[u8], server: &str)
        requires
            old(self).writer().kind is TlsClient,
            server@ == old(self).writer().host,
        ensures
            wrote(*old(self), *old(stream), data@, *final(self), *final(stream)),
    {
        if self.first_write {
            self.first_write = false;
            let hello = tls::make_client_hello(data, server);
            stream.write_all(hello.as_slice());
            assert(appended(*old(stream), *stream) =~= hello@);
        } else {
            self.tls_write_app_data(stream, data);
            assert(appended(*old(stream), *stream) =~= tls::app_data(data@));
        }
    }

    /// Writes as the server of an HTTP disguise.
    fn http_server_write(&mut self, stream: &mut Wire, data: &[u8])
        requires
            old(self).writer().kind is HttpServer,
        ensures
            wrote(*old(self), *old(stream), data@, *final(self), *final(stream)),
    {
        if self.first_write {
            self.first_write = false;
            let token = random_bytes(16);
            let accept = http::base64_url_encode(token.as_slice());
            let date = http::chrono_now_rfc1123();
            let major: usize = random_below(11);
            let minor: usize = random_below(12);
            let response = http::upgrade_response(major, minor, date.as_str(), accept.as_str());
            stream.write_all(response.as_str().as_bytes());
            stream.write_all(data);
            let ghost out = appended(*old(stream), *stream);
            assert(out =~= vstd::utf8::encode_utf8(response@) + data@);
            assert(stream.outbox@ =~= old(stream).outbox@ + out);
            assert(is_http_response(out, data@)) by {
                let seconds = choose|seconds: u64| date@ == #[trigger] http::rfc1123(seconds as int);
                let lines = http::response_lines(
                    major as nat,
                    minor as nat,
                    http::rfc1123(seconds as int),
                    http::base64_url(token@),
                );
                assert(out == vstd::utf8::encode_utf8(http::joined(lines)) + data@);
            }
        } else {
            stream.write_all(data);
            assert(appended(*old(stream), *stream) =~= data@);
        }
    }

    /// Writes as the client of an HTTP disguise.
    fn http_client_write(&mut self, stream: &mut Wire, data: &[u8], host: &str, port: &str)
        requires
            old(self).writer().kind is HttpClient,
            host@ == old(self).writer().host,
            port@ == old(self).writer().port,
        ensures
            wrote(*old(self), *old(stream), data@, *final(self), *final(stream)),
    {
        if self.first_write {
            self.first_write = false;
            let token = random_bytes(16);
            let key = http::base64_url_encode(token.as_slice());
            let minor: usize = random_below(54);
            let patch: usize = random_below(2);
            let request = http::upgrade_request(host, port, minor, patch, key.as_str(), data.len());
            stream.write_all(request.as_str().as_bytes());
            stream.write_all(data);
            let ghost out = appended(*old(stream), *stream);
            assert(out =~= vstd::utf8::encode_utf8(request@) + data@);
            assert(stream.outbox@ =~= old(stream).outbox@ + out);
            assert(is_http_request(out, data@, host@, port@)) by {
                let lines = http::request_lines(
                    host@,
                    port@,
                    minor as nat,
                    patch as nat,
                    http::base64_url(token@),
                    data@.len(),
                );
                assert(out == vstd::utf8::encode_utf8(http::joined(lines)) + data@);
            }
        } else {
            stream.write_all(data);
            assert(appended(*old(stream), *stream) =~= data@);
        }
    }

    /// Writes `data` under the disguise, and returns its length.
    pub fn write(&mut self, stream: &mut Wire, data: &[u8]) -> (r: Result<usize, IoError>)
        ensures
            r matches Ok(n) && n == data@.len(),
            wrote(*old(self), *old(stream), data@, *final(self), *final(stream)),
    {
        match &self.mode {
            ObfsMode::Plain => {
                stream.write_all(data);
                assert(appended(*old(stream), *stream) =~= data@);
            },
            ObfsMode::TlsServer => {
                self.tls_server_write(stream, data);
            },
            ObfsMode::TlsClient { host } => {
                let host = host.clone();
                self.tls_client_write(stream, data, host.as_str());
            },
            ObfsMode::HttpServer => {
                self.http_server_write(stream, data);
            },
            ObfsMode::HttpClient { host, port } => {
                let host = host.clone();
                let port = port.clone();
                self.http_client_write(stream, data, host.as_str(), port.as_str());
            },
        }
        Ok(data.len())
    }
}

/// Puts `data` at the front of `buf`.
pub(crate) fn copy_to_front(buf: &mut [u8], data: &[u8])
    requires
        data@.len() <= old(buf)@.len(),
    ensures
        final(buf)@ == data@ + old(buf)@.skip(data@.len() as int),
{
    let n: usize = data.len();
    let mut i: usize = 0;
    while i < n
        invariant
            i <= n,
            n == data@.len(),
            n <= buf@.len(),
            buf@.len() == old(buf)@.len(),
            forall|k: int| 0 <= k < i ==> buf@[k] == data@[k],
            forall|k: int| i <= k < buf@.len() ==> buf@[k] == old(buf)@[k],
        decreases n - i,
    {
        buf[i] = data[i];
        i = i + 1;
    }
    assert(buf@ =~= data@ + old(buf)@.skip(n as int));
}

/// A read hands out no more than was asked for, and takes no more than has arrived. Bytes are lost
/// only at the end of a stream.
pub proof fn lemma_read_bounds(r: Reader, s: Seq<u8>, eof: bool, cap: nat)
    ensures
        obfs_read(r, s, eof, cap) is Starved ==> !eof,
        obfs_read(r, s, eof, cap) is Cut ==> eof,
        obfs_read(r, s, eof, cap) matches Outcome::Data { consumed, out, next } ==> out.len() <= cap && consumed <= s.len()
            && next.kind == r.kind,
{
    reveal(obfs_read);
    lemma_head_end_bounds(s);
}

pub proof fn lemma_head_end_bounds(s: Seq<u8>)
    ensures
        head_end(s) matches Some(e) ==> 4 <= e <= s.len(),
    decreases s.len(),
{
    if s.len() >= 4 {
        lemma_head_end_bounds(s.drop_first());
    }
}

}
