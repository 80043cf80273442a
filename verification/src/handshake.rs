//! How a session is asked for and answered: the request header, the handshake in which the server
//! reads it, and the responses.
//!
//! A handshake that lacks bytes stops with `IoError::WouldBlock` and keeps its progress; it goes
//! on from there once more bytes have arrived.
use crate::aead;
use crate::aead::Suite;
use crate::arrival;
use crate::records;
use crate::snell;
use crate::snell::{Decoder, Encoder, SnellConn, Stop, Taken, CMD_CONNECT, CMD_CONNECT_V2, CMD_UDP, RESP_ERROR, SNELL_VERSION};
use crate::text;
use crate::tls;
use crate::wire::IoError;
use vstd::prelude::*;
use vstd::string::StringExecFns;

verus! {

/// A buffer of `n` zeros with `got` read into its front.
pub open spec fn buffer(got: Seq<u8>, n: nat) -> Seq<u8> {
    got + Seq::new((n - got.len()) as nat, |i: int| 0u8)
}

/// A buffer of `n` zeros with `got` at its front.
fn into_buffer(got: Vec<u8>, n: usize) -> (buf: Vec<u8>)
    requires
        got@.len() <= n,
    ensures
        buf@ == buffer(got@, n as nat),
        buf@.len() == n,
{
    let missing = snell::zero_bytes(n - got.len());
    let mut buf = got;
    tls::push_bytes(&mut buf, missing.as_slice());
    buf
}

/// The text of a target: host, colon and port.
pub open spec fn target_text(host: Seq<char>, port: nat) -> Seq<char> {
    host + ":"@ + text::decimal(port)
}

/// The text of a target.
pub fn target_string(host: &str, port: u16) -> (r: String)
    ensures
        r@ == target_text(host@, port as nat),
{
    let mut r = String::from_str(host);
    r.append(":");
    r.append(text::decimal_string(port as u64).as_str());
    r
}

// ---- The request ----

/// The host and the port that a target names: what stands before and behind its last colon. A
/// target without a colon is a host with port 0, and so is a port that is no 16 bit number.
pub open spec fn target_parts(target: Seq<char>) -> (Seq<char>, nat) {
    let (host, port) = match text::rsplit_once(target, ':') {
        Some(parts) => parts,
        None => (target, "0"@),
    };
    (
        host,
        match text::parse_decimal(port, 0xffff) {
            Some(n) => n,
            None => 0,
        },
    )
}

/// The command that asks for a tunnel.
pub open spec fn connect_command(is_v2: bool) -> u8 {
    if is_v2 {
        CMD_CONNECT_V2
    } else {
        CMD_CONNECT
    }
}

/// A request for a tunnel to a target: version, command, an empty client id, and the host and port.
/// The length of the host is cut to one byte.
pub open spec fn request(target: Seq<char>, is_v2: bool) -> Seq<u8> {
    let (host, port) = target_parts(target);
    let bytes = vstd::utf8::encode_utf8(host);
    seq![SNELL_VERSION, connect_command(is_v2), 0u8, (bytes.len() % 256) as u8] + bytes + tls::be16(port as int)
}

fn split_target(target: &str) -> (r: (String, u16))
    ensures
        r.0@ == target_parts(target@).0,
        r.1 == target_parts(target@).1,
{
    let chars = text::chars_of(target);
    let n: usize = chars.len();
    match text::find_last(chars.as_slice(), ':') {
        None => {
            proof {
                reveal_strlit("0");
                assert("0"@ =~= seq!['0']);
                assert("0"@.drop_last() =~= seq![]);
                assert(text::digits_value("0"@.drop_last()) == 0);
                assert(text::digits_value("0"@) == 0);
            }
            (text::string_of(chars.as_slice()), 0)
        },
        Some(i) => {
            let host = vstd::slice::slice_subrange(chars.as_slice(), 0, i);
            let port = vstd::slice::slice_subrange(chars.as_slice(), i + 1, n);
            assert(host@ =~= target@.take(i as int));
            assert(port@ =~= target@.skip(i + 1));
            let port: u16 = match text::parse_number(port, 0xffff) {
                Some(p) => p as u16,
                None => 0,
            };
            (text::string_of(host), port)
        },
    }
}

/// Asks for a tunnel to a target.
pub fn write_header(conn: &mut SnellConn, target: &str, is_v2: bool) -> (r: Result<(), IoError>)
    requires
        old(conn).wf(),
    ensures
        r is Ok,
        snell::wrote(*old(conn), request(target@, is_v2), *final(conn)),
{
    let (host, port) = split_target(target);
    let bytes: &[u8] = host.as_str().as_bytes();
    let mut buf: Vec<u8> = Vec::new();
    buf.push(SNELL_VERSION);
    buf.push(if is_v2 { CMD_CONNECT_V2 } else { CMD_CONNECT });
    buf.push(0);
    buf.push((bytes.len() % 256) as u8);
    tls::push_bytes(&mut buf, bytes);
    tls::push_be16(&mut buf, port as usize);
    assert(buf@ =~= request(target@, is_v2));
    let _written = conn.snell_write(buf.as_slice());
    Ok(())
}

// ---- The handshake ----

/// What the server reads next.
#[derive(Clone, Copy, PartialEq, Eq, Structural, Debug)]
pub enum Handshake {
    /// The version, the command and the length of the client id.
    Head,
    /// The client id.
    ClientId { command: u8, len: u8 },
    /// The length of the host.
    HostLen { command: u8 },
    /// The host and the port.
    Host { command: u8, len: u8 },
}

/// What a part of a request leads to.
pub enum Progress {
    /// The next part is read.
    More(Handshake),
    /// The request is complete.
    Done { target: Seq<char>, command: u8 },
    /// The version is not known.
    BadVersion(u8),
}

/// Number of bytes that the server asks for next.
pub open spec fn wanted(h: Handshake) -> nat {
    match h {
        Handshake::Head => 3,
        Handshake::ClientId { len, .. } => len as nat,
        Handshake::HostLen { .. } => 1,
        Handshake::Host { len, .. } => len as nat + 2,
    }
}

/// What follows the client id: nothing for a UDP session, the target for the others.
pub open spec fn behind_client_id(command: u8) -> Progress {
    if command == CMD_UDP {
        Progress::Done { target: seq![], command }
    } else {
        Progress::More(Handshake::HostLen { command })
    }
}

/// What a part of a request leads to. The bytes of the part stand at the front of a buffer of
/// zeros, so that what a short read leaves out reads as zero.
pub open spec fn advance(h: Handshake, buf: Seq<u8>) -> Progress {
    match h {
        Handshake::Head => if buf[0] != SNELL_VERSION {
            Progress::BadVersion(buf[0])
        } else if buf[2] > 0 {
            Progress::More(Handshake::ClientId { command: buf[1], len: buf[2] })
        } else {
            behind_client_id(buf[1])
        },
        Handshake::ClientId { command, .. } => behind_client_id(command),
        Handshake::HostLen { command } => Progress::More(Handshake::Host { command, len: buf[0] }),
        Handshake::Host { command, len } => Progress::Done {
            target: target_text(
                text::lossy_text(buf.take(len as int)),
                tls::from_be16(buf[len as int], buf[len + 1]),
            ),
            command,
        },
    }
}

/// What keeps a handshake from an end.
pub enum HandshakeStop {
    /// A read stopped.
    Read(Stop),
    /// The version is not known.
    Version(u8),
}

/// What a handshake comes to: its progress, the reading half and the unread bytes behind it, and
/// the target and the command.
pub struct Shaken {
    pub progress: Handshake,
    pub next: Decoder,
    pub rest: Seq<u8>,
    pub result: Result<(Seq<char>, u8), HandshakeStop>,
}

/// Number of parts that may follow the next one.
pub open spec fn parts_behind(h: Handshake) -> nat {
    match h {
        Handshake::Head => 3,
        Handshake::ClientId { .. } => 2,
        Handshake::HostLen { .. } => 1,
        Handshake::Host { .. } => 0,
    }
}

/// The handshake, from some progress on. Only a handshake that lacks bytes which may still come keeps
/// its progress.
pub open spec fn handshake(h: Handshake, d: Decoder, s: Seq<u8>, eof: bool) -> Shaken
    decreases parts_behind(h),
{
    let t = snell::snell_read(d, s, eof, wanted(h));
    match t.result {
        Err(stop) => Shaken {
            progress: if stop is Lacking {
                h
            } else {
                Handshake::Head
            },
            next: t.next,
            rest: t.rest,
            result: Err(HandshakeStop::Read(stop)),
        },
        Ok(got) => match advance(h, buffer(got, wanted(h))) {
            Progress::More(next) => handshake(next, t.next, t.rest, eof),
            Progress::Done { target, command } => Shaken {
                progress: Handshake::Head,
                next: t.next,
                rest: t.rest,
                result: Ok((target, command)),
            },
            Progress::BadVersion(v) => Shaken {
                progress: Handshake::Head,
                next: t.next,
                rest: t.rest,
                result: Err(HandshakeStop::Version(v)),
            },
        },
    }
}

/// Whether an error tells what kept a handshake from an end.
pub open spec fn tells(e: IoError, stop: HandshakeStop) -> bool {
    match stop {
        HandshakeStop::Read(stop) => snell::tells(e, stop),
        HandshakeStop::Version(v) => e matches IoError::InvalidVersion(w) && w == v,
    }
}

/// What a handshake promises: the result, its progress, and the connection behind it.
pub open spec fn handshake_read(
    before: SnellConn,
    h: Shaken,
    r: Result<(String, u8), IoError>,
    progress: Handshake,
    after: SnellConn,
) -> bool {
    &&& snell::moves(before, h.next, h.rest, after)
    &&& progress == h.progress
    &&& match h.result {
        Ok((target, command)) => r matches Ok(v) && v.0@ == target && v.1 == command,
        Err(stop) => r matches Err(e) && tells(e, stop),
    }
}

fn behind_id(command: u8, progress: &mut Handshake) -> (r: Option<(String, u8)>)
    ensures
        match behind_client_id(command) {
            Progress::More(next) => r is None && *final(progress) == next,
            Progress::Done { target, command } => r matches Some(v) && v.0@ == target && v.1 == command && *final(progress)
                == Handshake::Head,
            Progress::BadVersion(_) => false,
        },
{
    if command == CMD_UDP {
        *progress = Handshake::Head;
        let none = String::new();
        assert(none@ =~= seq![]);
        Some((none, command))
    } else {
        *progress = Handshake::HostLen { command };
        None
    }
}

fn wanted_bytes(h: Handshake) -> (n: usize)
    ensures
        n == wanted(h),
{
    match h {
        Handshake::Head => 3,
        Handshake::ClientId { len, .. } => len as usize,
        Handshake::HostLen { .. } => 1,
        Handshake::Host { len, .. } => len as usize + 2,
    }
}

/// Takes in a part of a request, and gives the target and the command once it is complete.
pub fn take_part(progress: &mut Handshake, buf: &[u8]) -> (r: Result<Option<(String, u8)>, IoError>)
    requires
        buf@.len() == wanted(*old(progress)),
    ensures
        match advance(*old(progress), buf@) {
            Progress::More(next) => r matches Ok(v) && v is None && *final(progress) == next,
            Progress::Done { target, command } => r matches Ok(Some(v)) && v.0@ == target && v.1 == command && *final(progress)
                == Handshake::Head,
            Progress::BadVersion(v) => r matches Err(IoError::InvalidVersion(w)) && w == v && *final(progress)
                == Handshake::Head,
        },
{
    match *progress {
        Handshake::Head => {
            if buf[0] != SNELL_VERSION {
                return Err(IoError::InvalidVersion(buf[0]));
            }
            if buf[2] > 0 {
                *progress = Handshake::ClientId { command: buf[1], len: buf[2] };
                Ok(None)
            } else {
                Ok(behind_id(buf[1], progress))
            }
        },
        Handshake::ClientId { command, .. } => Ok(behind_id(command, progress)),
        Handshake::HostLen { command } => {
            *progress = Handshake::Host { command, len: buf[0] };
            Ok(None)
        },
        Handshake::Host { command, len } => {
            let n: usize = len as usize;
            let host = text::text_of_bytes(vstd::slice::slice_subrange(buf, 0, n));
            assert(buf@.subrange(0, n as int) =~= buf@.take(n as int));
            let port: u16 = buf[n] as u16 * 256 + buf[n + 1] as u16;
            *progress = Handshake::Head;
            Ok(Some((target_string(host.as_str(), port), command)))
        },
    }
}

/// Reads a request: the target and the command. A UDP session names no target.
pub fn server_handshake(conn: &mut SnellConn, progress: &mut Handshake) -> (r: Result<(String, u8), IoError>)
    requires
        old(conn).wf(),
    ensures
        handshake_read(
            *old(conn),
            handshake(*old(progress), old(conn).decoder(), old(conn).wire().inbox@, old(conn).wire().eof),
            r,
            *final(progress),
            *final(conn),
        ),
{
    let ghost whole = handshake(*progress, conn.decoder(), conn.wire().inbox@, conn.wire().eof);
    loop
        invariant
            conn.wf(),
            conn.encoder() == old(conn).encoder(),
            conn.wire().eof == old(conn).wire().eof,
            conn.wire().outbox@ == old(conn).wire().outbox@,
            whole == handshake(*old(progress), old(conn).decoder(), old(conn).wire().inbox@, old(conn).wire().eof),
            whole == handshake(*progress, conn.decoder(), conn.wire().inbox@, conn.wire().eof),
        decreases parts_behind(*progress),
    {
        let n: usize = wanted_bytes(*progress);
        proof {
            snell::lemma_read_length(conn.decoder(), conn.wire().inbox@, conn.wire().eof, n as nat);
        }
        match conn.read_up_to(n) {
            Err(IoError::WouldBlock) => {
                return Err(IoError::WouldBlock);
            },
            Err(e) => {
                *progress = Handshake::Head;
                return Err(e);
            },
            Ok(got) => {
                let buf = into_buffer(got, n);
                match take_part(progress, buf.as_slice()) {
                    Err(e) => {
                        return Err(e);
                    },
                    Ok(Some(done)) => {
                        return Ok(done);
                    },
                    Ok(None) => {},
                }
            },
        }
    }
}

// ---- The response ----

/// Most bytes of a message that an error response holds.
pub const MAX_MESSAGE: usize = 250;

/// The bytes of a message that an error response holds.
pub open spec fn cut_message(message: Seq<char>) -> Seq<u8> {
    let bytes = vstd::utf8::encode_utf8(message);
    if bytes.len() > MAX_MESSAGE {
        bytes.take(MAX_MESSAGE as int)
    } else {
        bytes
    }
}

/// An error response: the response code, an error code of 0, and the message.
pub open spec fn error_response(message: Seq<char>) -> Seq<u8> {
    seq![RESP_ERROR, 0u8, cut_message(message).len() as u8] + cut_message(message)
}

/// Answers a request with an error.
pub fn write_error(conn: &mut SnellConn, message: &str) -> (r: Result<(), IoError>)
    requires
        old(conn).wf(),
    ensures
        r is Ok,
        snell::wrote(*old(conn), error_response(message@), *final(conn)),
{
    let bytes: &[u8] = message.as_bytes();
    let cut: &[u8] = if bytes.len() > MAX_MESSAGE {
        vstd::slice::slice_subrange(bytes, 0, MAX_MESSAGE)
    } else {
        bytes
    };
    assert(cut@ =~= cut_message(message@));
    let mut buf: Vec<u8> = Vec::new();
    buf.push(RESP_ERROR);
    buf.push(0);
    buf.push(cut.len() as u8);
    tls::push_bytes(&mut buf, cut);
    assert(buf@ =~= error_response(message@));
    let _written = conn.snell_write(buf.as_slice());
    Ok(())
}

/// What the client reads next of an error response.
#[derive(Clone, Copy, PartialEq, Eq, Structural, Debug)]
pub enum ErrorPart {
    /// The error code, which is not used.
    Code,
    /// The length of the message.
    Length,
    /// The message.
    Message { len: u8 },
}

/// What reading an error response comes to.
pub struct ErrorRead {
    pub progress: ErrorPart,
    pub next: Decoder,
    pub rest: Seq<u8>,
    pub result: Result<Seq<char>, Stop>,
}

/// Number of parts that may follow the next one.
pub open spec fn error_parts_behind(p: ErrorPart) -> nat {
    match p {
        ErrorPart::Code => 2,
        ErrorPart::Length => 1,
        ErrorPart::Message { .. } => 0,
    }
}

/// Number of bytes that the client asks for next.
pub open spec fn error_wanted(p: ErrorPart) -> nat {
    match p {
        ErrorPart::Code => 1,
        ErrorPart::Length => 1,
        ErrorPart::Message { len } => len as nat,
    }
}

/// Reading an error response behind its response code, from some progress on.
pub open spec fn error_read(p: ErrorPart, d: Decoder, s: Seq<u8>, eof: bool) -> ErrorRead
    decreases error_parts_behind(p),
{
    let t = snell::snell_read(d, s, eof, error_wanted(p));
    match t.result {
        Err(stop) => ErrorRead {
            progress: if stop is Lacking {
                p
            } else {
                ErrorPart::Code
            },
            next: t.next,
            rest: t.rest,
            result: Err(stop),
        },
        Ok(got) => {
            let buf = buffer(got, error_wanted(p));
            match p {
                ErrorPart::Code => error_read(ErrorPart::Length, t.next, t.rest, eof),
                ErrorPart::Length => if buf[0] == 0 {
                    ErrorRead { progress: ErrorPart::Code, next: t.next, rest: t.rest, result: Ok(seq![]) }
                } else {
                    error_read(ErrorPart::Message { len: buf[0] }, t.next, t.rest, eof)
                },
                ErrorPart::Message { .. } => ErrorRead {
                    progress: ErrorPart::Code,
                    next: t.next,
                    rest: t.rest,
                    result: Ok(text::lossy_text(buf)),
                },
            }
        },
    }
}

/// What reading a response code comes to.
pub open spec fn response_read(before: SnellConn, t: Taken, r: Result<u8, IoError>, after: SnellConn) -> bool {
    &&& snell::moves(before, t.next, t.rest, after)
    &&& match t.result {
        Ok(got) => r matches Ok(code) && code == buffer(got, 1)[0],
        Err(stop) => r matches Err(e) && snell::tells(e, stop),
    }
}

/// What reading the rest of an error response comes to.
pub open spec fn error_response_read(
    before: SnellConn,
    e: ErrorRead,
    r: Result<String, IoError>,
    progress: ErrorPart,
    after: SnellConn,
) -> bool {
    &&& snell::moves(before, e.next, e.rest, after)
    &&& progress == e.progress
    &&& match e.result {
        Ok(message) => r matches Ok(m) && m@ == message,
        Err(stop) => r matches Err(e) && snell::tells(e, stop),
    }
}

impl SnellConn {
    /// Reads the response code.
    pub fn read_response(&mut self) -> (r: Result<u8, IoError>)
        requires
            old(self).wf(),
        ensures
            response_read(
                *old(self),
                snell::snell_read(old(self).decoder(), old(self).wire().inbox@, old(self).wire().eof, 1),
                r,
                *final(self),
            ),
    {
        proof {
            snell::lemma_read_length(self.decoder(), self.wire().inbox@, self.wire().eof, 1);
        }
        match self.read_up_to(1) {
            Err(e) => Err(e),
            Ok(got) => {
                let buf = into_buffer(got, 1);
                Ok(buf[0])
            },
        }
    }

    /// Reads the message of an error response, behind its response code.
    pub fn read_error_response(&mut self, progress: &mut ErrorPart) -> (r: Result<String, IoError>)
        requires
            old(self).wf(),
        ensures
            error_response_read(
                *old(self),
                error_read(*old(progress), old(self).decoder(), old(self).wire().inbox@, old(self).wire().eof),
                r,
                *final(progress),
                *final(self),
            ),
    {
        let ghost whole = error_read(*progress, self.decoder(), self.wire().inbox@, self.wire().eof);
        loop
            invariant
                self.wf(),
                self.encoder() == old(self).encoder(),
                self.wire().eof == old(self).wire().eof,
                self.wire().outbox@ == old(self).wire().outbox@,
                whole == error_read(*old(progress), old(self).decoder(), old(self).wire().inbox@, old(self).wire().eof),
                whole == error_read(*progress, self.decoder(), self.wire().inbox@, self.wire().eof),
            decreases error_parts_behind(*progress),
        {
            let n: usize = match *progress {
                ErrorPart::Code => 1,
                ErrorPart::Length => 1,
                ErrorPart::Message { len } => len as usize,
            };
            proof {
                snell::lemma_read_length(self.decoder(), self.wire().inbox@, self.wire().eof, n as nat);
            }
            let got = match self.read_up_to(n) {
                Err(IoError::WouldBlock) => {
                    return Err(IoError::WouldBlock);
                },
                Err(e) => {
                    *progress = ErrorPart::Code;
                    return Err(e);
                },
                Ok(got) => got,
            };
            let buf = into_buffer(got, n);
            match *progress {
                ErrorPart::Code => {
                    *progress = ErrorPart::Length;
                },
                ErrorPart::Length => {
                    if buf[0] == 0 {
                        *progress = ErrorPart::Code;
                        let none = String::new();
                        assert(none@ =~= seq![]);
                        return Ok(none);
                    }
                    *progress = ErrorPart::Message { len: buf[0] };
                },
                ErrorPart::Message { .. } => {
                    *progress = ErrorPart::Code;
                    return Ok(text::text_of_bytes(buf.as_slice()));
                },
            }
        }
    }
}

// ---- Requests and responses arrive ----

/// A target with a port behind its last colon splits into the host and the port.
pub proof fn lemma_target_parts(host: Seq<char>, port: nat)
    requires
        port <= 0xffff,
    ensures
        target_parts(target_text(host, port)) == (host, port),
{
    reveal_strlit(":");
    let target = target_text(host, port);
    let digits = text::decimal(port);
    text::lemma_decimal_is_digits(port);
    let k = host.len() as int;
    assert forall|i: int| k < i < target.len() implies target[i] != ':' by {
        assert(text::is_digit(digits[i - k - 1]));
        assert(target[i] == digits[i - k - 1]);
    }
    text::lemma_last_index_is(target, ':', k);
    assert(target.take(k) =~= host);
    assert(target.skip(k + 1) =~= digits);
    text::lemma_decimal_round_trip(port, 0xffff);
}

/// The server reads the target and the command that the client asked for. The length of the host
/// is held in one byte.
pub proof fn lemma_request_understood(host: Seq<char>, port: nat, is_v2: bool, d: Decoder, more: Seq<u8>, s: Seq<u8>, eof: bool)
    requires
        port <= 0xffff,
        vstd::utf8::encode_utf8(host).len() <= 255,
        d.leftover == request(target_text(host, port), is_v2) + more,
    ensures
        handshake(Handshake::Head, d, s, eof) == (Shaken {
            progress: Handshake::Head,
            next: Decoder { leftover: more, ..d },
            rest: s,
            result: Ok((target_text(host, port), connect_command(is_v2))),
        }),
{
    lemma_target_parts(host, port);
    let bytes = vstd::utf8::encode_utf8(host);
    let command = connect_command(is_v2);
    let len = bytes.len() as u8;
    let all = d.leftover;
    tls::lemma_be16_round_trip(port as int);
    let d1 = Decoder { leftover: all.skip(3), ..d };
    let d2 = Decoder { leftover: all.skip(4), ..d };
    let d3 = Decoder { leftover: more, ..d };
    assert(buffer(all.take(3), 3) =~= seq![SNELL_VERSION, command, 0u8]);
    let h1 = Handshake::HostLen { command };
    let h2 = Handshake::Host { command, len };
    snell::lemma_read_leftover(d, s, eof, 3);
    assert(handshake(Handshake::Head, d, s, eof) == handshake(h1, d1, s, eof));
    assert(all.skip(3).take(1) =~= seq![len]);
    assert(buffer(seq![len], 1) =~= seq![len]);
    assert(all.skip(3).skip(1) =~= all.skip(4));
    snell::lemma_read_leftover(d1, s, eof, 1);
    assert(handshake(h1, d1, s, eof) == handshake(h2, d2, s, eof));
    let tail = bytes + tls::be16(port as int);
    let n = tail.len() as int;
    assert(all.skip(4).take(n) =~= tail);
    assert(all.skip(4).skip(n) =~= more);
    assert(buffer(tail, n as nat) =~= tail);
    assert(tail.take(len as int) =~= bytes);
    vstd::utf8::encode_utf8_valid_utf8(host);
    vstd::utf8::encode_utf8_decode_utf8(host);
    snell::lemma_read_leftover(d2, s, eof, n as nat);
    assert(advance(h2, tail) == Progress::Done { target: target_text(host, port), command });
}

/// A request that arrives as a record is understood.
proof fn lemma_request_read(host: Seq<char>, port: nat, is_v2: bool, d: Decoder, s: Seq<u8>, eof: bool, last: Decoder, left: Seq<u8>)
    requires
        port <= 0xffff,
        vstd::utf8::encode_utf8(host).len() <= 255,
        d.leftover.len() == 0,
        last.leftover.len() == 0,
        records::reads_back(
            d,
            s,
            eof,
            aead::PAYLOAD_SIZE_MASK as nat,
            seq![request(target_text(host, port), is_v2)],
            last,
            left,
        ),
    ensures
        handshake(Handshake::Head, d, s, eof) == (Shaken {
            progress: Handshake::Head,
            next: last,
            rest: left,
            result: Ok((target_text(host, port), connect_command(is_v2))),
        }),
{
    let payload = request(target_text(host, port), is_v2);
    let cap = aead::PAYLOAD_SIZE_MASK as nat;
    lemma_whole_record(d, s, eof, cap, payload, last, left);
    let full = Decoder { leftover: payload, ..last };
    records::lemma_part_of_record(d, s, eof, cap, 3, payload);
    assert(handshake(Handshake::Head, d, s, eof) == handshake(Handshake::Head, full, left, eof));
    assert(payload + Seq::<u8>::empty() =~= payload);
    lemma_request_understood(host, port, is_v2, full, seq![], left, eof);
    assert(Decoder { leftover: seq![], ..full } =~= last);
}

/// A request that the client writes reaches a server that reads in the client's suite: the
/// handshake gives the target and the command, and leaves the two ends in step.
pub proof fn lemma_request_arrives(
    host: Seq<char>,
    port: nat,
    is_v2: bool,
    e: Encoder,
    suite: Suite,
    psk: Seq<u8>,
    salt: Seq<u8>,
    out: Seq<u8>,
    after: Encoder,
    d: Decoder,
    s: Seq<u8>,
    eof: bool,
)
    requires
        port <= 0xffff,
        vstd::utf8::encode_utf8(host).len() <= 255,
        snell::sends(e, suite, psk, salt, snell::chunks(request(target_text(host, port), is_v2)), out, after),
        records::gets_through(e, salt),
        records::in_step(e, d, s),
        d.suite == suite,
        d.psk == psk,
    ensures
        handshake(Handshake::Head, d, s + out, eof).result == Ok::<(Seq<char>, u8), HandshakeStop>(
            (target_text(host, port), connect_command(is_v2)),
        ),
        records::in_step(
            after,
            handshake(Handshake::Head, d, s + out, eof).next,
            handshake(Handshake::Head, d, s + out, eof).rest,
        ),
        records::same_ends(d, handshake(Handshake::Head, d, s + out, eof).next),
        handshake(Handshake::Head, d, s + out, eof).next.switched == d.switched,
{
    let payload = request(target_text(host, port), is_v2);
    lemma_target_parts(host, port);
    assert(snell::chunks(payload) =~= seq![payload]);
    records::lemma_chunks(payload);
    let r = records::lemma_round_trip(
        e,
        suite,
        psk,
        salt,
        seq![payload],
        out,
        after,
        d,
        s,
        eof,
        aead::PAYLOAD_SIZE_MASK as nat,
    );
    lemma_request_read(host, port, is_v2, d, s + out, eof, r.0, r.1);
}

/// A request in the fallback suite, which the server's own suite does not open, reaches the server
/// too, and from then on the server writes in the fallback suite.
pub proof fn lemma_fallback_request_arrives(
    host: Seq<char>,
    port: nat,
    is_v2: bool,
    e: Encoder,
    suite: Suite,
    psk: Seq<u8>,
    salt: Seq<u8>,
    out: Seq<u8>,
    after: Encoder,
    d: Decoder,
    s: Seq<u8>,
    eof: bool,
)
    requires
        port <= 0xffff,
        vstd::utf8::encode_utf8(host).len() <= 255,
        snell::sends(e, suite, psk, salt, snell::chunks(request(target_text(host, port), is_v2)), out, after),
        records::gets_through(e, salt),
        records::in_step(e, d, s),
        e.key is None,
        d.fallback_suite == Some(suite),
        d.psk == psk,
        records::rejects(d.suite, suite, psk, salt, request(target_text(host, port), is_v2)),
    ensures
        handshake(Handshake::Head, d, s + out, eof).result == Ok::<(Seq<char>, u8), HandshakeStop>(
            (target_text(host, port), connect_command(is_v2)),
        ),
        records::in_step(
            after,
            handshake(Handshake::Head, d, s + out, eof).next,
            handshake(Handshake::Head, d, s + out, eof).rest,
        ),
        records::same_ends(d, handshake(Handshake::Head, d, s + out, eof).next),
        snell::write_suite(handshake(Handshake::Head, d, s + out, eof).next) == suite,
{
    let payload = request(target_text(host, port), is_v2);
    lemma_target_parts(host, port);
    assert(snell::chunks(payload) =~= seq![payload]);
    records::lemma_chunks(payload);
    let r = records::lemma_fallback_round_trip(
        e,
        suite,
        psk,
        salt,
        seq![payload],
        out,
        after,
        d,
        s,
        eof,
        aead::PAYLOAD_SIZE_MASK as nat,
    );
    lemma_request_read(host, port, is_v2, d, s + out, eof, r.0, r.1);
}

/// A record that a read hands out whole.
pub proof fn lemma_whole_record(d: Decoder, s: Seq<u8>, eof: bool, cap: nat, payload: Seq<u8>, last: Decoder, left: Seq<u8>)
    requires
        payload.len() > 0,
        records::reads_back(d, s, eof, cap, seq![payload], last, left),
    ensures
        snell::snell_read(d, s, eof, cap) == (Taken { next: last, rest: left, result: Ok(payload) }),
{
    let t = snell::snell_read(d, s, eof, cap);
    assert(seq![payload].drop_first() =~= seq![]);
    assert(records::reads_back(t.next, t.rest, eof, cap, seq![], last, left));
}

/// The client reads the message of an error response, as far as the response holds it.
pub proof fn lemma_error_understood(message: Seq<char>, d: Decoder, more: Seq<u8>, s: Seq<u8>, eof: bool)
    requires
        d.leftover == error_response(message) + more,
    ensures
        snell::snell_read(d, s, eof, 1) == (Taken {
            next: Decoder { leftover: d.leftover.skip(1), ..d },
            rest: s,
            result: Ok(seq![RESP_ERROR]),
        }),
        error_read(ErrorPart::Code, Decoder { leftover: d.leftover.skip(1), ..d }, s, eof) == (ErrorRead {
            progress: ErrorPart::Code,
            next: Decoder { leftover: more, ..d },
            rest: s,
            result: Ok(text::lossy_text(cut_message(message))),
        }),
        vstd::utf8::encode_utf8(message).len() <= MAX_MESSAGE ==> text::lossy_text(cut_message(message)) == message,
{
    let bytes = cut_message(message);
    let len = bytes.len() as u8;
    let all = d.leftover;
    vstd::utf8::encode_utf8_valid_utf8(message);
    vstd::utf8::encode_utf8_decode_utf8(message);
    assert(all.take(1) =~= seq![RESP_ERROR]);
    let d1 = Decoder { leftover: all.skip(1), ..d };
    let d2 = Decoder { leftover: all.skip(2), ..d };
    let d3 = Decoder { leftover: all.skip(3), ..d };
    assert(all.skip(1).skip(1) =~= all.skip(2));
    assert(all.skip(2).skip(1) =~= all.skip(3));
    snell::lemma_read_leftover(d, s, eof, 1);
    snell::lemma_read_leftover(d1, s, eof, 1);
    snell::lemma_read_leftover(d2, s, eof, 1);
    assert(error_read(ErrorPart::Code, d1, s, eof) == error_read(ErrorPart::Length, d2, s, eof));
    assert(all.skip(2).take(1) =~= seq![len]);
    assert(buffer(seq![len], 1) =~= seq![len]);
    if bytes.len() == 0 {
        assert(all.skip(3) =~= more);
        assert(bytes =~= seq![]);
        let none: Seq<char> = seq![];
        assert(vstd::utf8::encode_utf8(none) =~= bytes);
        vstd::utf8::encode_utf8_valid_utf8(none);
        vstd::utf8::encode_utf8_decode_utf8(none);
    } else {
        snell::lemma_read_leftover(d3, s, eof, len as nat);
        assert(error_read(ErrorPart::Length, d2, s, eof) == error_read(ErrorPart::Message { len }, d3, s, eof));
        assert(all.skip(3).take(len as int) =~= bytes);
        assert(all.skip(3).skip(len as int) =~= more);
        assert(buffer(bytes, len as nat) =~= bytes);
    }
}

// ---- Requests and responses that arrive in pieces ----

/// Whether a handshake stopped for want of bytes that may still come.
pub open spec fn handshake_waits(h: Shaken) -> bool {
    h.result == Err::<(Seq<char>, u8), HandshakeStop>(HandshakeStop::Read(Stop::Lacking))
}

/// Whether two handshakes come to the same, where `b` is still to arrive behind the first.
pub open spec fn same_handshake(h1: Shaken, b: Seq<u8>, h2: Shaken, tail: Seq<u8>) -> bool {
    &&& h1.result == h2.result
    &&& h1.progress == h2.progress
    &&& arrival::alike(h1.next, h1.rest + b, h2.next, h2.rest, tail)
}

proof fn lemma_alike_handshake(h: Handshake, d1: Decoder, s1: Seq<u8>, d2: Decoder, s2: Seq<u8>, eof: bool, tail: Seq<u8>)
    requires
        arrival::alike(d1, s1, d2, s2, tail),
    ensures
        same_handshake(handshake(h, d1, s1, eof), seq![], handshake(h, d2, s2, eof), tail),
    decreases parts_behind(h),
{
    let none: Seq<u8> = seq![];
    arrival::lemma_alike_read(d1, s1, d2, s2, eof, wanted(h), tail);
    let t1 = snell::snell_read(d1, s1, eof, wanted(h));
    let t2 = snell::snell_read(d2, s2, eof, wanted(h));
    assert(t1.rest + none =~= t1.rest);
    if t1.result is Ok {
        match advance(h, buffer(t1.result->Ok_0, wanted(h))) {
            Progress::More(next) => lemma_alike_handshake(next, t1.next, t1.rest, t2.next, t2.rest, eof, tail),
            _ => {},
        }
    }
}

/// A request may arrive in pieces: a handshake on the front of it comes to what a handshake on all
/// of it comes to; or it waits, and goes on from its progress to that once the rest has arrived.
pub proof fn lemma_handshake_in_pieces(h: Handshake, d: Decoder, a: Seq<u8>, b: Seq<u8>, eof: bool, tail: Seq<u8>)
    requires
        arrival::settled(d, a + b, tail),
    ensures
        ({
            let t = handshake(h, d, a, false);
            let w = handshake(h, d, a + b, eof);
            if handshake_waits(t) {
                same_handshake(handshake(t.progress, t.next, t.rest + b, eof), seq![], w, tail)
            } else {
                same_handshake(t, b, w, tail)
            }
        }),
    decreases parts_behind(h),
{
    let none: Seq<u8> = seq![];
    arrival::lemma_arrives_in_pieces(d, a, b, eof, wanted(h), tail);
    let t = snell::snell_read(d, a, false, wanted(h));
    let w = snell::snell_read(d, a + b, eof, wanted(h));
    if arrival::waits(t) {
        let again = snell::snell_read(t.next, t.rest + b, eof, wanted(h));
        assert(again.rest + none =~= again.rest);
        if again.result is Ok {
            match advance(h, buffer(again.result->Ok_0, wanted(h))) {
                Progress::More(next) => lemma_alike_handshake(next, again.next, again.rest, w.next, w.rest, eof, tail),
                _ => {},
            }
        }
    } else if t.result is Ok {
        match advance(h, buffer(t.result->Ok_0, wanted(h))) {
            Progress::More(next) => {
                lemma_handshake_in_pieces(next, t.next, t.rest, b, eof, tail);
                lemma_alike_handshake(next, t.next, t.rest + b, w.next, w.rest, eof, tail);
                let at_once = handshake(next, t.next, t.rest + b, eof);
                assert(at_once.rest + none =~= at_once.rest);
                let part = handshake(next, t.next, t.rest, false);
                if handshake_waits(part) {
                    let later = handshake(part.progress, part.next, part.rest + b, eof);
                    assert(later.rest + none =~= later.rest);
                }
            },
            _ => {},
        }
    }
}

/// Whether two reads of an error response come to the same, where `b` is still to arrive behind the
/// first.
pub open spec fn same_error(e1: ErrorRead, b: Seq<u8>, e2: ErrorRead, tail: Seq<u8>) -> bool {
    &&& e1.result == e2.result
    &&& e1.progress == e2.progress
    &&& arrival::alike(e1.next, e1.rest + b, e2.next, e2.rest, tail)
}

/// What is read behind a part of an error response, if anything.
spec fn error_part_behind(p: ErrorPart, got: Seq<u8>) -> Option<ErrorPart> {
    match p {
        ErrorPart::Code => Some(ErrorPart::Length),
        ErrorPart::Length => if buffer(got, 1)[0] == 0 {
            None
        } else {
            Some(ErrorPart::Message { len: buffer(got, 1)[0] })
        },
        ErrorPart::Message { .. } => None,
    }
}

proof fn lemma_alike_error(p: ErrorPart, d1: Decoder, s1: Seq<u8>, d2: Decoder, s2: Seq<u8>, eof: bool, tail: Seq<u8>)
    requires
        arrival::alike(d1, s1, d2, s2, tail),
    ensures
        same_error(error_read(p, d1, s1, eof), seq![], error_read(p, d2, s2, eof), tail),
    decreases error_parts_behind(p),
{
    let none: Seq<u8> = seq![];
    arrival::lemma_alike_read(d1, s1, d2, s2, eof, error_wanted(p), tail);
    let t1 = snell::snell_read(d1, s1, eof, error_wanted(p));
    let t2 = snell::snell_read(d2, s2, eof, error_wanted(p));
    assert(t1.rest + none =~= t1.rest);
    if t1.result is Ok {
        match error_part_behind(p, t1.result->Ok_0) {
            Some(next) => lemma_alike_error(next, t1.next, t1.rest, t2.next, t2.rest, eof, tail),
            None => {},
        }
    }
}

/// An error response may arrive in pieces too: reading the front of it waits, and goes on from its
/// progress once the rest has arrived, or comes to what reading all of it comes to.
pub proof fn lemma_error_in_pieces(p: ErrorPart, d: Decoder, a: Seq<u8>, b: Seq<u8>, eof: bool, tail: Seq<u8>)
    requires
        arrival::settled(d, a + b, tail),
    ensures
        ({
            let t = error_read(p, d, a, false);
            let w = error_read(p, d, a + b, eof);
            if t.result == Err::<Seq<char>, Stop>(Stop::Lacking) {
                same_error(error_read(t.progress, t.next, t.rest + b, eof), seq![], w, tail)
            } else {
                same_error(t, b, w, tail)
            }
        }),
    decreases error_parts_behind(p),
{
    let none: Seq<u8> = seq![];
    arrival::lemma_arrives_in_pieces(d, a, b, eof, error_wanted(p), tail);
    let t = snell::snell_read(d, a, false, error_wanted(p));
    let w = snell::snell_read(d, a + b, eof, error_wanted(p));
    if arrival::waits(t) {
        let again = snell::snell_read(t.next, t.rest + b, eof, error_wanted(p));
        assert(again.rest + none =~= again.rest);
        if again.result is Ok {
            match error_part_behind(p, again.result->Ok_0) {
                Some(next) => lemma_alike_error(next, again.next, again.rest, w.next, w.rest, eof, tail),
                None => {},
            }
        }
    } else if t.result is Ok {
        match error_part_behind(p, t.result->Ok_0) {
            Some(next) => {
                lemma_error_in_pieces(next, t.next, t.rest, b, eof, tail);
                lemma_alike_error(next, t.next, t.rest + b, w.next, w.rest, eof, tail);
                let at_once = error_read(next, t.next, t.rest + b, eof);
                assert(at_once.rest + none =~= at_once.rest);
                let part = error_read(next, t.next, t.rest, false);
                if part.result == Err::<Seq<char>, Stop>(Stop::Lacking) {
                    let later = error_read(part.progress, part.next, part.rest + b, eof);
                    assert(later.rest + none =~= later.rest);
                }
            },
            None => {},
        }
    }
}

// ---- Requests and responses, byte by byte ----

/// The port of a target is the number behind its last colon. A target without a colon is a host with
/// port 0; so is one with anything but a number up to 65535 behind its last colon.
pub proof fn lemma_target_port(host: Seq<char>, port: Seq<char>)
    requires
        !port.contains(':'),
    ensures
        target_parts(host + seq![':'] + port) == (host, match text::parse_decimal(port, 65535) {
            Some(n) => n,
            None => 0nat,
        }),
        !host.contains(':') ==> target_parts(host) == (host, 0nat),
{
    text::lemma_rsplit_once(host, ':', port);
    if !host.contains(':') {
        text::lemma_rsplit_once(host, ':', host);
        reveal_strlit("0");
        text::lemma_decimal_by_digits(0);
        reveal_strlit("0123456789");
        assert("0"@ =~= text::decimal(0));
        text::lemma_decimal_round_trip(0, 0xffff);
    }
}

/// A request is the version, the command of the client's version, no client id, the length of the host,
/// the host and the port. Of a length above 255 the low eight bits are held. It depends on the target only
/// through the host and the port that it names.
pub proof fn lemma_request_bytes(host: Seq<char>, port: u16, is_v2: bool, target: Seq<char>)
    ensures
        request(target, is_v2) == request(target_parts(target).0 + seq![':'] + text::decimal(target_parts(target).1), is_v2),
        request(host + seq![':'] + text::decimal(port as nat), is_v2) == seq![
            1u8,
            if is_v2 {
                5u8
            } else {
                1u8
            },
            0u8,
            (vstd::utf8::encode_utf8(host).len() % 256) as u8,
        ] + vstd::utf8::encode_utf8(host) + seq![(port / 256) as u8, (port % 256) as u8],
{
    reveal_strlit(":");
    assert(":"@ =~= seq![':']);
    lemma_target_parts(host, port as nat);
    let (h, p) = target_parts(target);
    assert(p <= 0xffff) by {
        text::lemma_decimal_round_trip(0, 0xffff);
    }
    lemma_target_parts(h, p);
}

/// An error response is the code 2, an error code of 0, the length of the message and the message, of
/// which it holds up to 250 bytes.
pub proof fn lemma_error_bytes(message: Seq<char>)
    ensures
        vstd::utf8::encode_utf8(message).len() <= 250 ==> error_response(message) == seq![
            2u8,
            0u8,
            vstd::utf8::encode_utf8(message).len() as u8,
        ] + vstd::utf8::encode_utf8(message),
        vstd::utf8::encode_utf8(message).len() > 250 ==> error_response(message) == seq![2u8, 0u8, 250u8]
            + vstd::utf8::encode_utf8(message).take(250),
{
}

/// A part of what is left of an opened record.
proof fn lemma_next_part(d: Decoder, part: Seq<u8>, more: Seq<u8>, s: Seq<u8>, eof: bool)
    requires
        part.len() > 0,
        d.leftover == part + more,
    ensures
        snell::snell_read(d, s, eof, part.len()) == (Taken { next: Decoder { leftover: more, ..d }, rest: s, result: Ok(part) }),
        buffer(part, part.len()) == part,
{
    snell::lemma_read_leftover(d, s, eof, part.len());
    assert(d.leftover.take(part.len() as int) =~= part);
    assert(d.leftover.skip(part.len() as int) =~= more);
    assert(buffer(part, part.len()) =~= part);
}

/// The server understands a request with any command but that of UDP, with a client id of any length: the
/// target is the host, a colon and the port, and what follows the request is left.
pub proof fn lemma_any_request(command: u8, id: Seq<u8>, host: Seq<u8>, port: u16, d: Decoder, more: Seq<u8>, s: Seq<u8>, eof: bool)
    requires
        id.len() <= 255,
        host.len() <= 255,
        command != 6,
        d.leftover == seq![1u8, command, id.len() as u8] + id + seq![host.len() as u8] + host + seq![
            (port / 256) as u8,
            (port % 256) as u8,
        ] + more,
    ensures
        handshake(Handshake::Head, d, s, eof) == (Shaken {
            progress: Handshake::Head,
            next: Decoder { leftover: more, ..d },
            rest: s,
            result: Ok((text::lossy_text(host) + seq![':'] + text::decimal(port as nat), command)),
        }),
{
    reveal_strlit(":");
    assert(":"@ =~= seq![':']);
    let two = seq![(port / 256) as u8, (port % 256) as u8];
    let len = host.len() as u8;
    let head = seq![1u8, command, id.len() as u8];
    let tail = host + two;
    let d1 = Decoder { leftover: id + (seq![len] + (tail + more)), ..d };
    let d2 = Decoder { leftover: seq![len] + (tail + more), ..d };
    let d3 = Decoder { leftover: tail + more, ..d };
    assert(d.leftover =~= head + (id + (seq![len] + (tail + more))));
    lemma_next_part(d, head, d1.leftover, s, eof);
    let h1 = Handshake::HostLen { command };
    let h2 = Handshake::Host { command, len };
    if id.len() > 0 {
        let h0 = Handshake::ClientId { command, len: id.len() as u8 };
        assert(handshake(Handshake::Head, d, s, eof) == handshake(h0, d1, s, eof));
        lemma_next_part(d1, id, d2.leftover, s, eof);
        assert(handshake(h0, d1, s, eof) == handshake(h1, d2, s, eof));
    } else {
        assert(d1.leftover =~= d2.leftover);
        assert(handshake(Handshake::Head, d, s, eof) == handshake(h1, d2, s, eof));
    }
    lemma_next_part(d2, seq![len], d3.leftover, s, eof);
    assert(handshake(h1, d2, s, eof) == handshake(h2, d3, s, eof));
    lemma_next_part(d3, tail, more, s, eof);
    assert(tail.take(len as int) =~= host);
    assert(tail[len as int] == two[0] && tail[len + 1] == two[1]);
    assert(tls::from_be16(two[0], two[1]) == port);
}

/// A request for a UDP session holds no target: what follows the client id is left.
pub proof fn lemma_udp_request(id: Seq<u8>, d: Decoder, more: Seq<u8>, s: Seq<u8>, eof: bool)
    requires
        id.len() <= 255,
        d.leftover == seq![1u8, 6u8, id.len() as u8] + id + more,
    ensures
        handshake(Handshake::Head, d, s, eof) == (Shaken {
            progress: Handshake::Head,
            next: Decoder { leftover: more, ..d },
            rest: s,
            result: Ok((Seq::<char>::empty(), 6u8)),
        }),
{
    let head = seq![1u8, 6u8, id.len() as u8];
    let d1 = Decoder { leftover: id + more, ..d };
    assert(d.leftover =~= head + (id + more));
    lemma_next_part(d, head, d1.leftover, s, eof);
    if id.len() > 0 {
        let h0 = Handshake::ClientId { command: 6u8, len: id.len() as u8 };
        assert(handshake(Handshake::Head, d, s, eof) == handshake(h0, d1, s, eof));
        lemma_next_part(d1, id, more, s, eof);
    } else {
        assert(d1.leftover =~= more);
    }
}

/// A request of another version than 1 is refused behind its first three bytes.
pub proof fn lemma_other_version(version: u8, command: u8, len: u8, d: Decoder, more: Seq<u8>, s: Seq<u8>, eof: bool)
    requires
        version != 1,
        d.leftover == seq![version, command, len] + more,
    ensures
        handshake(Handshake::Head, d, s, eof) == (Shaken {
            progress: Handshake::Head,
            next: Decoder { leftover: more, ..d },
            rest: s,
            result: Err(HandshakeStop::Version(version)),
        }),
{
    lemma_next_part(d, seq![version, command, len], more, s, eof);
}

/// The client reads the message of any error response, whatever the error code and however long: the
/// length stands in front of it, and what follows it is left.
pub proof fn lemma_any_error(code: u8, message: Seq<u8>, d: Decoder, more: Seq<u8>, s: Seq<u8>, eof: bool)
    requires
        message.len() <= 255,
        d.leftover == seq![code, message.len() as u8] + message + more,
    ensures
        error_read(ErrorPart::Code, d, s, eof) == (ErrorRead {
            progress: ErrorPart::Code,
            next: Decoder { leftover: more, ..d },
            rest: s,
            result: Ok(text::lossy_text(message)),
        }),
{
    let len = message.len() as u8;
    let d1 = Decoder { leftover: seq![len] + (message + more), ..d };
    let d2 = Decoder { leftover: message + more, ..d };
    assert(d.leftover =~= seq![code] + (seq![len] + (message + more)));
    lemma_next_part(d, seq![code], d1.leftover, s, eof);
    assert(error_read(ErrorPart::Code, d, s, eof) == error_read(ErrorPart::Length, d1, s, eof));
    lemma_next_part(d1, seq![len], d2.leftover, s, eof);
    if message.len() > 0 {
        assert(error_read(ErrorPart::Length, d1, s, eof) == error_read(ErrorPart::Message { len }, d2, s, eof));
        lemma_next_part(d2, message, more, s, eof);
    } else {
        assert(d2.leftover =~= more);
        let none: Seq<char> = seq![];
        assert(vstd::utf8::encode_utf8(none) =~= message);
        text::lemma_text_of_bytes(none);
    }
}

/// What a read leaves out of a buffer is zeros behind what it put there.
pub proof fn lemma_buffer(got: Seq<u8>, n: nat)
    requires
        got.len() <= n,
    ensures
        buffer(got, n).len() == n,
        buffer(got, n).take(got.len() as int) == got,
        forall|i: int| got.len() <= i < n ==> buffer(got, n)[i] == 0,
{
    assert(buffer(got, n).take(got.len() as int) =~= got);
}

}
