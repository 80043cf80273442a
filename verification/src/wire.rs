//! The library's end of a TCP stream, and what can stop work on one.
//!
//! Bytes that arrive are fed into a wire, and bytes to be sent are taken out of it. A read that
//! lacks bytes stops with `IoError::WouldBlock` and is repeated once more bytes are there. Where the
//! stream has ended, it uses up what is left.
use crate::text;
use vstd::prelude::*;
use vstd::string::StringExecFns;

verus! {

/// A record without payload, which ends a stream of records.
#[derive(Debug)]
pub struct ZeroChunkError;

impl ZeroChunkError {
    /// The text of the error.
    pub fn message(&self) -> (r: String)
        ensures
            r@ == "Snell ZERO_CHUNK occurred"@,
    {
        String::from_str("Snell ZERO_CHUNK occurred")
    }
}

/// An error of the operating system: its number, where it has one, and its text.
#[derive(Debug)]
pub struct OsError {
    pub code: Option<i32>,
    pub text: String,
}

/// What stops a read, a handshake or a request.
#[derive(Debug)]
pub enum IoError {
    /// More bytes are needed, and may still arrive.
    WouldBlock,
    /// The stream ended where more bytes of it were to be read at once.
    UnexpectedEof,
    /// The stream ended where the next bytes of a record were to come.
    ConnectionClosed,
    /// The peer ended the stream of records.
    ZeroChunk(ZeroChunkError),
    /// A cipher rejected a message.
    Aead(String),
    /// A Snell header with an unknown version.
    InvalidVersion(u8),
    /// A SOCKS greeting with another version than 5.
    NotSocks5,
    /// A SOCKS address of an unknown type.
    InvalidAddressType,
    /// A SOCKS command other than CONNECT and UDP ASSOCIATE.
    UnsupportedCommand,
    /// The operating system failed.
    Os(OsError),
    /// The server answered with an error.
    Server(String),
    /// The server answered with an unknown response code.
    UnsupportedResponse,
}

impl IoError {
    /// The text of the error.
    pub open spec fn text(&self) -> Seq<char> {
        match self {
            IoError::WouldBlock => "operation would block"@,
            IoError::UnexpectedEof => "early eof"@,
            IoError::ConnectionClosed => "connection closed"@,
            IoError::ZeroChunk(_) => "Snell ZERO_CHUNK occurred"@,
            IoError::Aead(e) => e@,
            IoError::InvalidVersion(v) => "invalid snell version "@ + text::hexadecimal(*v as nat),
            IoError::NotSocks5 => "not SOCKS5"@,
            IoError::InvalidAddressType => "invalid address type"@,
            IoError::UnsupportedCommand => "command not supported"@,
            IoError::Os(e) => e.text@,
            IoError::Server(m) => "server error: "@ + m@,
            IoError::UnsupportedResponse => "command not supported"@,
        }
    }

    /// The text of the error.
    pub fn message(&self) -> (r: String)
        ensures
            r@ == self.text(),
    {
        match self {
            IoError::WouldBlock => String::from_str("operation would block"),
            IoError::UnexpectedEof => String::from_str("early eof"),
            IoError::ConnectionClosed => String::from_str("connection closed"),
            IoError::ZeroChunk(e) => e.message(),
            IoError::Aead(e) => String::from_str(e.as_str()),
            IoError::InvalidVersion(v) => {
                let mut r = String::from_str("invalid snell version ");
                let digits = text::numeral_chars(*v as u64, 16);
                r.append(text::string_of(digits.as_slice()).as_str());
                r
            },
            IoError::NotSocks5 => String::from_str("not SOCKS5"),
            IoError::InvalidAddressType => String::from_str("invalid address type"),
            IoError::UnsupportedCommand => String::from_str("command not supported"),
            IoError::Os(e) => String::from_str(e.text.as_str()),
            IoError::Server(m) => {
                let mut r = String::from_str("server error: ");
                r.append(m.as_str());
                r
            },
            IoError::UnsupportedResponse => String::from_str("command not supported"),
        }
    }
}

/// Whether an error is the end of a stream of records.
pub fn is_zero_chunk(e: &IoError) -> (r: bool)
    ensures
        r == (e is ZeroChunk),
{
    matches!(e, IoError::ZeroChunk(_))
}

/// What a read that lacks bytes leaves unread: all of it where more may come, so that the read can be
/// repeated, and nothing where the stream has ended.
pub open spec fn left(s: Seq<u8>, eof: bool) -> Seq<u8> {
    if eof {
        seq![]
    } else {
        s
    }
}

/// The error of a read that lacks bytes.
pub open spec fn starved(e: IoError, eof: bool) -> bool {
    if eof {
        e is UnexpectedEof
    } else {
        e is WouldBlock
    }
}

/// The library's end of a stream.
#[derive(Debug)]
pub struct Wire {
    /// Bytes that have arrived and are not read yet.
    pub inbox: Vec<u8>,
    /// Whether the peer has closed the stream: nothing arrives behind the inbox.
    pub eof: bool,
    /// Bytes that are written and not sent yet.
    pub outbox: Vec<u8>,
}

impl Wire {
    /// A fresh stream.
    pub fn new() -> (w: Wire)
        ensures
            w.inbox@ == Seq::<u8>::empty(),
            !w.eof,
            w.outbox@ == Seq::<u8>::empty(),
    {
        Wire { inbox: Vec::new(), eof: false, outbox: Vec::new() }
    }

    /// Takes in bytes that arrived.
    pub fn feed(&mut self, data: &[u8])
        ensures
            final(self).inbox@ == old(self).inbox@ + data@,
            final(self).eof == old(self).eof,
            final(self).outbox@ == old(self).outbox@,
    {
        self.inbox.extend_from_slice(data);
        assert(self.inbox@ =~= old(self).inbox@ + data@);
    }

    /// Notes that the peer has closed the stream.
    pub fn close(&mut self)
        ensures
            final(self).inbox@ == old(self).inbox@,
            final(self).eof,
            final(self).outbox@ == old(self).outbox@,
    {
        self.eof = true;
    }

    /// Hands out the bytes to be sent.
    pub fn take_output(&mut self) -> (out: Vec<u8>)
        ensures
            out@ == old(self).outbox@,
            final(self).outbox@ == Seq::<u8>::empty(),
            final(self).inbox@ == old(self).inbox@,
            final(self).eof == old(self).eof,
    {
        let mut out: Vec<u8> = Vec::new();
        std::mem::swap(&mut out, &mut self.outbox);
        out
    }

    /// Writes bytes.
    pub fn write_all(&mut self, data: &[u8])
        ensures
            final(self).outbox@ == old(self).outbox@ + data@,
            final(self).inbox@ == old(self).inbox@,
            final(self).eof == old(self).eof,
    {
        self.outbox.extend_from_slice(data);
        assert(self.outbox@ =~= old(self).outbox@ + data@);
    }

    /// Reads `n` bytes that are there.
    pub fn take(&mut self, n: usize) -> (head: Vec<u8>)
        requires
            n <= old(self).inbox@.len(),
        ensures
            head@ == old(self).inbox@.take(n as int),
            final(self).inbox@ == old(self).inbox@.skip(n as int),
            final(self).eof == old(self).eof,
            final(self).outbox@ == old(self).outbox@,
    {
        let mut rest = self.inbox.split_off(n);
        std::mem::swap(&mut rest, &mut self.inbox);
        assert(rest@ =~= old(self).inbox@.take(n as int));
        assert(self.inbox@ =~= old(self).inbox@.skip(n as int));
        rest
    }

    /// Ends a read that lacks bytes.
    pub fn lack(&mut self) -> (e: IoError)
        ensures
            starved(e, old(self).eof),
            final(self).inbox@ == left(old(self).inbox@, old(self).eof),
            final(self).eof == old(self).eof,
            final(self).outbox@ == old(self).outbox@,
    {
        if self.eof {
            self.inbox = Vec::new();
            IoError::UnexpectedEof
        } else {
            IoError::WouldBlock
        }
    }

    /// Reads `n` bytes; where they are not there, the read can be repeated once more have come.
    pub fn read_exact(&mut self, n: usize) -> (r: Result<Vec<u8>, IoError>)
        ensures
            final(self).eof == old(self).eof,
            final(self).outbox@ == old(self).outbox@,
            match r {
                Ok(head) => n <= old(self).inbox@.len() && head@ == old(self).inbox@.take(n as int) && final(self).inbox@
                    == old(self).inbox@.skip(n as int),
                Err(e) => n > old(self).inbox@.len() && starved(e, old(self).eof) && final(self).inbox@ == left(
                    old(self).inbox@,
                    old(self).eof,
                ),
            },
    {
        if n <= self.inbox.len() {
            Ok(self.take(n))
        } else {
            Err(self.lack())
        }
    }
}

/// A read that lacks bytes leaves them for the next one where more may come; where the stream has ended
/// they are gone, and the read fails for good.
pub proof fn lemma_lacking(s: Seq<u8>, e: IoError)
    ensures
        left(s, false) == s,
        left(s, true) == Seq::<u8>::empty(),
        starved(e, false) <==> e is WouldBlock,
        starved(e, true) <==> e is UnexpectedEof,
{
}

/// The text of an unknown version holds it in hexadecimal, in one digit below 16 and in two from there on.
/// The text of another end's message is that message: of the operating system, of a cipher, and, behind a
/// word of where it is from, of the server.
pub proof fn lemma_error_texts(e: IoError)
    ensures
        e matches IoError::InvalidVersion(v) ==> {
            let digits = "0123456789abcdef"@;
            e.text() == "invalid snell version "@ + (if v < 16 {
                seq![digits[v as int]]
            } else {
                seq![digits[v as int / 16], digits[v as int % 16]]
            })
        },
        e matches IoError::Os(o) ==> e.text() == o.text@,
        e matches IoError::Aead(a) ==> e.text() == a@,
        e matches IoError::Server(m) ==> e.text() == "server error: "@ + m@,
{
    if let IoError::InvalidVersion(v) = e {
        text::lemma_hexadecimal_by_digits(v as nat);
        text::lemma_hexadecimal_by_digits(v as nat / 16);
        let digits = "0123456789abcdef"@;
        if v >= 16 {
            assert(text::hexadecimal(v as nat) =~= seq![digits[v as int / 16], digits[v as int % 16]]);
        }
    }
}

}
