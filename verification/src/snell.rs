//! A Snell connection: sealed records over an obfuscated stream.
//!
//! Each direction opens with a salt, from which both sides derive the session key. A record is a
//! sealed two byte length and, unless the length is zero, a sealed payload of that length.
use crate::aead;
use crate::aead::{AeadCipher, AnyAead, AnyCipher, Cipher, Suite, PAYLOAD_SIZE_MASK, SALT_SIZE, TAG_SIZE};
use crate::entropy::random_bytes;
use crate::obfs;
use crate::obfs::{ObfsMode, ObfsState, Outcome, Reader, Writer};
use crate::text;
use crate::tls;
use crate::wire::{IoError, Wire, ZeroChunkError};
use vstd::prelude::*;

verus! {

pub const CMD_PING: u8 = 0;

pub const CMD_CONNECT: u8 = 1;

pub const CMD_CONNECT_V2: u8 = 5;

pub const CMD_UDP: u8 = 6;

pub const CMD_UDP_FORWARD: u8 = 1;

pub const RESP_TUNNEL: u8 = 0;

pub const RESP_READY: u8 = 0;

pub const RESP_PONG: u8 = 1;

pub const RESP_ERROR: u8 = 2;

pub const SNELL_VERSION: u8 = 1;

/// Bytes that a relay reads at once.
pub const RELAY_BUF_SIZE: usize = 20 * 1024;

/// Bytes that are asked of the obfuscation layer at once.
pub const FILL_SIZE: usize = 4096;

// ---- The reading half ----

/// The key of one direction of a session.
#[verifier::ext_equal]
pub struct SessionKey {
    pub suite: Suite,
    pub key: Seq<u8>,
}

/// The reading half of a connection.
#[verifier::ext_equal]
pub struct Decoder {
    /// The obfuscation layer.
    pub obfs: Reader,
    /// Bytes that came through the obfuscation layer and are not opened yet.
    pub enc: Seq<u8>,
    /// The pre-shared key.
    pub psk: Seq<u8>,
    /// The suite of the connection.
    pub suite: Suite,
    /// The suite that is tried where the first one rejects the first record.
    pub fallback_suite: Option<Suite>,
    /// The session key, once the salt is read.
    pub key: Option<SessionKey>,
    /// The session key of the fallback suite, until the first record has been tried.
    pub fallback: Option<SessionKey>,
    /// The nonce of the next sealed message.
    pub nonce: Seq<u8>,
    /// The payload length of a record whose length is read and whose payload is not.
    pub size: Option<nat>,
    /// Opened payload that is not handed out yet.
    pub leftover: Seq<u8>,
    /// Whether the fallback suite has been taken up.
    pub switched: bool,
}

/// What keeps a read from handing out payload.
pub enum Stop {
    /// Bytes are lacking that may still come.
    Lacking,
    /// The stream ended where the obfuscation layer needed more of it at once.
    Cut,
    /// The stream ended, or the obfuscation layer handed out nothing.
    Closed,
    /// The record holds no payload.
    ZeroChunk,
    /// The record does not open.
    Rejected,
}

/// Whether a read stopped for want of bytes, whether or not they may still come.
pub open spec fn too_short(stop: Stop) -> bool {
    stop is Lacking || stop is Cut || stop is Closed
}

/// What a read comes to: the reading half and the unread bytes behind it, and what it hands out.
#[verifier::ext_equal]
pub struct Taken {
    pub next: Decoder,
    pub rest: Seq<u8>,
    pub result: Result<Seq<u8>, Stop>,
}

/// Whether an error tells what stopped a read.
pub open spec fn tells(e: IoError, stop: Stop) -> bool {
    match stop {
        Stop::Lacking => e is WouldBlock,
        Stop::Cut => e is UnexpectedEof,
        Stop::Closed => e is ConnectionClosed,
        Stop::ZeroChunk => e is ZeroChunk,
        Stop::Rejected => e matches IoError::Aead(text) && text@ == aead::rejection(),
    }
}

/// The session key that a suite derives from the pre-shared key and a salt.
pub open spec fn session(suite: Suite, psk: Seq<u8>, salt: Seq<u8>) -> SessionKey {
    SessionKey { suite, key: aead::session_key(suite, psk, salt) }
}

/// The message that a session key opens, or `None`.
pub open spec fn open_with(k: SessionKey, nonce: Seq<u8>, c: Seq<u8>) -> Option<Seq<u8>> {
    aead::unseal(k.suite, k.key, nonce, c)
}

/// A message under a session key.
pub open spec fn seal_with(k: SessionKey, nonce: Seq<u8>, p: Seq<u8>) -> Seq<u8> {
    aead::seal(k.suite, k.key, nonce, p)
}

/// Reads through the obfuscation layer until `n` bytes are there. A read that hands out nothing
/// is the end of the stream; there, what came through before is lost.
pub open spec fn fill(d: Decoder, s: Seq<u8>, eof: bool, n: nat) -> Taken
    decreases (if d.enc.len() < n { n - d.enc.len() } else { 0 }),
{
    if d.enc.len() >= n {
        Taken { next: d, rest: s, result: Ok(seq![]) }
    } else {
        match obfs::obfs_read(d.obfs, s, eof, FILL_SIZE as nat) {
            Outcome::Starved => Taken { next: d, rest: s, result: Err(Stop::Lacking) },
            Outcome::Cut { next } => Taken {
                next: Decoder { obfs: next, enc: seq![], ..d },
                rest: seq![],
                result: Err(Stop::Cut),
            },
            Outcome::Data { consumed, out, next } => {
                let rest = s.skip(consumed as int);
                if out.len() == 0 {
                    Taken { next: Decoder { obfs: next, enc: seq![], ..d }, rest, result: Err(Stop::Closed) }
                } else {
                    fill(Decoder { obfs: next, enc: d.enc + out, ..d }, rest, eof, n)
                }
            },
        }
    }
}

/// Reads `n` bytes through the obfuscation layer.
pub open spec fn take_exact(d: Decoder, s: Seq<u8>, eof: bool, n: nat) -> Taken {
    let f = fill(d, s, eof, n);
    match f.result {
        Err(stop) => f,
        Ok(_) => Taken {
            next: Decoder { enc: f.next.enc.skip(n as int), ..f.next },
            rest: f.rest,
            result: Ok(f.next.enc.take(n as int)),
        },
    }
}

/// Reads the salt and derives the session keys.
pub open spec fn init_reader(d: Decoder, s: Seq<u8>, eof: bool) -> Taken {
    let t = take_exact(d, s, eof, SALT_SIZE as nat);
    match t.result {
        Err(stop) => t,
        Ok(salt) => Taken {
            next: Decoder {
                key: Some(session(d.suite, d.psk, salt)),
                nonce: aead::zero_nonce(),
                fallback: match d.fallback_suite {
                    Some(suite) => Some(session(suite, d.psk, salt)),
                    None => d.fallback,
                },
                ..t.next
            },
            rest: t.rest,
            result: Ok(seq![]),
        },
    }
}

/// Opens the sealed length of a record: with the session key, or else with the fallback key, which
/// then takes its place. The fallback key is there for the first record alone: whichever key opens
/// it, or none, the fallback key is gone.
pub open spec fn open_header(d: Decoder, c: Seq<u8>) -> (Decoder, Option<Seq<u8>>) {
    let k = d.key.unwrap();
    match open_with(k, d.nonce, c) {
        Some(h) => (Decoder { fallback: None, nonce: aead::next_nonce(d.nonce), ..d }, Some(h)),
        None => match d.fallback {
            None => (d, None),
            Some(fallback) => match open_with(fallback, d.nonce, c) {
                None => (Decoder { fallback: None, ..d }, None),
                Some(h) => (
                    Decoder {
                        key: Some(fallback),
                        fallback: None,
                        switched: true,
                        nonce: aead::next_nonce(d.nonce),
                        ..d
                    },
                    Some(h),
                ),
            },
        },
    }
}

/// The payload length that an opened header holds.
pub open spec fn header_size(h: Seq<u8>) -> nat {
    tls::from_be16(h[0], h[1]) % (PAYLOAD_SIZE_MASK as nat + 1)
}

/// Reads and opens the length of a record.
pub open spec fn read_header(d: Decoder, s: Seq<u8>, eof: bool) -> Taken {
    let t = take_exact(d, s, eof, 2 + TAG_SIZE as nat);
    match t.result {
        Err(stop) => t,
        Ok(c) => {
            let (next, header) = open_header(t.next, c);
            match header {
                None => Taken { next, rest: t.rest, result: Err(Stop::Rejected) },
                Some(h) => if header_size(h) == 0 {
                    Taken { next, rest: t.rest, result: Err(Stop::ZeroChunk) }
                } else {
                    Taken { next: Decoder { size: Some(header_size(h)), ..next }, rest: t.rest, result: Ok(seq![]) }
                },
            }
        },
    }
}

/// Reads and opens the payload of a record whose length is known, and hands out up to `cap` bytes.
/// Where the stream ends first, the record is given up.
pub open spec fn read_payload(d: Decoder, s: Seq<u8>, eof: bool, cap: nat) -> Taken {
    let t = take_exact(d, s, eof, d.size.unwrap() + TAG_SIZE as nat);
    match t.result {
        Err(stop) => if stop is Lacking {
            t
        } else {
            Taken { next: Decoder { size: None, ..t.next }, ..t }
        },
        Ok(c) => {
            let next = Decoder { size: None, ..t.next };
            match open_with(d.key.unwrap(), d.nonce, c) {
                None => Taken { next, rest: t.rest, result: Err(Stop::Rejected) },
                Some(payload) => {
                    let n = obfs::least(cap, payload.len()) as int;
                    Taken {
                        next: Decoder { nonce: aead::next_nonce(d.nonce), leftover: payload.skip(n), ..next },
                        rest: t.rest,
                        result: Ok(payload.take(n)),
                    }
                },
            }
        },
    }
}

/// Reads one record, from its length or from its payload on.
pub open spec fn read_record(d: Decoder, s: Seq<u8>, eof: bool, cap: nat) -> Taken {
    if d.size is Some {
        read_payload(d, s, eof, cap)
    } else {
        let t = read_header(d, s, eof);
        if t.result is Err {
            t
        } else {
            read_payload(t.next, t.rest, eof, cap)
        }
    }
}

/// Reads up to `cap` bytes of payload, where `s` has arrived and `eof` tells whether the stream
/// ends there: what is left of an opened record, or else the next record.
#[verifier::opaque]
pub open spec fn snell_read(d: Decoder, s: Seq<u8>, eof: bool, cap: nat) -> Taken {
    if d.leftover.len() > 0 {
        let n = obfs::least(cap, d.leftover.len()) as int;
        Taken { next: Decoder { leftover: d.leftover.skip(n), ..d }, rest: s, result: Ok(d.leftover.take(n)) }
    } else if d.key is None {
        let t = init_reader(d, s, eof);
        if t.result is Err {
            t
        } else {
            read_record(t.next, t.rest, eof, cap)
        }
    } else {
        read_record(d, s, eof, cap)
    }
}

// ---- The connection ----

/// The writing half of a connection.
#[verifier::ext_equal]
pub struct Encoder {
    /// The obfuscation layer.
    pub obfs: Writer,
    /// The session key, once the salt is written.
    pub key: Option<SessionKey>,
    /// The nonce of the next sealed message.
    pub nonce: Seq<u8>,
}

/// A Snell connection with authenticated encryption and optional obfuscation.
pub struct SnellConn {
    stream: Wire,
    obfs: ObfsState,
    cipher: AnyCipher,
    fallback_cipher: Option<AnyCipher>,
    read_aead: Option<AnyAead>,
    write_aead: Option<AnyAead>,
    fallback_aead: Option<AnyAead>,
    read_nonce: Vec<u8>,
    write_nonce: Vec<u8>,
    enc_buf: Vec<u8>,
    record_size: Option<usize>,
    dec_leftover: Vec<u8>,
    switched: bool,
}

/// The session key of a cipher.
pub open spec fn key_of(a: Option<AnyAead>) -> Option<SessionKey> {
    match a {
        Some(a) => Some(SessionKey { suite: a.suite(), key: a.key() }),
        None => None,
    }
}

/// Whether the cipher, where there is one, has a key of the right length.
pub open spec fn keyed(a: Option<AnyAead>) -> bool {
    a matches Some(a) ==> a.keyed()
}

/// Whether a read comes to `next` with `rest` unread, and nothing else changes.
pub open spec fn moves(before: SnellConn, next: Decoder, rest: Seq<u8>, after: SnellConn) -> bool {
    &&& after.wf()
    &&& after.decoder() == next
    &&& after.encoder() == before.encoder()
    &&& after.wire().inbox@ == rest
    &&& after.wire().eof == before.wire().eof
    &&& after.wire().outbox@ == before.wire().outbox@
}

/// What the methods of the reading half promise: the result, the reading half and the unread bytes
/// behind it, and that nothing else changes.
pub open spec fn reads_as(before: SnellConn, t: Taken, r: Result<Seq<u8>, IoError>, after: SnellConn) -> bool {
    &&& moves(before, t.next, t.rest, after)
    &&& match t.result {
        Ok(out) => r matches Ok(data) && data == out,
        Err(stop) => r matches Err(e) && tells(e, stop),
    }
}

/// The same for a method that hands out nothing.
pub open spec fn done(r: Result<(), IoError>) -> Result<Seq<u8>, IoError> {
    match r {
        Ok(_) => Ok(seq![]),
        Err(e) => Err(e),
    }
}

impl SnellConn {
    /// The stream below.
    pub closed spec fn wire(&self) -> Wire {
        self.stream
    }

    /// The reading half.
    pub closed spec fn decoder(&self) -> Decoder {
        Decoder {
            obfs: self.obfs.reader(),
            enc: self.enc_buf@,
            psk: self.cipher.psk(),
            suite: self.cipher.suite(),
            fallback_suite: match self.fallback_cipher {
                Some(c) => Some(c.suite()),
                None => None,
            },
            key: key_of(self.read_aead),
            fallback: key_of(self.fallback_aead),
            nonce: self.read_nonce@,
            size: match self.record_size {
                Some(n) => Some(n as nat),
                None => None,
            },
            leftover: self.dec_leftover@,
            switched: self.switched,
        }
    }

    /// The writing half.
    pub closed spec fn encoder(&self) -> Encoder {
        Encoder { obfs: self.obfs.writer(), key: key_of(self.write_aead), nonce: self.write_nonce@ }
    }

    /// The parts fit together: the pre-shared key is one that the key derivation takes, the keys
    /// and nonces have their lengths, and the length of a record is read only behind the salt.
    pub closed spec fn wf(&self) -> bool {
        &&& aead::psk_fits(self.cipher.psk())
        &&& self.fallback_cipher matches Some(c) ==> c.psk() == self.cipher.psk()
        &&& keyed(self.read_aead)
        &&& keyed(self.write_aead)
        &&& keyed(self.fallback_aead)
        &&& self.read_aead is Some ==> self.read_nonce@.len() == aead::NONCE_SIZE
        &&& self.write_aead is Some ==> self.write_nonce@.len() == aead::NONCE_SIZE
        &&& self.record_size matches Some(n) ==> self.read_aead is Some && 0 < n <= PAYLOAD_SIZE_MASK
    }

    /// Reads through the obfuscation layer until `n` bytes are there.
    fn fill(&mut self, n: usize) -> (r: Result<(), IoError>)
        requires
            old(self).wf(),
        ensures
            reads_as(
                *old(self),
                fill(old(self).decoder(), old(self).wire().inbox@, old(self).wire().eof, n as nat),
                done(r),
                *final(self),
            ),
    {
        let ghost whole = fill(self.decoder(), self.stream.inbox@, self.stream.eof, n as nat);
        while self.enc_buf.len() < n
            invariant
                self.wf(),
                whole == fill(old(self).decoder(), old(self).wire().inbox@, old(self).wire().eof, n as nat),
                whole == fill(self.decoder(), self.stream.inbox@, self.stream.eof, n as nat),
                self.encoder() == old(self).encoder(),
                self.stream.eof == old(self).wire().eof,
                self.stream.outbox@ == old(self).wire().outbox@,
            decreases (if self.enc_buf@.len() < n { n - self.enc_buf@.len() } else { 0 }),
        {
            let ghost before = self.decoder();
            match self.obfs.read_up_to(&mut self.stream, FILL_SIZE) {
                Err(IoError::WouldBlock) => {
                    assert(self.decoder() =~= before);
                    return Err(IoError::WouldBlock);
                },
                Err(e) => {
                    self.enc_buf = Vec::new();
                    assert(self.stream.inbox@ =~= seq![]);
                    assert(self.enc_buf@ =~= seq![]);
                    return Err(e);
                },
                Ok(out) => {
                    if out.len() == 0 {
                        self.enc_buf = Vec::new();
                        assert(self.enc_buf@ =~= seq![]);
                        return Err(IoError::ConnectionClosed);
                    }
                    self.enc_buf.extend_from_slice(out.as_slice());
                    assert(self.enc_buf@ =~= before.enc + out@);
                },
            }
        }
        Ok(())
    }

    /// Reads `n` bytes through the obfuscation layer.
    pub fn obfs_read_exact(&mut self, n: usize) -> (r: Result<Vec<u8>, IoError>)
        requires
            old(self).wf(),
        ensures
            reads_as(
                *old(self),
                take_exact(old(self).decoder(), old(self).wire().inbox@, old(self).wire().eof, n as nat),
                obfs::seen(r),
                *final(self),
            ),
            r matches Ok(out) ==> out@.len() == n,
    {
        match self.fill(n) {
            Err(e) => Err(e),
            Ok(()) => {
                let ghost enc = self.enc_buf@;
                proof {
                    lemma_fill_length(old(self).decoder(), old(self).wire().inbox@, old(self).wire().eof, n as nat);
                }
                let mut out = self.enc_buf.split_off(n);
                std::mem::swap(&mut out, &mut self.enc_buf);
                assert(out@ =~= enc.take(n as int));
                assert(self.enc_buf@ =~= enc.skip(n as int));
                Ok(out)
            },
        }
    }

    /// Reads the salt of the peer and derives the session keys from it.
    fn init_reader(&mut self) -> (r: Result<(), IoError>)
        requires
            old(self).wf(),
            old(self).decoder().size is None,
        ensures
            reads_as(
                *old(self),
                init_reader(old(self).decoder(), old(self).wire().inbox@, old(self).wire().eof),
                done(r),
                *final(self),
            ),
            r is Ok ==> final(self).decoder().key is Some && final(self).decoder().size is None,
    {
        proof {
            lemma_fill_length(old(self).decoder(), old(self).wire().inbox@, old(self).wire().eof, SALT_SIZE as nat);
        }
        match self.obfs_read_exact(SALT_SIZE) {
            Err(e) => Err(e),
            Ok(salt) => {
                let primary = self.cipher.decrypter(salt.as_slice());
                self.read_nonce = zero_bytes(primary.nonce_size());
                self.read_aead = Some(primary);
                if let Some(c) = &self.fallback_cipher {
                    self.fallback_aead = Some(c.decrypter(salt.as_slice()));
                }
                assert(self.read_nonce@ =~= aead::zero_nonce());
                Ok(())
            },
        }
    }

    /// Opens the sealed length of a record.
    fn open_header(&mut self, c: &[u8]) -> (r: Result<Vec<u8>, String>)
        requires
            old(self).wf(),
            old(self).decoder().key is Some,
            c@.len() == 2 + TAG_SIZE,
        ensures
            final(self).wf(),
            final(self).decoder() == open_header(old(self).decoder(), c@).0,
            final(self).encoder() == old(self).encoder(),
            final(self).wire() == old(self).wire(),
            match open_header(old(self).decoder(), c@).1 {
                Some(h) => r matches Ok(v) && v@ == h && h.len() == 2,
                None => r matches Err(e) && e@ == aead::rejection(),
            },
    {
        let nonce = self.read_nonce.as_slice();
        let header = match &self.read_aead {
            None => Err(String::new()),
            Some(primary) => primary.decrypt(nonce, c),
        };
        match header {
            Ok(h) => {
                self.fallback_aead = None;
                step_nonce(&mut self.read_nonce);
                Ok(h)
            },
            Err(e) => {
                let mut taken: Option<AnyAead> = None;
                std::mem::swap(&mut taken, &mut self.fallback_aead);
                match taken {
                    None => Err(e),
                    Some(fallback) => match fallback.decrypt(self.read_nonce.as_slice(), c) {
                        Err(e) => Err(e),
                        Ok(h) => {
                            self.read_aead = Some(fallback);
                            self.switched = true;
                            step_nonce(&mut self.read_nonce);
                            Ok(h)
                        },
                    },
                }
            },
        }
    }

    /// Reads and opens the length of a record.
    fn read_header(&mut self) -> (r: Result<(), IoError>)
        requires
            old(self).wf(),
            old(self).decoder().key is Some,
            old(self).decoder().size is None,
        ensures
            reads_as(
                *old(self),
                read_header(old(self).decoder(), old(self).wire().inbox@, old(self).wire().eof),
                done(r),
                *final(self),
            ),
            r is Ok ==> final(self).decoder().key is Some && final(self).decoder().size is Some,
    {
        proof {
            lemma_fill_length(old(self).decoder(), old(self).wire().inbox@, old(self).wire().eof, 2 + TAG_SIZE as nat);
        }
        match self.obfs_read_exact(2 + TAG_SIZE) {
            Err(e) => Err(e),
            Ok(c) => match self.open_header(c.as_slice()) {
                Err(e) => Err(IoError::Aead(e)),
                Ok(h) => {
                    let size: usize = record_size(h.as_slice());
                    if size == 0 {
                        Err(IoError::ZeroChunk(ZeroChunkError))
                    } else {
                        self.record_size = Some(size);
                        Ok(())
                    }
                },
            },
        }
    }

    /// Reads and opens the payload of a record whose length is known.
    fn read_payload(&mut self, cap: usize) -> (r: Result<Vec<u8>, IoError>)
        requires
            old(self).wf(),
            old(self).decoder().size is Some,
            old(self).decoder().leftover.len() == 0,
        ensures
            reads_as(
                *old(self),
                read_payload(old(self).decoder(), old(self).wire().inbox@, old(self).wire().eof, cap as nat),
                obfs::seen(r),
                *final(self),
            ),
    {
        let size: usize = match self.record_size {
            Some(n) => n,
            None => 0,
        };
        proof {
            lemma_fill_length(
                old(self).decoder(),
                old(self).wire().inbox@,
                old(self).wire().eof,
                size as nat + TAG_SIZE as nat,
            );
        }
        match self.obfs_read_exact(size + TAG_SIZE) {
            Err(IoError::WouldBlock) => Err(IoError::WouldBlock),
            Err(e) => {
                self.record_size = None;
                Err(e)
            },
            Ok(c) => {
                self.record_size = None;
                let nonce = self.read_nonce.as_slice();
                let opened = match &self.read_aead {
                    None => Err(String::new()),
                    Some(a) => a.decrypt(nonce, c.as_slice()),
                };
                match opened {
                    Err(e) => Err(IoError::Aead(e)),
                    Ok(payload) => {
                        step_nonce(&mut self.read_nonce);
                        let (out, rest) = hand_out(payload, cap);
                        self.dec_leftover = rest;
                        Ok(out)
                    },
                }
            },
        }
    }

    /// Reads and opens one record, and hands out up to `cap` bytes of its payload.
    fn read_record(&mut self, cap: usize) -> (r: Result<Vec<u8>, IoError>)
        requires
            old(self).wf(),
            old(self).decoder().key is Some,
            old(self).decoder().leftover.len() == 0,
        ensures
            reads_as(
                *old(self),
                read_record(old(self).decoder(), old(self).wire().inbox@, old(self).wire().eof, cap as nat),
                obfs::seen(r),
                *final(self),
            ),
    {
        if self.record_size.is_none() {
            proof {
                lemma_fill_length(old(self).decoder(), old(self).wire().inbox@, old(self).wire().eof, 2 + TAG_SIZE as nat);
            }
            match self.read_header() {
                Err(e) => {
                    return Err(e);
                },
                Ok(()) => {},
            }
        }
        self.read_payload(cap)
    }

    /// Reads up to `cap` bytes of payload.
    pub fn read_up_to(&mut self, cap: usize) -> (r: Result<Vec<u8>, IoError>)
        requires
            old(self).wf(),
        ensures
            reads_as(
                *old(self),
                snell_read(old(self).decoder(), old(self).wire().inbox@, old(self).wire().eof, cap as nat),
                obfs::seen(r),
                *final(self),
            ),
    {
        proof {
            reveal(snell_read);
        }
        if self.dec_leftover.len() > 0 {
            let mut leftover: Vec<u8> = Vec::new();
            std::mem::swap(&mut leftover, &mut self.dec_leftover);
            let (out, rest) = hand_out(leftover, cap);
            self.dec_leftover = rest;
            return Ok(out);
        }
        if self.read_aead.is_none() {
            proof {
                lemma_fill_length(old(self).decoder(), old(self).wire().inbox@, old(self).wire().eof, SALT_SIZE as nat);
            }
            match self.init_reader() {
                Err(e) => {
                    return Err(e);
                },
                Ok(()) => {},
            }
        }
        self.read_record(cap)
    }

    /// Reads payload into the front of `buf`, and returns how many bytes it put there.
    pub fn snell_read(&mut self, buf: &mut [u8]) -> (r: Result<usize, IoError>)
        requires
            old(self).wf(),
        ensures
            final(buf)@.len() == old(buf)@.len(),
            match r {
                Ok(n) => n <= old(buf)@.len() && final(buf)@.skip(n as int) == old(buf)@.skip(n as int),
                Err(_) => final(buf)@ == old(buf)@,
            },
            reads_as(
                *old(self),
                snell_read(old(self).decoder(), old(self).wire().inbox@, old(self).wire().eof, old(buf)@.len()),
                match r {
                    Ok(n) => Ok(final(buf)@.take(n as int)),
                    Err(e) => Err(e),
                },
                *final(self),
            ),
    {
        proof {
            lemma_read_length(self.decoder(), self.stream.inbox@, self.stream.eof, buf@.len());
        }
        match self.read_up_to(buf.len()) {
            Err(e) => Err(e),
            Ok(out) => {
                let n: usize = out.len();
                obfs::copy_to_front(buf, out.as_slice());
                assert(buf@.take(n as int) =~= out@);
                assert(buf@.skip(n as int) =~= old(buf)@.skip(n as int));
                Ok(n)
            },
        }
    }
}

// ---- Opening a connection ----

/// The server's side of the disguise that an obfuscation type names.
pub open spec fn server_mode(obfs_type: Seq<char>) -> obfs::Kind {
    if obfs_type == "tls"@ {
        obfs::Kind::TlsServer
    } else if obfs_type == "http"@ {
        obfs::Kind::HttpServer
    } else {
        obfs::Kind::Plain
    }
}

/// The client's side of the disguise that an obfuscation type names, with the names that it
/// presents.
pub open spec fn client_writer(obfs_type: Seq<char>, host: Seq<char>, port: Seq<char>) -> Writer {
    if obfs_type == "tls"@ {
        Writer { kind: obfs::Kind::TlsClient, host, port: seq![], first: true }
    } else if obfs_type == "http"@ {
        Writer { kind: obfs::Kind::HttpClient, host, port, first: true }
    } else {
        Writer { kind: obfs::Kind::Plain, host: seq![], port: seq![], first: true }
    }
}

/// A reading half that has read nothing.
pub open spec fn fresh_decoder(kind: obfs::Kind, psk: Seq<u8>, suite: Suite, fallback_suite: Option<Suite>) -> Decoder {
    Decoder {
        obfs: obfs::fresh_reader(kind),
        enc: seq![],
        psk,
        suite,
        fallback_suite,
        key: None,
        fallback: None,
        nonce: seq![],
        size: None,
        leftover: seq![],
        switched: false,
    }
}

/// A writing half that has written nothing.
pub open spec fn fresh_encoder(w: Writer) -> Encoder {
    Encoder { obfs: w, key: None, nonce: seq![] }
}

/// The suite in which a client of the given version speaks.
pub open spec fn client_suite(is_v2: bool) -> Suite {
    if is_v2 {
        Suite::Aes128Gcm
    } else {
        Suite::ChaCha20Poly1305
    }
}

impl SnellConn {
    fn over(stream: Wire, mode: ObfsMode, cipher: AnyCipher, fallback_cipher: Option<AnyCipher>) -> (conn: SnellConn)
        requires
            aead::psk_fits(cipher.psk()),
            fallback_cipher matches Some(c) ==> c.psk() == cipher.psk(),
        ensures
            conn.wf(),
            conn.wire() == stream,
            conn.decoder() == fresh_decoder(
                mode.kind(),
                cipher.psk(),
                cipher.suite(),
                match fallback_cipher {
                    Some(c) => Some(c.suite()),
                    None => None,
                },
            ),
            conn.encoder() == fresh_encoder(Writer { kind: mode.kind(), host: mode.host(), port: mode.port(), first: true }),
    {
        SnellConn {
            stream,
            obfs: ObfsState::new(mode),
            cipher,
            fallback_cipher,
            read_aead: None,
            write_aead: None,
            fallback_aead: None,
            read_nonce: Vec::new(),
            write_nonce: Vec::new(),
            enc_buf: Vec::new(),
            record_size: None,
            dec_leftover: Vec::new(),
            switched: false,
        }
    }

    /// The server's end of a connection: AES-128-GCM, with ChaCha20-Poly1305 to fall back on.
    pub fn new_server_conn(stream: Wire, psk: &[u8], obfs_type: &str) -> (r: Result<SnellConn, IoError>)
        requires
            aead::psk_fits(psk@),
        ensures
            r matches Ok(conn) && conn.wf() && conn.wire() == stream && conn.decoder() == fresh_decoder(
                server_mode(obfs_type@),
                psk@,
                Suite::Aes128Gcm,
                Some(Suite::ChaCha20Poly1305),
            ) && conn.encoder() == fresh_encoder(
                Writer { kind: server_mode(obfs_type@), host: seq![], port: seq![], first: true },
            ),
    {
        let cipher = aead::new_aes128_gcm(psk);
        let fallback_cipher = aead::new_chacha20_poly1305(psk);
        let mode = if text::same_str(obfs_type, "tls") {
            ObfsMode::TlsServer
        } else if text::same_str(obfs_type, "http") {
            ObfsMode::HttpServer
        } else {
            ObfsMode::Plain
        };
        Ok(SnellConn::over(stream, mode, cipher, Some(fallback_cipher)))
    }

    /// The client's end of a connection, in the suite of its version.
    pub fn new_client_conn(
        stream: Wire,
        psk: &[u8],
        obfs_type: &str,
        obfs_host: &str,
        server_port: &str,
        is_v2: bool,
    ) -> (r: Result<SnellConn, IoError>)
        requires
            aead::psk_fits(psk@),
        ensures
            r matches Ok(conn) && conn.wf() && conn.wire() == stream && conn.decoder() == fresh_decoder(
                client_writer(obfs_type@, obfs_host@, server_port@).kind,
                psk@,
                client_suite(is_v2),
                None,
            ) && conn.encoder() == fresh_encoder(client_writer(obfs_type@, obfs_host@, server_port@)),
    {
        let cipher = if is_v2 {
            aead::new_aes128_gcm(psk)
        } else {
            aead::new_chacha20_poly1305(psk)
        };
        let mode = if text::same_str(obfs_type, "tls") {
            ObfsMode::TlsClient { host: obfs_host.to_owned() }
        } else if text::same_str(obfs_type, "http") {
            ObfsMode::HttpClient { host: obfs_host.to_owned(), port: server_port.to_owned() }
        } else {
            ObfsMode::Plain
        };
        Ok(SnellConn::over(stream, mode, cipher, None))
    }

    /// Takes in bytes that arrived.
    pub fn feed(&mut self, data: &[u8])
        requires
            old(self).wf(),
        ensures
            final(self).wf(),
            final(self).decoder() == old(self).decoder(),
            final(self).encoder() == old(self).encoder(),
            final(self).wire().inbox@ == old(self).wire().inbox@ + data@,
            final(self).wire().eof == old(self).wire().eof,
            final(self).wire().outbox@ == old(self).wire().outbox@,
    {
        self.stream.feed(data);
    }

    /// Notes that the peer has closed the stream.
    pub fn close(&mut self)
        requires
            old(self).wf(),
        ensures
            final(self).wf(),
            final(self).decoder() == old(self).decoder(),
            final(self).encoder() == old(self).encoder(),
            final(self).wire().inbox@ == old(self).wire().inbox@,
            final(self).wire().eof,
            final(self).wire().outbox@ == old(self).wire().outbox@,
    {
        self.stream.close();
    }

    /// Hands out the bytes to be sent.
    pub fn take_output(&mut self) -> (out: Vec<u8>)
        requires
            old(self).wf(),
        ensures
            final(self).wf(),
            final(self).decoder() == old(self).decoder(),
            final(self).encoder() == old(self).encoder(),
            final(self).wire().inbox@ == old(self).wire().inbox@,
            final(self).wire().eof == old(self).wire().eof,
            final(self).wire().outbox@ == Seq::<u8>::empty(),
            out@ == old(self).wire().outbox@,
    {
        self.stream.take_output()
    }
}

// ---- The writing half ----

/// The suite in which a connection writes: its own, or the fallback suite once that is taken up.
pub open spec fn write_suite(d: Decoder) -> Suite {
    match d.fallback_suite {
        Some(suite) => if d.switched {
            suite
        } else {
            d.suite
        },
        None => d.suite,
    }
}

/// A record that carries up to `PAYLOAD_SIZE_MASK` bytes.
pub open spec fn record(k: SessionKey, nonce: Seq<u8>, payload: Seq<u8>) -> Seq<u8> {
    let header = seal_with(k, nonce, tls::be16(payload.len() as int));
    if payload.len() == 0 {
        header
    } else {
        header + seal_with(k, aead::next_nonce(nonce), payload)
    }
}

/// Whether a sealed message opens again.
pub open spec fn opens_back(k: SessionKey, nonce: Seq<u8>, p: Seq<u8>) -> bool {
    &&& open_with(k, nonce, seal_with(k, nonce, p)) == Some(p)
    &&& seal_with(k, nonce, p).len() == p.len() + TAG_SIZE
}

/// Whether the messages of a record open again.
pub open spec fn record_opens(k: SessionKey, nonce: Seq<u8>, payload: Seq<u8>) -> bool {
    &&& opens_back(k, nonce, tls::be16(payload.len() as int))
    &&& payload.len() > 0 ==> opens_back(k, aead::next_nonce(nonce), payload)
}

/// The nonce behind a record.
pub open spec fn nonce_behind(nonce: Seq<u8>, payload: Seq<u8>) -> Seq<u8> {
    if payload.len() == 0 {
        aead::next_nonce(nonce)
    } else {
        aead::next_nonce(aead::next_nonce(nonce))
    }
}

/// The payloads of the records that carry `data`: one without payload where there is no data, else
/// as few as hold it, all but the last of them full.
pub open spec fn chunks(data: Seq<u8>) -> Seq<Seq<u8>>
    decreases data.len(),
{
    if data.len() <= PAYLOAD_SIZE_MASK {
        seq![data]
    } else {
        seq![data.take(PAYLOAD_SIZE_MASK as int)] + chunks(data.skip(PAYLOAD_SIZE_MASK as int))
    }
}

/// The nonce behind some records.
pub open spec fn nonce_behind_all(nonce: Seq<u8>, payloads: Seq<Seq<u8>>) -> Seq<u8>
    decreases payloads.len(),
{
    if payloads.len() == 0 {
        nonce
    } else {
        nonce_behind(nonce_behind_all(nonce, payloads.drop_last()), payloads.last())
    }
}

/// Records that carry the given payloads.
pub open spec fn records(k: SessionKey, nonce: Seq<u8>, payloads: Seq<Seq<u8>>) -> Seq<Seq<u8>>
    decreases payloads.len(),
{
    if payloads.len() == 0 {
        seq![]
    } else {
        records(k, nonce, payloads.drop_last()).push(
            record(k, nonce_behind_all(nonce, payloads.drop_last()), payloads.last()),
        )
    }
}

/// Whether the messages of all the records open again.
pub open spec fn records_open(k: SessionKey, nonce: Seq<u8>, payloads: Seq<Seq<u8>>) -> bool
    decreases payloads.len(),
{
    payloads.len() > 0 ==> {
        &&& records_open(k, nonce, payloads.drop_last())
        &&& record_opens(k, nonce_behind_all(nonce, payloads.drop_last()), payloads.last())
    }
}

/// The key and the nonce with which a write starts: those of the writing half, or those that a
/// fresh salt opens.
pub open spec fn write_key(e: Encoder, suite: Suite, psk: Seq<u8>, salt: Seq<u8>) -> (SessionKey, Seq<u8>) {
    match e.key {
        Some(k) => (k, e.nonce),
        None => (session(suite, psk, salt), aead::zero_nonce()),
    }
}

/// What a write hands to the obfuscation layer, one after the other: the salt, where none is
/// written yet, and the records.
pub open spec fn messages(e: Encoder, suite: Suite, psk: Seq<u8>, salt: Seq<u8>, payloads: Seq<Seq<u8>>) -> Seq<Seq<u8>> {
    let (k, nonce) = write_key(e, suite, psk, salt);
    (if e.key is Some {
        seq![]
    } else {
        seq![salt]
    }) + records(k, nonce, payloads)
}

/// Whether a write of records with the given payloads can put `out` on the wire and leave `after`.
/// The salt is random.
pub open spec fn sends(
    e: Encoder,
    suite: Suite,
    psk: Seq<u8>,
    salt: Seq<u8>,
    payloads: Seq<Seq<u8>>,
    out: Seq<u8>,
    after: Encoder,
) -> bool {
    let (k, nonce) = write_key(e, suite, psk, salt);
    let all = messages(e, suite, psk, salt, payloads);
    &&& salt.len() == SALT_SIZE
    &&& records_open(k, nonce, payloads)
    &&& obfs::writes_each(e.obfs, all, out)
    &&& after == (Encoder {
        obfs: obfs::writer_after(e.obfs, all.len()),
        key: Some(k),
        nonce: nonce_behind_all(nonce, payloads),
    })
}

/// Whether `data` went out in records, behind what was to be sent before.
pub open spec fn sent(before: SnellConn, suite: Suite, psk: Seq<u8>, data: Seq<u8>, after: SnellConn) -> bool {
    &&& after.wire().outbox@ == before.wire().outbox@ + obfs::appended(before.wire(), after.wire())
    &&& exists|salt: Seq<u8>| #[trigger]
        sends(
            before.encoder(),
            suite,
            psk,
            salt,
            chunks(data),
            obfs::appended(before.wire(), after.wire()),
            after.encoder(),
        )
}

/// What the methods of the writing half promise: the data goes out in records, and neither the
/// reading half nor the bytes that arrived are touched.
pub open spec fn wrote(before: SnellConn, data: Seq<u8>, after: SnellConn) -> bool {
    &&& after.wf()
    &&& after.decoder() == before.decoder()
    &&& after.wire().inbox@ == before.wire().inbox@
    &&& after.wire().eof == before.wire().eof
    &&& sent(before, write_suite(before.decoder()), before.decoder().psk, data, after)
}

/// What writing one message through the obfuscation layer changes.
pub open spec fn put(before: SnellConn, message: Seq<u8>, after: SnellConn) -> bool {
    &&& after.decoder() == before.decoder()
    &&& after.encoder().obfs == obfs::after_write(before.encoder().obfs)
    &&& after.wire().inbox@ == before.wire().inbox@
    &&& after.wire().eof == before.wire().eof
    &&& after.wire().outbox@ == before.wire().outbox@ + obfs::appended(before.wire(), after.wire())
    &&& obfs::writes(before.encoder().obfs, message, obfs::appended(before.wire(), after.wire()))
}

proof fn lemma_sends_nothing(e: Encoder, suite: Suite, psk: Seq<u8>, salt: Seq<u8>)
    requires
        salt.len() == SALT_SIZE,
        e.key is Some,
    ensures
        sends(e, suite, psk, salt, seq![], seq![], e),
{
    assert(messages(e, suite, psk, salt, seq![]) =~= seq![]);
}

proof fn lemma_sends_salt(e: Encoder, suite: Suite, psk: Seq<u8>, salt: Seq<u8>, out: Seq<u8>, after: Encoder)
    requires
        salt.len() == SALT_SIZE,
        e.key is None,
        obfs::writes(e.obfs, salt, out),
        after == (Encoder {
            obfs: obfs::after_write(e.obfs),
            key: Some(session(suite, psk, salt)),
            nonce: aead::zero_nonce(),
        }),
    ensures
        sends(e, suite, psk, salt, seq![], out, after),
{
    let none: Seq<Seq<u8>> = seq![];
    let nothing: Seq<u8> = seq![];
    assert(messages(e, suite, psk, salt, none) =~= none.push(salt));
    assert(obfs::writes_each(e.obfs, none, nothing));
    obfs::lemma_writes_push(e.obfs, none, nothing, salt, out);
    assert(nothing + out =~= out);
}

proof fn lemma_sends_push(
    e: Encoder,
    suite: Suite,
    psk: Seq<u8>,
    salt: Seq<u8>,
    payloads: Seq<Seq<u8>>,
    out: Seq<u8>,
    mid: Encoder,
    payload: Seq<u8>,
    more: Seq<u8>,
    after: Encoder,
)
    requires
        sends(e, suite, psk, salt, payloads, out, mid),
        obfs::writes(mid.obfs, record(mid.key.unwrap(), mid.nonce, payload), more),
        record_opens(mid.key.unwrap(), mid.nonce, payload),
        after == (Encoder { obfs: obfs::after_write(mid.obfs), nonce: nonce_behind(mid.nonce, payload), ..mid }),
    ensures
        sends(e, suite, psk, salt, payloads.push(payload), out + more, after),
{
    let (k, nonce) = write_key(e, suite, psk, salt);
    let next = payloads.push(payload);
    let all = messages(e, suite, psk, salt, payloads);
    assert(next.drop_last() =~= payloads);
    assert(messages(e, suite, psk, salt, next) =~= all.push(record(k, mid.nonce, payload)));
    obfs::lemma_writes_push(e.obfs, all, out, record(k, mid.nonce, payload), more);
}

impl SnellConn {
    /// Writes one message through the obfuscation layer.
    fn put(&mut self, message: &[u8])
        requires
            old(self).wf(),
        ensures
            final(self).wf(),
            put(*old(self), message@, *final(self)),
            final(self).encoder().key == old(self).encoder().key,
            final(self).encoder().nonce == old(self).encoder().nonce,
    {
        let _written = self.obfs.write(&mut self.stream, message);
    }

    /// Writes a fresh salt, derives the session key from it and returns it.
    fn init_writer(&mut self) -> (salt: Vec<u8>)
        requires
            old(self).wf(),
        ensures
            final(self).wf(),
            put(*old(self), salt@, *final(self)),
            salt@.len() == SALT_SIZE,
            final(self).encoder().key == Some(session(write_suite(old(self).decoder()), old(self).decoder().psk, salt@)),
            final(self).encoder().nonce == aead::zero_nonce(),
    {
        let salt = random_bytes(SALT_SIZE);
        let enc = match &self.fallback_cipher {
            Some(c) => if self.switched {
                c.encrypter(salt.as_slice())
            } else {
                self.cipher.encrypter(salt.as_slice())
            },
            None => self.cipher.encrypter(salt.as_slice()),
        };
        self.put(salt.as_slice());
        self.write_nonce = zero_bytes(enc.nonce_size());
        self.write_aead = Some(enc);
        assert(self.write_nonce@ =~= aead::zero_nonce());
        salt
    }

    /// Seals one message and steps the nonce.
    fn seal_next(&mut self, p: &[u8]) -> (c: Vec<u8>)
        requires
            old(self).wf(),
            old(self).encoder().key is Some,
            p@.len() <= PAYLOAD_SIZE_MASK,
        ensures
            final(self).wf(),
            final(self).decoder() == old(self).decoder(),
            final(self).wire() == old(self).wire(),
            final(self).encoder() == (Encoder {
                nonce: aead::next_nonce(old(self).encoder().nonce),
                ..old(self).encoder()
            }),
            c@ == seal_with(old(self).encoder().key.unwrap(), old(self).encoder().nonce, p@),
            opens_back(old(self).encoder().key.unwrap(), old(self).encoder().nonce, p@),
    {
        let nonce = self.write_nonce.as_slice();
        let sealed = match &self.write_aead {
            None => Err(String::new()),
            Some(a) => a.encrypt(nonce, p),
        };
        let c = match sealed {
            Ok(c) => c,
            Err(_) => Vec::new(),
        };
        step_nonce(&mut self.write_nonce);
        c
    }

    /// Writes one record.
    fn write_chunk(&mut self, payload: &[u8])
        requires
            old(self).wf(),
            old(self).encoder().key is Some,
            payload@.len() <= PAYLOAD_SIZE_MASK,
        ensures
            final(self).wf(),
            put(
                *old(self),
                record(old(self).encoder().key.unwrap(), old(self).encoder().nonce, payload@),
                *final(self),
            ),
            record_opens(old(self).encoder().key.unwrap(), old(self).encoder().nonce, payload@),
            final(self).encoder().key == old(self).encoder().key,
            final(self).encoder().nonce == nonce_behind(old(self).encoder().nonce, payload@),
    {
        let mut header: Vec<u8> = Vec::new();
        tls::push_be16(&mut header, payload.len());
        assert(header@ =~= tls::be16(payload@.len() as int));
        let mut out = self.seal_next(header.as_slice());
        if payload.len() > 0 {
            let sealed = self.seal_next(payload);
            tls::push_bytes(&mut out, sealed.as_slice());
        }
        self.put(out.as_slice());
    }

    /// Writes payload in records; without payload, writes the record that ends a stream. Returns
    /// the number of bytes.
    pub fn snell_write(&mut self, data: &[u8]) -> (r: Result<usize, IoError>)
        requires
            old(self).wf(),
        ensures
            r matches Ok(n) && n == data@.len(),
            wrote(*old(self), data@, *final(self)),
    {
        let ghost before = *self;
        let ghost suite = write_suite(self.decoder());
        let ghost psk = self.decoder().psk;
        let ghost mut salt: Seq<u8> = aead::zero_nonce() + seq![0u8, 0u8, 0u8, 0u8];
        let ghost mut payloads: Seq<Seq<u8>> = seq![];
        if self.write_aead.is_none() {
            let fresh = self.init_writer();
            proof {
                salt = fresh@;
                assert(self.encoder() =~= Encoder {
                    obfs: obfs::after_write(before.encoder().obfs),
                    key: Some(session(suite, psk, salt)),
                    nonce: aead::zero_nonce(),
                });
                lemma_sends_salt(
                    before.encoder(),
                    suite,
                    psk,
                    salt,
                    obfs::appended(before.wire(), self.wire()),
                    self.encoder(),
                );
            }
        } else {
            proof {
                assert(obfs::appended(before.wire(), self.wire()) =~= seq![]);
                lemma_sends_nothing(before.encoder(), suite, psk, salt);
            }
        }
        let n: usize = data.len();
        let mut written: usize = 0;
        let mut first: bool = true;
        assert(data@.skip(0) =~= data@);
        assert(payloads + chunks(data@.skip(0)) =~= chunks(data@));
        while first || written < n
            invariant
                before == *old(self),
                suite == write_suite(before.decoder()),
                psk == before.decoder().psk,
                n == data@.len(),
                written <= n,
                first ==> written == 0,
                self.wf(),
                self.encoder().key is Some,
                self.decoder() == before.decoder(),
                self.wire().inbox@ == before.wire().inbox@,
                self.wire().eof == before.wire().eof,
                self.wire().outbox@ == before.wire().outbox@ + obfs::appended(before.wire(), self.wire()),
                sends(
                    before.encoder(),
                    suite,
                    psk,
                    salt,
                    payloads,
                    obfs::appended(before.wire(), self.wire()),
                    self.encoder(),
                ),
                first || written < n ==> payloads + chunks(data@.skip(written as int)) == chunks(data@),
                !first && written == n ==> payloads == chunks(data@),
            decreases n - written, (if first { 1int } else { 0int }),
        {
            let end: usize = if n - written > PAYLOAD_SIZE_MASK { written + PAYLOAD_SIZE_MASK } else { n };
            let chunk: &[u8] = vstd::slice::slice_subrange(data, written, end);
            let ghost prior = *self;
            let ghost rest = data@.skip(written as int);
            self.write_chunk(chunk);
            proof {
                let out = obfs::appended(before.wire(), prior.wire());
                let more = obfs::appended(prior.wire(), self.wire());
                assert(self.encoder() =~= Encoder {
                    obfs: obfs::after_write(prior.encoder().obfs),
                    nonce: nonce_behind(prior.encoder().nonce, chunk@),
                    ..prior.encoder()
                });
                lemma_sends_push(
                    before.encoder(),
                    suite,
                    psk,
                    salt,
                    payloads,
                    out,
                    prior.encoder(),
                    chunk@,
                    more,
                    self.encoder(),
                );
                assert(obfs::appended(before.wire(), self.wire()) =~= out + more);
                assert(self.wire().outbox@ =~= before.wire().outbox@ + (out + more));
                if rest.len() <= PAYLOAD_SIZE_MASK {
                    assert(chunk@ =~= rest);
                    assert(payloads.push(chunk@) =~= payloads + chunks(rest));
                } else {
                    assert(chunk@ =~= rest.take(PAYLOAD_SIZE_MASK as int));
                    assert(data@.skip(end as int) =~= rest.skip(PAYLOAD_SIZE_MASK as int));
                    assert(payloads.push(chunk@) + chunks(data@.skip(end as int)) =~= payloads + chunks(rest));
                }
                payloads = payloads.push(chunk@);
            }
            written = end;
            first = false;
        }
        Ok(n)
    }

    /// Writes the record that ends a stream.
    pub fn write_zero_chunk(&mut self) -> (r: Result<(), IoError>)
        requires
            old(self).wf(),
        ensures
            r is Ok,
            wrote(*old(self), seq![], *final(self)),
    {
        let nothing: Vec<u8> = Vec::new();
        let _written = self.snell_write(nothing.as_slice());
        assert(nothing@ =~= seq![]);
        Ok(())
    }
}

/// A read hands out no more than was asked for.
pub proof fn lemma_read_length(d: Decoder, s: Seq<u8>, eof: bool, cap: nat)
    ensures
        snell_read(d, s, eof, cap).result matches Ok(out) ==> out.len() <= cap,
{
    reveal(snell_read);
}

/// What is left of an opened record is handed out first.
pub proof fn lemma_read_leftover(d: Decoder, s: Seq<u8>, eof: bool, cap: nat)
    requires
        0 < cap <= d.leftover.len(),
    ensures
        snell_read(d, s, eof, cap) == (Taken {
            next: Decoder { leftover: d.leftover.skip(cap as int), ..d },
            rest: s,
            result: Ok(d.leftover.take(cap as int)),
        }),
{
    reveal(snell_read);
}

/// The payload length that an opened header holds: its low 14 bits.
pub fn record_size(header: &[u8]) -> (n: usize)
    requires
        header@.len() == 2,
    ensures
        n == header_size(header@),
        n <= PAYLOAD_SIZE_MASK,
{
    (header[0] as usize * 256 + header[1] as usize) % (PAYLOAD_SIZE_MASK + 1)
}

/// Splits opened payload into up to `cap` bytes that are handed out and what is left.
pub fn hand_out(payload: Vec<u8>, cap: usize) -> (r: (Vec<u8>, Vec<u8>))
    ensures
        r.0@ == payload@.take(obfs::least(cap as nat, payload@.len()) as int),
        r.1@ == payload@.skip(obfs::least(cap as nat, payload@.len()) as int),
{
    let ghost whole = payload@;
    let mut out = payload;
    let n: usize = if cap < out.len() { cap } else { out.len() };
    let rest = out.split_off(n);
    assert(out@ =~= whole.take(n as int));
    assert(rest@ =~= whole.skip(n as int));
    (out, rest)
}

/// Some zero bytes.
pub(crate) fn zero_bytes(n: usize) -> (r: Vec<u8>)
    ensures
        r@ == Seq::new(n as nat, |i: int| 0u8),
{
    let mut r: Vec<u8> = Vec::new();
    while r.len() < n
        invariant
            r@.len() <= n,
            forall|i: int| 0 <= i < r@.len() ==> r@[i] == 0,
        decreases n - r@.len(),
    {
        r.push(0);
    }
    assert(r@ =~= Seq::new(n as nat, |i: int| 0u8));
    r
}

fn step_nonce(nonce: &mut Vec<u8>)
    ensures
        final(nonce)@ == aead::next_nonce(old(nonce)@),
        final(nonce)@.len() == old(nonce)@.len(),
{
    aead::increment_nonce(nonce.as_mut_slice());
}

/// Filling up to `n` bytes changes nothing but the obfuscation layer and what came through it.
pub proof fn lemma_fill_length(d: Decoder, s: Seq<u8>, eof: bool, n: nat)
    ensures
        fill(d, s, eof, n).result is Ok ==> fill(d, s, eof, n).next.enc.len() >= n,
        fill(d, s, eof, n).next == (Decoder { obfs: fill(d, s, eof, n).next.obfs, enc: fill(d, s, eof, n).next.enc, ..d }),
    decreases (if d.enc.len() < n { n - d.enc.len() } else { 0 }),
{
    if d.enc.len() < n {
        match obfs::obfs_read(d.obfs, s, eof, FILL_SIZE as nat) {
            Outcome::Starved => {},
            Outcome::Cut { .. } => {},
            Outcome::Data { consumed, out, next } => {
                if out.len() > 0 {
                    lemma_fill_length(Decoder { obfs: next, enc: d.enc + out, ..d }, s.skip(consumed as int), eof, n);
                }
            },
        }
    }
}

}
