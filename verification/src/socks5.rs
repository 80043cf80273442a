//! The SOCKS5 front end: the handshake with a local application, and the addresses that it names.
use crate::addr;
use crate::addr::SocketAddr;
use crate::handshake;
use crate::text;
use crate::tls;
use crate::wire;
use crate::wire::{IoError, OsError, Wire};
use vstd::prelude::*;
use vstd::string::StringExecFns;

verus! {

pub const CMD_CONNECT: u8 = 1;

pub const CMD_UDP_ASSOCIATE: u8 = 3;

pub const ATYP_IPV4: u8 = 1;

pub const ATYP_DOMAIN: u8 = 3;

pub const ATYP_IPV6: u8 = 4;

/// Bytes of the longest address: the type, a length, a name of 255 bytes and the port.
pub const MAX_ADDR_LEN: usize = 1 + 1 + 255 + 2;

// ---- Addresses ----

/// An address as SOCKS5 writes it: its type, the host and the port.
#[derive(Clone, Debug)]
pub struct SocksAddr {
    pub data: Vec<u8>,
}

/// The text of an address: host, colon and port, with an IPv6 host in brackets. Bytes that are no
/// address have an empty text.
pub open spec fn addr_text(data: Seq<u8>) -> Seq<char> {
    if data.len() >= 7 && data[0] == ATYP_IPV4 {
        handshake::target_text(addr::ipv4_text(data.subrange(1, 5)), tls::from_be16(data[5], data[6]))
    } else if data.len() >= 4 && data[0] == ATYP_DOMAIN && data.len() >= data[1] + 4 {
        handshake::target_text(
            text::lossy_text(data.subrange(2, 2 + data[1] as int)),
            tls::from_be16(data[2 + data[1] as int], data[3 + data[1] as int]),
        )
    } else if data.len() >= 19 && data[0] == ATYP_IPV6 {
        handshake::target_text("["@ + addr::ipv6_text(data.subrange(1, 17)) + "]"@, tls::from_be16(data[17], data[18]))
    } else {
        seq![]
    }
}

/// A socket address as SOCKS5 writes it.
pub open spec fn addr_bytes(a: SocketAddr) -> Seq<u8> {
    match a {
        SocketAddr::V4 { ip, port } => seq![ATYP_IPV4] + ip@ + tls::be16(port as int),
        SocketAddr::V6 { ip, port, .. } => seq![ATYP_IPV6] + ip@ + tls::be16(port as int),
    }
}

impl SocksAddr {
    /// The text of the address.
    pub fn to_string_addr(&self) -> (r: String)
        ensures
            r@ == addr_text(self.data@),
    {
        let data: &[u8] = self.data.as_slice();
        let n: usize = data.len();
        if n >= 7 && data[0] == ATYP_IPV4 {
            let ip = addr::ipv4_string(vstd::slice::slice_subrange(data, 1, 5));
            let port: u16 = data[5] as u16 * 256 + data[6] as u16;
            handshake::target_string(ip.as_str(), port)
        } else if n >= 4 && data[0] == ATYP_DOMAIN && n >= data[1] as usize + 4 {
            let len: usize = data[1] as usize;
            let host = text::text_of_bytes(vstd::slice::slice_subrange(data, 2, 2 + len));
            let port: u16 = data[2 + len] as u16 * 256 + data[3 + len] as u16;
            handshake::target_string(host.as_str(), port)
        } else if n >= 19 && data[0] == ATYP_IPV6 {
            let mut ip = String::from_str("[");
            ip.append(addr::ipv6_string(vstd::slice::slice_subrange(data, 1, 17)).as_str());
            ip.append("]");
            let port: u16 = data[17] as u16 * 256 + data[18] as u16;
            handshake::target_string(ip.as_str(), port)
        } else {
            let none = String::new();
            assert(none@ =~= seq![]);
            none
        }
    }

    /// A socket address as SOCKS5 writes it.
    pub fn from_socket_addr(a: &SocketAddr) -> (r: SocksAddr)
        ensures
            r.data@ == addr_bytes(*a),
    {
        let mut data: Vec<u8> = Vec::new();
        match a {
            SocketAddr::V4 { ip, port } => {
                data.push(ATYP_IPV4);
                tls::push_bytes(&mut data, ip.as_slice());
                tls::push_be16(&mut data, *port as usize);
            },
            SocketAddr::V6 { ip, port, .. } => {
                data.push(ATYP_IPV6);
                tls::push_bytes(&mut data, ip.as_slice());
                tls::push_be16(&mut data, *port as usize);
            },
        }
        assert(data@ =~= addr_bytes(*a));
        SocksAddr { data }
    }
}

/// The text of a socket address.
pub open spec fn socket_text(a: SocketAddr) -> Seq<char> {
    match a {
        SocketAddr::V4 { ip, port } => handshake::target_text(addr::ipv4_text(ip@), port as nat),
        SocketAddr::V6 { ip, port, .. } => handshake::target_text("["@ + addr::ipv6_text(ip@) + "]"@, port as nat),
    }
}

/// A socket address keeps its host and port through the form that SOCKS5 writes.
pub proof fn lemma_addr_round_trip(a: SocketAddr)
    ensures
        addr_text(addr_bytes(a)) == socket_text(a),
{
    match a {
        SocketAddr::V4 { ip, port } => {
            tls::lemma_be16_round_trip(port as int);
            assert(addr_bytes(a).subrange(1, 5) =~= ip@);
        },
        SocketAddr::V6 { ip, port, .. } => {
            tls::lemma_be16_round_trip(port as int);
            assert(addr_bytes(a).subrange(1, 17) =~= ip@);
        },
    }
}

// ---- The handshake ----

/// What is read next of an application.
#[derive(Clone, Copy, PartialEq, Eq, Structural, Debug)]
pub enum SocksPart {
    /// The version and the authentication methods.
    Greeting,
    /// The command and the address.
    Request,
}

/// What keeps a handshake from an end.
pub enum SocksStop {
    /// Bytes are lacking.
    Lacking,
    /// The greeting is of another version.
    NotSocks5,
    /// The address has an unknown type.
    AddressType,
    /// The command is not supported.
    Command,
    /// The local address cannot be had.
    NoLocalAddress { code: Option<i32>, text: Seq<char> },
}

/// Number of bytes of a greeting.
pub open spec fn greeting(s: Seq<u8>) -> Result<nat, SocksStop> {
    if s.len() < 2 {
        Err(SocksStop::Lacking)
    } else if s[0] != 5 {
        Err(SocksStop::NotSocks5)
    } else if s.len() < 2 + s[1] {
        Err(SocksStop::Lacking)
    } else {
        Ok((2 + s[1]) as nat)
    }
}

/// Number of bytes of an address.
pub open spec fn addr_len(s: Seq<u8>) -> Result<nat, SocksStop> {
    let len: int = if s.len() == 0 {
        1
    } else if s[0] == ATYP_DOMAIN {
        if s.len() < 2 {
            2
        } else {
            4 + s[1]
        }
    } else if s[0] == ATYP_IPV4 {
        7
    } else {
        19
    };
    if s.len() > 0 && s[0] != ATYP_DOMAIN && s[0] != ATYP_IPV4 && s[0] != ATYP_IPV6 {
        Err(SocksStop::AddressType)
    } else if s.len() < len {
        Err(SocksStop::Lacking)
    } else {
        Ok(len as nat)
    }
}

/// Number of bytes of a request: three, of which the second is the command, and the address.
pub open spec fn request_len(s: Seq<u8>) -> Result<nat, SocksStop> {
    if s.len() < 3 {
        Err(SocksStop::Lacking)
    } else {
        match addr_len(s.skip(3)) {
            Ok(n) => Ok(3 + n),
            Err(stop) => Err(stop),
        }
    }
}

/// What a handshake comes to: what is read next, the unread bytes, what is written, and the address
/// and the command.
pub struct Greeted {
    pub part: SocksPart,
    pub rest: Seq<u8>,
    pub written: Seq<u8>,
    pub result: Result<(Seq<u8>, u8), SocksStop>,
}

/// The answer to a request: the address that the application is connected to.
pub open spec fn answer(local: SocketAddr) -> Seq<u8> {
    seq![5u8, 0u8, 0u8] + addr_bytes(local)
}

/// Whether a handshake lacks bytes that may still come.
pub open spec fn pauses(stop: SocksStop, eof: bool) -> bool {
    stop is Lacking && !eof
}

/// The handshake from the request on. An address of an unknown type is refused as soon as its type
/// is read, so what stands behind the type stays unread.
pub open spec fn request_step(s: Seq<u8>, eof: bool, local: Result<SocketAddr, OsError>) -> Greeted {
    match request_len(s) {
        Err(stop) => Greeted {
            part: if pauses(stop, eof) {
                SocksPart::Request
            } else {
                SocksPart::Greeting
            },
            rest: if stop is AddressType {
                s.skip(4)
            } else {
                wire::left(s, eof)
            },
            written: seq![],
            result: Err(stop),
        },
        Ok(n) => {
            let rest = s.skip(n as int);
            let command = s[1];
            let target = s.subrange(3, n as int);
            if command != CMD_CONNECT && command != CMD_UDP_ASSOCIATE {
                Greeted { part: SocksPart::Greeting, rest, written: seq![], result: Err(SocksStop::Command) }
            } else {
                match local {
                    Err(e) => Greeted {
                        part: SocksPart::Greeting,
                        rest,
                        written: seq![],
                        result: Err(SocksStop::NoLocalAddress { code: e.code, text: e.text@ }),
                    },
                    Ok(a) => Greeted { part: SocksPart::Greeting, rest, written: answer(a), result: Ok((target, command)) },
                }
            }
        },
    }
}

/// The handshake: a greeting is answered with "no authentication", and a request for a tunnel or
/// for UDP with success. A greeting of another version is refused behind its first two bytes.
pub open spec fn socks_handshake(part: SocksPart, s: Seq<u8>, eof: bool, local: Result<SocketAddr, OsError>) -> Greeted {
    match part {
        SocksPart::Request => request_step(s, eof, local),
        SocksPart::Greeting => match greeting(s) {
            Err(stop) => Greeted {
                part,
                rest: if stop is NotSocks5 {
                    s.skip(2)
                } else {
                    wire::left(s, eof)
                },
                written: seq![],
                result: Err(stop),
            },
            Ok(n) => {
                let next = request_step(s.skip(n as int), eof, local);
                Greeted { written: seq![5u8, 0u8] + next.written, ..next }
            },
        },
    }
}

/// A handshake may arrive in pieces: on the front of what an application sends it comes to what it
/// comes to on all of it, and leaves the rest; or it lacks bytes, and goes on to that, with the same
/// answers, once the rest has arrived.
pub proof fn lemma_handshake_in_pieces(part: SocksPart, a: Seq<u8>, b: Seq<u8>, eof: bool, local: Result<SocketAddr, OsError>)
    ensures
        ({
            let g = socks_handshake(part, a, false, local);
            let w = socks_handshake(part, a + b, eof, local);
            if g.result == Err::<(Seq<u8>, u8), SocksStop>(SocksStop::Lacking) {
                let again = socks_handshake(g.part, g.rest + b, eof, local);
                again.result == w.result && again.part == w.part && again.rest == w.rest && g.written + again.written
                    == w.written
            } else {
                g.result == w.result && g.part == w.part && g.rest + b == w.rest && g.written == w.written
            }
        }),
{
    let none: Seq<u8> = seq![];
    let w = socks_handshake(part, a + b, eof, local);
    assert(none + w.written =~= w.written);
    match part {
        SocksPart::Request => lemma_request_in_pieces(a, b, eof, local),
        SocksPart::Greeting => match greeting(a) {
            Ok(n) => {
                assert((a + b).skip(n as int) =~= a.skip(n as int) + b);
                lemma_request_in_pieces(a.skip(n as int), b, eof, local);
            },
            Err(stop) => {
                if stop is NotSocks5 {
                    assert((a + b).skip(2) =~= a.skip(2) + b);
                }
            },
        },
    }
}

proof fn lemma_request_in_pieces(a: Seq<u8>, b: Seq<u8>, eof: bool, local: Result<SocketAddr, OsError>)
    ensures
        ({
            let g = request_step(a, false, local);
            let w = request_step(a + b, eof, local);
            if g.result == Err::<(Seq<u8>, u8), SocksStop>(SocksStop::Lacking) {
                g.rest == a && g.part == SocksPart::Request && g.written.len() == 0
            } else {
                g.result == w.result && g.part == w.part && g.rest + b == w.rest && g.written == w.written
            }
        }),
{
    if a.len() >= 3 {
        assert((a + b).skip(3) =~= a.skip(3) + b);
        match request_len(a) {
            Ok(n) => {
                assert((a + b).skip(n as int) =~= a.skip(n as int) + b);
                assert((a + b).subrange(3, n as int) =~= a.subrange(3, n as int));
            },
            Err(stop) => {
                if stop is AddressType {
                    assert((a + b).skip(4) =~= a.skip(4) + b);
                }
            },
        }
    }
}

/// Whether an error tells what stopped a handshake.
pub open spec fn tells(e: IoError, stop: SocksStop, eof: bool) -> bool {
    match stop {
        SocksStop::Lacking => wire::starved(e, eof),
        SocksStop::NotSocks5 => e is NotSocks5,
        SocksStop::AddressType => e is InvalidAddressType,
        SocksStop::Command => e is UnsupportedCommand,
        SocksStop::NoLocalAddress { code, text } => e matches IoError::Os(o) && o.code == code && o.text@ == text,
    }
}

/// What a handshake promises.
pub open spec fn greets(before: Wire, g: Greeted, r: Result<(SocksAddr, u8), IoError>, part: SocksPart, after: Wire) -> bool {
    &&& part == g.part
    &&& after.inbox@ == g.rest
    &&& after.eof == before.eof
    &&& after.outbox@ == before.outbox@ + g.written
    &&& match g.result {
        Ok((target, command)) => r matches Ok(v) && v.0.data@ == target && v.1 == command,
        Err(stop) => r matches Err(e) && tells(e, stop, before.eof),
    }
}

/// What keeps an address from being measured.
enum Unmeasured {
    Lacking,
    UnknownType,
}

/// Measures the address that has arrived behind `skip` bytes. It takes nothing: the caller does,
/// once the request is there as a whole.
fn read_addr(stream: &Wire, skip: usize) -> (r: Result<usize, Unmeasured>)
    requires
        skip <= stream.inbox@.len(),
    ensures
        match addr_len(stream.inbox@.skip(skip as int)) {
            Ok(n) => r matches Ok(m) && m == n && skip + n <= stream.inbox@.len(),
            Err(stop) => r matches Err(e) && (e is Lacking <==> stop is Lacking) && (e is UnknownType <==> stop is AddressType),
        },
{
    let ghost s = stream.inbox@.skip(skip as int);
    let have: usize = stream.inbox.len() - skip;
    if have == 0 {
        return Err(Unmeasured::Lacking);
    }
    let kind: u8 = stream.inbox[skip];
    assert(kind == s[0]);
    let len: usize = if kind == ATYP_DOMAIN {
        if have < 2 {
            return Err(Unmeasured::Lacking);
        }
        assert(stream.inbox@[skip + 1] == s[1]);
        4 + stream.inbox[skip + 1] as usize
    } else if kind == ATYP_IPV4 {
        7
    } else if kind == ATYP_IPV6 {
        19
    } else {
        return Err(Unmeasured::UnknownType);
    };
    if have < len {
        return Err(Unmeasured::Lacking);
    }
    Ok(len)
}

/// Reads the request and answers it.
fn read_request(stream: &mut Wire, part: &mut SocksPart, local: &Result<SocketAddr, OsError>) -> (r: Result<(SocksAddr, u8), IoError>)
    requires
        *old(part) == SocksPart::Request,
    ensures
        greets(*old(stream), request_step(old(stream).inbox@, old(stream).eof, *local), r, *final(part), *final(stream)),
{
    let ghost s = stream.inbox@;
    assert(stream.outbox@ + Seq::<u8>::empty() =~= stream.outbox@);
    let measured = if stream.inbox.len() < 3 {
        Err(Unmeasured::Lacking)
    } else {
        read_addr(&*stream, 3)
    };
    if !matches!(measured, Err(Unmeasured::Lacking)) || stream.eof {
        *part = SocksPart::Greeting;
    }
    let len: usize = match measured {
        Err(Unmeasured::UnknownType) => {
            let _head = stream.take(4);
            return Err(IoError::InvalidAddressType);
        },
        Err(Unmeasured::Lacking) => {
            return Err(stream.lack());
        },
        Ok(n) => n,
    };
    let head = stream.take(3);
    let data = stream.take(len);
    assert(data@ =~= s.subrange(3, 3 + len));
    assert(stream.inbox@ =~= s.skip(3 + len));
    let command: u8 = head[1];
    if command != CMD_CONNECT && command != CMD_UDP_ASSOCIATE {
        return Err(IoError::UnsupportedCommand);
    }
    match local {
        Err(e) => Err(IoError::Os(OsError { code: e.code, text: String::from_str(e.text.as_str()) })),
        Ok(a) => {
            let bound = SocksAddr::from_socket_addr(a);
            stream.write_all(&[5, 0, 0]);
            stream.write_all(bound.data.as_slice());
            assert([5u8, 0u8, 0u8]@ =~= seq![5u8, 0u8, 0u8]);
            assert(stream.outbox@ =~= old(stream).outbox@ + answer(*a));
            Ok((SocksAddr { data }, command))
        },
    }
}

/// Performs the handshake with an application, and gives the address and the command that it asks
/// for. A handshake that lacks bytes which may still come keeps its progress.
pub fn server_handshake(stream: &mut Wire, part: &mut SocksPart, local: &Result<SocketAddr, OsError>) -> (r: Result<
    (SocksAddr, u8),
    IoError,
>)
    ensures
        greets(
            *old(stream),
            socks_handshake(*old(part), old(stream).inbox@, old(stream).eof, *local),
            r,
            *final(part),
            *final(stream),
        ),
{
    match *part {
        SocksPart::Request => read_request(stream, part, local),
        SocksPart::Greeting => {
            let have: usize = stream.inbox.len();
            assert(stream.outbox@ + Seq::<u8>::empty() =~= stream.outbox@);
            if have < 2 {
                return Err(stream.lack());
            }
            if stream.inbox[0] != 5 {
                let _head = stream.take(2);
                return Err(IoError::NotSocks5);
            }
            let len: usize = 2 + stream.inbox[1] as usize;
            if have < len {
                return Err(stream.lack());
            }
            let _greeting = stream.take(len);
            stream.write_all(&[5, 0]);
            assert([5u8, 0u8]@ =~= seq![5u8, 0u8]);
            *part = SocksPart::Request;
            let ghost rest = stream.inbox@;
            let r = read_request(stream, part, local);
            assert(stream.outbox@ =~= old(stream).outbox@ + (seq![5u8, 0u8] + request_step(rest, old(stream).eof, *local).written));
            r
        },
    }
}

// ---- Addresses and handshakes, byte by byte ----

/// The text of an IPv4 address is its four numbers with points between them, a colon and the port.
/// What stands behind the address does not matter.
pub proof fn lemma_ipv4_address(ip: Seq<u8>, port: u16, more: Seq<u8>)
    requires
        ip.len() == 4,
    ensures
        addr_text(seq![1u8] + ip + seq![(port / 256) as u8, (port % 256) as u8] + more) == text::decimal(ip[0] as nat) + seq!['.']
            + text::decimal(ip[1] as nat) + seq!['.'] + text::decimal(ip[2] as nat) + seq!['.'] + text::decimal(ip[3] as nat)
            + seq![':'] + text::decimal(port as nat),
{
    let data = seq![1u8] + ip + seq![(port / 256) as u8, (port % 256) as u8] + more;
    reveal_strlit(".");
    reveal_strlit(":");
    assert("."@ =~= seq!['.']);
    assert(":"@ =~= seq![':']);
    assert(data.subrange(1, 5) =~= ip);
    assert(data[5] == (port / 256) as u8);
    assert(data[6] == (port % 256) as u8);
    assert(tls::from_be16(data[5], data[6]) == port);
}

/// The text of a domain address is the text of the name, a colon and the port, for every name that the
/// one byte for its length can hold. What stands behind the address does not matter.
pub proof fn lemma_name_address(name: Seq<u8>, port: u16, more: Seq<u8>)
    requires
        name.len() <= 255,
    ensures
        addr_text(seq![3u8, name.len() as u8] + name + seq![(port / 256) as u8, (port % 256) as u8] + more) == text::lossy_text(name)
            + seq![':'] + text::decimal(port as nat),
{
    let n = name.len() as int;
    let data = seq![3u8, n as u8] + name + seq![(port / 256) as u8, (port % 256) as u8] + more;
    reveal_strlit(":");
    assert(":"@ =~= seq![':']);
    assert(data.subrange(2, 2 + n) =~= name);
    assert(data[2 + n] == (port / 256) as u8);
    assert(data[3 + n] == (port % 256) as u8);
    assert(tls::from_be16(data[2 + n], data[3 + n]) == port);
}

/// So the address of a host name of up to 255 bytes keeps the host and the port.
pub proof fn lemma_domain_address(host: Seq<char>, port: u16, more: Seq<u8>)
    requires
        vstd::utf8::encode_utf8(host).len() <= 255,
    ensures
        addr_text(
            seq![3u8, vstd::utf8::encode_utf8(host).len() as u8] + vstd::utf8::encode_utf8(host) + seq![
                (port / 256) as u8,
                (port % 256) as u8,
            ] + more,
        ) == host + seq![':'] + text::decimal(port as nat),
{
    lemma_name_address(vstd::utf8::encode_utf8(host), port, more);
    text::lemma_text_of_bytes(host);
}

/// The text of an IPv6 address is the address in brackets, a colon and the port. What stands behind
/// the address does not matter.
pub proof fn lemma_ipv6_address(ip: Seq<u8>, port: u16, more: Seq<u8>)
    requires
        ip.len() == 16,
    ensures
        addr_text(seq![4u8] + ip + seq![(port / 256) as u8, (port % 256) as u8] + more) == seq!['['] + addr::ipv6_text(ip)
            + seq![']', ':'] + text::decimal(port as nat),
{
    let data = seq![4u8] + ip + seq![(port / 256) as u8, (port % 256) as u8] + more;
    reveal_strlit("[");
    reveal_strlit("]");
    reveal_strlit(":");
    assert(data.subrange(1, 17) =~= ip);
    assert(data[17] == (port / 256) as u8);
    assert(data[18] == (port % 256) as u8);
    assert(tls::from_be16(data[17], data[18]) == port);
    assert("["@ + addr::ipv6_text(ip) + "]"@ + ":"@ + text::decimal(port as nat) =~= seq!['['] + addr::ipv6_text(ip) + seq![
        ']',
        ':',
    ] + text::decimal(port as nat));
}

/// Bytes of another type, and bytes too few for an address of their type, have no text.
pub proof fn lemma_no_address(data: Seq<u8>)
    requires
        data.len() == 0 || (data[0] != 1 && data[0] != 3 && data[0] != 4) || (data[0] == 1 && data.len() < 7) || (data[0] == 4
            && data.len() < 19) || (data[0] == 3 && (data.len() < 4 || data.len() < 4 + data[1])),
    ensures
        addr_text(data).len() == 0,
{
}

/// A socket address goes out as its type, the address and the port, most significant byte first.
pub proof fn lemma_socket_address_bytes(a: SocketAddr)
    ensures
        match a {
            SocketAddr::V4 { ip, port } => addr_bytes(a) == seq![1u8] + ip@ + seq![(port / 256) as u8, (port % 256) as u8],
            SocketAddr::V6 { ip, port, .. } => addr_bytes(a) == seq![4u8] + ip@ + seq![(port / 256) as u8, (port % 256) as u8],
        },
{
}

/// What an application sends that knows what it does: the version, the authentication methods that it
/// knows, and a request with a command and an address.
pub open spec fn hello_and_request(methods: Seq<u8>, version: u8, command: u8, reserved: u8, address: Seq<u8>) -> Seq<u8> {
    seq![5u8, methods.len() as u8] + methods + seq![version, command, reserved] + address
}

/// Whether bytes are a whole address: of four bytes, of sixteen, or of a name whose length stands in
/// front of it, each with its type in front and two bytes of a port behind.
pub open spec fn whole_address(address: Seq<u8>) -> bool {
    ||| address.len() == 7 && address[0] == 1
    ||| address.len() == 19 && address[0] == 4
    ||| address.len() >= 4 && address[0] == 3 && address.len() == 4 + address[1]
}

proof fn lemma_whole_address(address: Seq<u8>, more: Seq<u8>)
    requires
        whole_address(address),
    ensures
        addr_len(address + more) == Ok::<nat, SocksStop>(address.len()),
        forall|n: int| 0 <= n < address.len() ==> (#[trigger] addr_len(address.take(n)) == Err::<nat, SocksStop>(SocksStop::Lacking)),
{
    let s = address + more;
    assert(address[0] == 1 || address[0] == 3 || address[0] == 4);
    assert(s[0] == address[0]);
    assert(s[1] == address[1]);
    assert forall|n: int| 0 <= n < address.len() implies (#[trigger] addr_len(address.take(n)) == Err::<nat, SocksStop>(
        SocksStop::Lacking,
    )) by {
        let t = address.take(n);
        if n > 0 {
            assert(t[0] == address[0]);
        }
        if n > 1 {
            assert(t[1] == address[1]);
        }
    }
}

/// A handshake for a tunnel or for UDP succeeds, for each of the three types of address: the
/// application is told that it needs no authentication, and then the address that it is connected to;
/// the address and the command are those that it sent, and what it sent behind them is left.
pub proof fn lemma_handshake_succeeds(
    methods: Seq<u8>,
    version: u8,
    command: u8,
    reserved: u8,
    host: Seq<u8>,
    port: u16,
    address: Seq<u8>,
    more: Seq<u8>,
    local: SocketAddr,
    before: Wire,
    r: Result<(SocksAddr, u8), IoError>,
    part: SocksPart,
    after: Wire,
)
    requires
        methods.len() <= 255,
        command == 1 || command == 3,
        ({
            ||| host.len() == 4 && address == seq![1u8] + host + seq![(port / 256) as u8, (port % 256) as u8]
            ||| host.len() == 16 && address == seq![4u8] + host + seq![(port / 256) as u8, (port % 256) as u8]
            ||| host.len() <= 255 && address == seq![3u8, host.len() as u8] + host + seq![(port / 256) as u8, (port % 256) as u8]
        }),
        before.inbox@ == seq![5u8, methods.len() as u8] + methods + seq![version, command, reserved] + address + more,
        greets(
            before,
            socks_handshake(SocksPart::Greeting, before.inbox@, before.eof, Ok::<SocketAddr, OsError>(local)),
            r,
            part,
            after,
        ),
    ensures
        r matches Ok(v) && v.0.data@ == address && v.1 == command,
        after.inbox@ == more,
        part == SocksPart::Greeting,
        match local {
            SocketAddr::V4 { ip, port } => after.outbox@ == before.outbox@ + seq![5u8, 0u8] + seq![5u8, 0u8, 0u8] + (seq![1u8] + ip@
                + seq![(port / 256) as u8, (port % 256) as u8]),
            SocketAddr::V6 { ip, port, .. } => after.outbox@ == before.outbox@ + seq![5u8, 0u8] + seq![5u8, 0u8, 0u8] + (seq![4u8] + ip@
                + seq![(port / 256) as u8, (port % 256) as u8]),
        },
{
    assert(whole_address(address));
    let s = before.inbox@;
    let n = 2 + methods.len() as int;
    let q = s.skip(n);
    assert(s[1] == methods.len());
    assert(q =~= seq![version, command, reserved] + address + more);
    assert(q.skip(3) =~= address + more);
    lemma_whole_address(address, more);
    let m = 3 + address.len() as int;
    assert(q.skip(m) =~= more);
    assert(q.subrange(3, m) =~= address);
    let bound = addr_bytes(local);
    lemma_socket_address_bytes(local);
    assert(before.outbox@ + (seq![5u8, 0u8] + (seq![5u8, 0u8, 0u8] + bound)) =~= before.outbox@ + seq![5u8, 0u8] + seq![5u8, 0u8, 0u8]
        + bound);
}

/// A handshake is refused for what is wrong with it, and the application gets no address: a greeting of
/// another version behind its first two bytes, an address of an unknown type behind its type, another
/// command behind the request, and any request where the local address cannot be had.
pub proof fn lemma_handshake_refused(
    methods: Seq<u8>,
    version: u8,
    command: u8,
    reserved: u8,
    address: Seq<u8>,
    more: Seq<u8>,
    local: Result<SocketAddr, OsError>,
    before: Wire,
    r: Result<(SocksAddr, u8), IoError>,
    part: SocksPart,
    after: Wire,
)
    requires
        methods.len() <= 255,
        greets(before, socks_handshake(SocksPart::Greeting, before.inbox@, before.eof, local), r, part, after),
    ensures
        before.inbox@.len() >= 2 && before.inbox@[0] != 5 ==> (r matches Err(e) && e is NotSocks5) && after.inbox@
            == before.inbox@.skip(2) && after.outbox@ == before.outbox@ && part == SocksPart::Greeting,
        address.len() > 0 && address[0] != 1 && address[0] != 3 && address[0] != 4 && before.inbox@ == hello_and_request(
            methods,
            version,
            command,
            reserved,
            address,
        ) ==> (r matches Err(e) && e is InvalidAddressType) && after.inbox@ == address.skip(1) && after.outbox@ == before.outbox@ + seq![
            5u8,
            0u8,
        ] && part == SocksPart::Greeting,
        whole_address(address) && command != 1 && command != 3 && before.inbox@ == hello_and_request(
            methods,
            version,
            command,
            reserved,
            address,
        ) + more ==> (r matches Err(e) && e is UnsupportedCommand) && after.inbox@ == more && after.outbox@ == before.outbox@ + seq![
            5u8,
            0u8,
        ] && part == SocksPart::Greeting,
        whole_address(address) && (command == 1 || command == 3) && local is Err && before.inbox@ == hello_and_request(
            methods,
            version,
            command,
            reserved,
            address,
        ) + more ==> (r matches Err(e) && (e matches IoError::Os(o) && o.code == local->Err_0.code && o.text@ == local->Err_0.text@))
            && after.inbox@ == more && after.outbox@ == before.outbox@ + seq![5u8, 0u8] && part == SocksPart::Greeting,
{
    let s = before.inbox@;
    let head = hello_and_request(methods, version, command, reserved, address);
    let n = 2 + methods.len() as int;
    let q = s.skip(n);
    let none: Seq<u8> = seq![];
    assert(before.outbox@ + none =~= before.outbox@);
    assert(seq![5u8, 0u8] + none =~= seq![5u8, 0u8]);
    if address.len() > 0 && s == head {
        assert(s[1] == methods.len());
        assert(q =~= seq![version, command, reserved] + address);
        assert(q.skip(3) =~= address);
        assert(q.skip(4) =~= address.skip(1));
    }
    if whole_address(address) && s == head + more {
        assert(s[1] == methods.len());
        assert(q =~= seq![version, command, reserved] + address + more);
        assert(q.skip(3) =~= address + more);
        lemma_whole_address(address, more);
        assert(q.skip(3 + address.len() as int) =~= more);
    }
}

/// No part of a handshake is enough: the application is waited for, or has gone too early.
pub proof fn lemma_handshake_is_awaited(
    methods: Seq<u8>,
    version: u8,
    command: u8,
    reserved: u8,
    address: Seq<u8>,
    n: int,
    local: Result<SocketAddr, OsError>,
    before: Wire,
    r: Result<(SocksAddr, u8), IoError>,
    part: SocksPart,
    after: Wire,
)
    requires
        methods.len() <= 255,
        whole_address(address),
        0 <= n < hello_and_request(methods, version, command, reserved, address).len(),
        before.inbox@ == hello_and_request(methods, version, command, reserved, address).take(n),
        greets(before, socks_handshake(SocksPart::Greeting, before.inbox@, before.eof, local), r, part, after),
    ensures
        r is Err,
        before.eof ==> r->Err_0 is UnexpectedEof && after.inbox@.len() == 0 && part == SocksPart::Greeting,
        !before.eof ==> r->Err_0 is WouldBlock,
        after.outbox@ == before.outbox@ + (if n < 2 + methods.len() {
            Seq::<u8>::empty()
        } else {
            seq![5u8, 0u8]
        }),
        !before.eof ==> after.inbox@ == (if n < 2 + methods.len() {
            before.inbox@
        } else {
            before.inbox@.skip(2 + methods.len() as int)
        }),
        !before.eof ==> part == (if n < 2 + methods.len() {
            SocksPart::Greeting
        } else {
            SocksPart::Request
        }),
{
    let whole = hello_and_request(methods, version, command, reserved, address);
    let s = before.inbox@;
    let k = 2 + methods.len() as int;
    let none: Seq<u8> = seq![];
    assert(seq![5u8, 0u8] + none =~= seq![5u8, 0u8]);
    if n >= 2 {
        assert(s[0] == whole[0]);
        assert(s[1] == whole[1]);
        assert(whole[1] == methods.len());
    }
    if n >= k {
        let q = s.skip(k);
        if n >= k + 3 {
            assert(q.skip(3) =~= address.take(n - k - 3));
            lemma_whole_address(address, none);
            assert(addr_len(address.take(n - k - 3)) == Err::<nat, SocksStop>(SocksStop::Lacking));
        }
    }
}

}
