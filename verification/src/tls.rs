//! The TLS disguise: a hello in each direction, then application data records.
use crate::entropy::{random_bytes, unix_seconds};
use vstd::prelude::*;

verus! {

/// Largest payload of one application data record.
pub const TLS_CHUNK_SIZE: usize = 16 * 1024;

/// Bytes of a client hello ahead of the length of its session ticket.
pub const CLIENT_HELLO_HEAD: usize = 140;

/// Bytes of a server hello, change cipher spec and record header ahead of the payload length.
pub const SERVER_HELLO_HEAD: usize = 105;

/// Bytes between the session ticket and the length of the server name.
pub const SNI_HEAD: usize = 7;

/// Bytes of a record ahead of its length: the type and the version.
pub const RECORD_HEAD: usize = 3;

/// The cipher suites that a client hello offers.
pub const CIPHER_SUITES: [u8; 56] = [
    0xc0, 0x2c, 0xc0, 0x30, 0x00, 0x9f, 0xcc, 0xa9, 0xcc, 0xa8, 0xcc, 0xaa, 0xc0, 0x2b, 0xc0, 0x2f,
    0x00, 0x9e, 0xc0, 0x24, 0xc0, 0x28, 0x00, 0x6b, 0xc0, 0x23, 0xc0, 0x27, 0x00, 0x67, 0xc0, 0x0a,
    0xc0, 0x14, 0x00, 0x39, 0xc0, 0x09, 0xc0, 0x13, 0x00, 0x33, 0x00, 0x9d, 0x00, 0x9c, 0x00, 0x3d,
    0x00, 0x3c, 0x00, 0x35, 0x00, 0x2f, 0x00, 0xff,
];

/// The extensions that end a client hello: point formats, groups, signature algorithms,
/// encrypt-then-MAC and extended master secret.
pub const CLIENT_EXTENSIONS: [u8; 66] = [
    0x00, 0x0b, 0x00, 0x04, 0x03, 0x01, 0x00, 0x02,
    0x00, 0x0a, 0x00, 0x0a, 0x00, 0x08, 0x00, 0x1d, 0x00, 0x17, 0x00, 0x19, 0x00, 0x18,
    0x00, 0x0d, 0x00, 0x20, 0x00, 0x1e, 0x06, 0x01, 0x06, 0x02, 0x06, 0x03, 0x05,
    0x01, 0x05, 0x02, 0x05, 0x03, 0x04, 0x01, 0x04, 0x02, 0x04, 0x03, 0x03, 0x01,
    0x03, 0x02, 0x03, 0x03, 0x02, 0x01, 0x02, 0x02, 0x02, 0x03,
    0x00, 0x16, 0x00, 0x00,
    0x00, 0x17, 0x00, 0x00,
];

/// What follows the session id of a server hello: cipher suite, compression, an empty extension
/// list, renegotiation info, extended master secret, point formats, a change cipher spec record
/// and the head of a handshake record.
pub const SERVER_HELLO_TAIL: [u8; 29] = [
    0xcc, 0xa8,
    0x00,
    0x00, 0x00,
    0xff, 0x01, 0x00, 0x01, 0x00,
    0x00, 0x17, 0x00, 0x00,
    0x00, 0x0b, 0x00, 0x02, 0x01, 0x00,
    0x14, 0x03, 0x03, 0x00, 0x01, 0x01,
    0x16, 0x03, 0x03,
];

/// The low 16 bits of a number, most significant byte first.
pub open spec fn be16(n: int) -> Seq<u8> {
    seq![(n / 256 % 256) as u8, (n % 256) as u8]
}

/// A 32 bit number, most significant byte first.
pub open spec fn be32(n: u32) -> Seq<u8> {
    seq![(n / 0x100_0000 % 256) as u8, (n / 0x1_0000 % 256) as u8, (n / 256 % 256) as u8, (n % 256) as u8]
}

/// The number that two bytes hold, most significant first.
pub open spec fn from_be16(hi: u8, lo: u8) -> nat {
    (hi * 256 + lo) as nat
}

/// A 16 bit number survives being written and read.
pub proof fn lemma_be16_round_trip(n: int)
    requires
        0 <= n < 0x1_0000,
    ensures
        from_be16(be16(n)[0], be16(n)[1]) == n,
{
}

pub(crate) fn push_be16(buf: &mut Vec<u8>, n: usize)
    ensures
        final(buf)@ == old(buf)@ + be16(n as int),
{
    buf.push((n / 256 % 256) as u8);
    buf.push((n % 256) as u8);
    assert(buf@ =~= old(buf)@ + be16(n as int));
}

pub(crate) fn push_bytes(buf: &mut Vec<u8>, bytes: &[u8])
    ensures
        final(buf)@ == old(buf)@ + bytes@,
{
    buf.extend_from_slice(bytes);
    assert(buf@ =~= old(buf)@ + bytes@);
}

fn push_be32(buf: &mut Vec<u8>, n: u32)
    ensures
        final(buf)@ == old(buf)@ + be32(n),
{
    buf.push((n / 0x100_0000 % 256) as u8);
    buf.push((n / 0x1_0000 % 256) as u8);
    buf.push((n / 256 % 256) as u8);
    buf.push((n % 256) as u8);
    assert(buf@ =~= old(buf)@ + be32(n));
}

// ---- Server hello ----

/// A server hello up to the length of the payload: a hello of TLS 1.2 with its random part and
/// session id, a change cipher spec record, and the head of a handshake record.
pub open spec fn server_hello_head(seconds: u32, random: Seq<u8>, session_id: Seq<u8>) -> Seq<u8> {
    seq![0x16u8, 0x03, 0x01] + be16(91) + seq![0x02u8, 0x00, 0x00, 0x57] + seq![0x03u8, 0x03] + be32(seconds) + random
        + seq![32u8] + session_id + SERVER_HELLO_TAIL@
}

/// A server hello that carries `data`.
pub open spec fn server_hello(seconds: u32, random: Seq<u8>, session_id: Seq<u8>, data: Seq<u8>) -> Seq<u8> {
    server_hello_head(seconds, random, session_id) + be16(data.len() as int) + data
}

/// The server hello that carries `data`, from the time and the random values that go into it.
pub fn build_server_hello(seconds: u32, random: &[u8], session_id: &[u8], data: &[u8]) -> (buf: Vec<u8>)
    ensures
        buf@ == server_hello(seconds, random@, session_id@, data@),
{
    let mut buf: Vec<u8> = Vec::new();
    buf.extend_from_slice(&[0x16, 0x03, 0x01]);
    push_be16(&mut buf, 91);
    buf.extend_from_slice(&[0x02, 0x00, 0x00, 0x57]);
    buf.extend_from_slice(&[0x03, 0x03]);
    push_be32(&mut buf, seconds);
    buf.extend_from_slice(random);
    buf.push(32);
    buf.extend_from_slice(session_id);
    buf.extend_from_slice(&SERVER_HELLO_TAIL);
    assert(buf@ =~= server_hello_head(seconds, random@, session_id@));
    push_be16(&mut buf, data.len());
    buf.extend_from_slice(data);
    buf
}

/// Whether `out` is a server hello that carries `data`, at some time and with some random values.
pub open spec fn is_server_hello(out: Seq<u8>, data: Seq<u8>) -> bool {
    exists|seconds: u32, random: Seq<u8>, session_id: Seq<u8>| {
        &&& random.len() == 28
        &&& session_id.len() == 32
        &&& out == #[trigger] server_hello(seconds, random, session_id, data)
    }
}

/// A server hello that carries `data`, at the present time and with fresh random values.
pub fn make_server_hello(data: &[u8]) -> (buf: Vec<u8>)
    ensures
        is_server_hello(buf@, data@),
{
    let random = random_bytes(28);
    let session_id = random_bytes(32);
    let seconds: u32 = (unix_seconds() % 0x1_0000_0000) as u32;
    build_server_hello(seconds, random.as_slice(), session_id.as_slice(), data)
}

// ---- Client hello ----

/// A client hello up to the length of its session ticket, for a ticket and a server name of the
/// given lengths.
pub open spec fn client_hello_head(seconds: u32, random: Seq<u8>, session_id: Seq<u8>, data_len: int, server_len: int) -> Seq<u8> {
    seq![22u8, 0x03, 0x01] + be16(212 + data_len + server_len) + seq![0x01u8, 0x00] + be16(208 + data_len + server_len)
        + seq![0x03u8, 0x03] + be32(seconds) + random + seq![32u8] + session_id + seq![0x00u8, 0x38] + CIPHER_SUITES@
        + seq![0x01u8, 0x00] + be16(79 + data_len + server_len) + seq![0x00u8, 0x23]
}

/// The server name extension up to the length of the name.
pub open spec fn sni_head(server_len: int) -> Seq<u8> {
    seq![0x00u8, 0x00] + be16(server_len + 5) + be16(server_len + 3) + seq![0x00u8]
}

/// What follows the session ticket of a client hello.
pub open spec fn client_hello_tail(server: Seq<u8>) -> Seq<u8> {
    sni_head(server.len() as int) + be16(server.len() as int) + server + CLIENT_EXTENSIONS@
}

/// A client hello that carries `data` as its session ticket and names `server`.
pub open spec fn client_hello(seconds: u32, random: Seq<u8>, session_id: Seq<u8>, data: Seq<u8>, server: Seq<u8>) -> Seq<u8> {
    client_hello_head(seconds, random, session_id, data.len() as int, server.len() as int) + be16(data.len() as int) + data
        + client_hello_tail(server)
}

proof fn lemma_be16_low_bits(a: int, b: int, c: int)
    requires
        a >= 0,
        b >= 0,
        c >= 0,
    ensures
        be16(a + b % 0x1_0000 + c % 0x1_0000) == be16(a + b + c),
{
    let x = a + b % 0x1_0000 + c % 0x1_0000;
    let k = b / 0x1_0000 + c / 0x1_0000;
    let y = a + b + c;
    let q = x / 256;
    let r = x % 256;
    assert(y == 256 * (q + 256 * k) + r);
    vstd::arithmetic::div_mod::lemma_fundamental_div_mod_converse(y, 256, q + 256 * k, r);
    vstd::arithmetic::div_mod::lemma_fundamental_div_mod_converse(q + 256 * k, 256, q / 256 + k, q % 256);
}

fn push_client_hello_head(buf: &mut Vec<u8>, seconds: u32, random: &[u8], session_id: &[u8], data_len: usize, server_len: usize)
    requires
        data_len < 0x1_0000,
        server_len < 0x1_0000,
    ensures
        final(buf)@ == old(buf)@ + client_hello_head(seconds, random@, session_id@, data_len as int, server_len as int),
{
    let mut head: Vec<u8> = Vec::new();
    push_bytes(&mut head, &[22, 0x03, 0x01]);
    push_be16(&mut head, 212 + data_len + server_len);
    push_bytes(&mut head, &[0x01, 0x00]);
    push_be16(&mut head, 208 + data_len + server_len);
    push_bytes(&mut head, &[0x03, 0x03]);
    push_be32(&mut head, seconds);
    push_bytes(&mut head, random);
    push_bytes(&mut head, &[32]);
    push_bytes(&mut head, session_id);
    push_bytes(&mut head, &[0x00, 0x38]);
    push_bytes(&mut head, &CIPHER_SUITES);
    push_bytes(&mut head, &[0x01, 0x00]);
    push_be16(&mut head, 79 + data_len + server_len);
    push_bytes(&mut head, &[0x00, 0x23]);
    proof {
        let a: Seq<u8> = seq![];
        assert([22u8, 0x03, 0x01]@ =~= seq![22u8, 0x03, 0x01]);
        assert([0x01u8, 0x00]@ =~= seq![0x01u8, 0x00]);
        assert([0x03u8, 0x03]@ =~= seq![0x03u8, 0x03]);
        assert([32u8]@ =~= seq![32u8]);
        assert([0x00u8, 0x38]@ =~= seq![0x00u8, 0x38]);
        assert([0x00u8, 0x23]@ =~= seq![0x00u8, 0x23]);
        assert(a + seq![22u8, 0x03, 0x01] =~= seq![22u8, 0x03, 0x01]);
    }
    assert(head@ == client_hello_head(seconds, random@, session_id@, data_len as int, server_len as int));
    push_bytes(buf, head.as_slice());
}

fn push_client_hello_tail(buf: &mut Vec<u8>, server: &[u8], server_len: usize)
    requires
        server_len == server@.len() % 0x1_0000,
    ensures
        final(buf)@ == old(buf)@ + client_hello_tail(server@),
{
    proof {
        lemma_be16_low_bits(5, 0, server@.len() as int);
        lemma_be16_low_bits(3, 0, server@.len() as int);
        lemma_be16_low_bits(0, 0, server@.len() as int);
    }
    let mut tail: Vec<u8> = Vec::new();
    push_bytes(&mut tail, &[0x00, 0x00]);
    push_be16(&mut tail, server_len + 5);
    push_be16(&mut tail, server_len + 3);
    push_bytes(&mut tail, &[0x00]);
    proof {
        let a: Seq<u8> = seq![];
        assert([0x00u8, 0x00]@ =~= seq![0x00u8, 0x00]);
        assert([0x00u8]@ =~= seq![0x00u8]);
        assert(a + seq![0x00u8, 0x00] =~= seq![0x00u8, 0x00]);
    }
    assert(tail@ == sni_head(server@.len() as int));
    push_be16(&mut tail, server_len);
    push_bytes(&mut tail, server);
    push_bytes(&mut tail, &CLIENT_EXTENSIONS);
    push_bytes(buf, tail.as_slice());
}

/// The client hello that carries `data`, from the time and the random values that go into it.
pub fn build_client_hello(seconds: u32, random: &[u8], session_id: &[u8], data: &[u8], server: &str) -> (buf: Vec<u8>)
    ensures
        buf@ == client_hello(seconds, random@, session_id@, data@, vstd::utf8::encode_utf8(server@)),
{
    let server: &[u8] = server.as_bytes();
    let data_len: usize = data.len() % 0x1_0000;
    let server_len: usize = server.len() % 0x1_0000;
    proof {
        lemma_be16_low_bits(212, data@.len() as int, server@.len() as int);
        lemma_be16_low_bits(208, data@.len() as int, server@.len() as int);
        lemma_be16_low_bits(79, data@.len() as int, server@.len() as int);
        lemma_be16_low_bits(0, data@.len() as int, 0);
    }
    let mut buf: Vec<u8> = Vec::new();
    push_client_hello_head(&mut buf, seconds, random, session_id, data_len, server_len);
    let ghost head = client_hello_head(seconds, random@, session_id@, data@.len() as int, server@.len() as int);
    assert(buf@ =~= head);
    push_be16(&mut buf, data_len);
    push_bytes(&mut buf, data);
    push_client_hello_tail(&mut buf, server, server_len);
    buf
}

/// Whether `out` is a client hello that carries `data` and names `server`, at some time and with
/// some random values.
pub open spec fn is_client_hello(out: Seq<u8>, data: Seq<u8>, server: Seq<u8>) -> bool {
    exists|seconds: u32, random: Seq<u8>, session_id: Seq<u8>| {
        &&& random.len() == 28
        &&& session_id.len() == 32
        &&& out == #[trigger] client_hello(seconds, random, session_id, data, server)
    }
}

/// A client hello that carries `data` and names `server`, at the present time and with fresh
/// random values.
pub fn make_client_hello(data: &[u8], server: &str) -> (buf: Vec<u8>)
    ensures
        is_client_hello(buf@, data@, vstd::utf8::encode_utf8(server@)),
{
    let random = random_bytes(28);
    let session_id = random_bytes(32);
    let seconds: u32 = (unix_seconds() % 0x1_0000_0000) as u32;
    build_client_hello(seconds, random.as_slice(), session_id.as_slice(), data, server)
}

// ---- Application data ----

/// One application data record.
pub open spec fn app_record(data: Seq<u8>) -> Seq<u8> {
    seq![0x17u8, 0x03, 0x03] + be16(data.len() as int) + data
}

/// `data` as application data records of at most `TLS_CHUNK_SIZE` bytes.
pub open spec fn app_data(data: Seq<u8>) -> Seq<u8>
    decreases data.len(),
{
    if data.len() == 0 {
        seq![]
    } else if data.len() <= TLS_CHUNK_SIZE {
        app_record(data)
    } else {
        app_record(data.take(TLS_CHUNK_SIZE as int)) + app_data(data.skip(TLS_CHUNK_SIZE as int))
    }
}

/// Appends `data` as application data records.
pub fn push_app_data(out: &mut Vec<u8>, data: &[u8])
    ensures
        final(out)@ == old(out)@ + app_data(data@),
{
    let n: usize = data.len();
    let mut written: usize = 0;
    let ghost before = out@;
    assert(data@.skip(0) =~= data@);
    assert(before + app_data(data@) =~= out@ + app_data(data@.skip(0)));
    while written < n
        invariant
            written <= n,
            n == data@.len(),
            before + app_data(data@) == out@ + app_data(data@.skip(written as int)),
            before == old(out)@,
        decreases n - written,
    {
        let end: usize = if n - written > TLS_CHUNK_SIZE { written + TLS_CHUNK_SIZE } else { n };
        let chunk: &[u8] = vstd::slice::slice_subrange(data, written, end);
        let ghost rest = data@.skip(written as int);
        let ghost prior = out@;
        out.extend_from_slice(&[0x17, 0x03, 0x03]);
        push_be16(out, chunk.len());
        out.extend_from_slice(chunk);
        assert(out@ =~= prior + app_record(chunk@));
        proof {
            if rest.len() <= TLS_CHUNK_SIZE {
                assert(chunk@ =~= rest);
                assert(data@.skip(end as int) =~= seq![]);
            } else {
                assert(chunk@ =~= rest.take(TLS_CHUNK_SIZE as int));
                assert(data@.skip(end as int) =~= rest.skip(TLS_CHUNK_SIZE as int));
            }
            assert(prior + app_data(rest) =~= out@ + app_data(data@.skip(end as int)));
        }
        written = end;
    }
    assert(data@.skip(n as int) =~= seq![]);
    assert(out@ + app_data(data@.skip(n as int)) =~= out@);
}

// ---- The layouts, byte by byte ----

/// A short run of data is one application data record: type 23, version 3.3, the length and the data.
/// No data is no record, and a longer run is cut behind each 16384 bytes.
pub proof fn lemma_one_record(data: Seq<u8>)
    ensures
        data.len() == 0 ==> app_data(data) == Seq::<u8>::empty(),
        0 < data.len() <= 16384 ==> app_data(data) == seq![
            0x17u8,
            0x03u8,
            0x03u8,
            (data.len() / 256) as u8,
            (data.len() % 256) as u8,
        ] + data,
        data.len() > 16384 ==> app_data(data) == seq![0x17u8, 0x03u8, 0x03u8, 0x40u8, 0x00u8] + data.take(16384) + app_data(
            data.skip(16384),
        ),
{
    assert(be16(16384) =~= seq![0x40u8, 0x00u8]);
    assert(seq![0x17u8, 0x03u8, 0x03u8] + be16(data.len() as int) =~= seq![
        0x17u8,
        0x03u8,
        0x03u8,
        (data.len() as int / 256 % 256) as u8,
        (data.len() as int % 256) as u8,
    ]);
    assert(seq![0x17u8, 0x03u8, 0x03u8] + seq![0x40u8, 0x00u8] =~= seq![0x17u8, 0x03u8, 0x03u8, 0x40u8, 0x00u8]);
}

/// Two bytes that hold a number below 65536, most significant first.
pub proof fn lemma_two_bytes(n: int)
    requires
        0 <= n < 0x1_0000,
    ensures
        be16(n) == seq![(n / 256) as u8, (n % 256) as u8],
{
}

/// Where a server finds what a client hello holds, whatever the time and the random values: the type,
/// versions and lengths of the record and of the hello, a session id of 32 bytes, 28 cipher suites, no
/// compression, the session ticket with the payload, the server name, and the other extensions.
pub proof fn lemma_client_hello_layout(out: Seq<u8>, data: Seq<u8>, server: Seq<u8>)
    requires
        is_client_hello(out, data, server),
        data.len() + server.len() <= 0xff00,
    ensures
        ({
            let n = data.len() as int;
            let m = server.len() as int;
            &&& out.len() == 217 + n + m
            &&& out.subrange(0, 3) == seq![0x16u8, 0x03u8, 0x01u8]
            &&& out[3] * 256 + out[4] == out.len() - 5
            &&& out[5] == 1 && out[6] * 0x1_0000 + out[7] * 256 + out[8] == out.len() - 9
            &&& out.subrange(9, 11) == seq![0x03u8, 0x03u8]
            &&& out[43] == 32
            &&& out.subrange(76, 78) == seq![0x00u8, 0x38u8]
            &&& out.subrange(134, 136) == seq![0x01u8, 0x00u8]
            &&& out[136] * 256 + out[137] == out.len() - 138
            &&& out.subrange(138, 140) == seq![0x00u8, 0x23u8]
            &&& out[140] * 256 + out[141] == n
            &&& out.subrange(142, 142 + n) == data
            &&& out.subrange(142 + n, 144 + n) == seq![0x00u8, 0x00u8]
            &&& out[144 + n] * 256 + out[145 + n] == m + 5
            &&& out[146 + n] * 256 + out[147 + n] == m + 3
            &&& out[148 + n] == 0
            &&& out[149 + n] * 256 + out[150 + n] == m
            &&& out.subrange(151 + n, 151 + n + m) == server
            &&& out.subrange(151 + n + m, 153 + n + m) == seq![0x00u8, 0x0bu8]
        }),
{
    let (head, tail) = lemma_client_hello_split(out, data, server);
    lemma_client_hello_parts(out, head, data, tail, server);
}

proof fn lemma_client_hello_split(out: Seq<u8>, data: Seq<u8>, server: Seq<u8>) -> (r: (Seq<u8>, Seq<u8>))
    requires
        is_client_hello(out, data, server),
        data.len() + server.len() <= 0xff00,
    ensures
        head_of(r.0, data.len() as int, server.len() as int),
        tail_of(r.1, server),
        split_as(out, r.0, data, r.1),
{
    let (seconds, random, session_id) = choose|seconds: u32, random: Seq<u8>, session_id: Seq<u8>| {
        &&& random.len() == 28
        &&& session_id.len() == 32
        &&& out == #[trigger] client_hello(seconds, random, session_id, data, server)
    };
    let n = data.len() as int;
    let m = server.len() as int;
    lemma_client_hello_head(seconds, random, session_id, n, m);
    lemma_client_hello_tail(server);
    lemma_four_parts(client_hello_head(seconds, random, session_id, n, m), data, client_hello_tail(server));
    (client_hello_head(seconds, random, session_id, n, m), client_hello_tail(server))
}

spec fn split_as(out: Seq<u8>, head: Seq<u8>, data: Seq<u8>, tail: Seq<u8>) -> bool {
    let n = data.len() as int;
    &&& out.len() == 142 + n + tail.len()
    &&& out.subrange(0, 140) == head
    &&& out.subrange(140, 142) == be16(n)
    &&& out.subrange(142, 142 + n) == data
    &&& out.subrange(142 + n, out.len() as int) == tail
}

proof fn lemma_four_parts(head: Seq<u8>, data: Seq<u8>, tail: Seq<u8>)
    requires
        head.len() == 140,
    ensures
        split_as(head + be16(data.len() as int) + data + tail, head, data, tail),
{
    let n = data.len() as int;
    let out = head + be16(n) + data + tail;
    assert(out.subrange(0, 140) =~= head);
    assert(out.subrange(140, 142) =~= be16(n));
    assert(out.subrange(142, 142 + n) =~= data);
    assert(out.subrange(142 + n, out.len() as int) =~= tail);
}

proof fn lemma_client_hello_parts(out: Seq<u8>, head: Seq<u8>, data: Seq<u8>, tail: Seq<u8>, server: Seq<u8>)
    requires
        data.len() + server.len() <= 0xff00,
        head_of(head, data.len() as int, server.len() as int),
        tail_of(tail, server),
        split_as(out, head, data, tail),
    ensures
        ({
            let n = data.len() as int;
            let m = server.len() as int;
            &&& out.len() == 217 + n + m
            &&& out.subrange(0, 3) == seq![0x16u8, 0x03u8, 0x01u8]
            &&& out[3] * 256 + out[4] == out.len() - 5
            &&& out[5] == 1 && out[6] * 0x1_0000 + out[7] * 256 + out[8] == out.len() - 9
            &&& out.subrange(9, 11) == seq![0x03u8, 0x03u8]
            &&& out[43] == 32
            &&& out.subrange(76, 78) == seq![0x00u8, 0x38u8]
            &&& out.subrange(134, 136) == seq![0x01u8, 0x00u8]
            &&& out[136] * 256 + out[137] == out.len() - 138
            &&& out.subrange(138, 140) == seq![0x00u8, 0x23u8]
            &&& out[140] * 256 + out[141] == n
            &&& out.subrange(142, 142 + n) == data
            &&& out.subrange(142 + n, 144 + n) == seq![0x00u8, 0x00u8]
            &&& out[144 + n] * 256 + out[145 + n] == m + 5
            &&& out[146 + n] * 256 + out[147 + n] == m + 3
            &&& out[148 + n] == 0
            &&& out[149 + n] * 256 + out[150 + n] == m
            &&& out.subrange(151 + n, 151 + n + m) == server
            &&& out.subrange(151 + n + m, 153 + n + m) == seq![0x00u8, 0x0bu8]
        }),
{
    let n = data.len() as int;
    let m = server.len() as int;
    let two = be16(n);
    assert(out.subrange(0, 3) =~= head.subrange(0, 3));
    assert(out[3] == head[3] && out[4] == head[4] && out[5] == head[5]);
    assert(out[6] == head[6] && out[7] == head[7] && out[8] == head[8]);
    assert(out.subrange(9, 11) =~= head.subrange(9, 11));
    assert(out[43] == head[43]);
    assert(out.subrange(76, 78) =~= head.subrange(76, 78));
    assert(out.subrange(134, 136) =~= head.subrange(134, 136));
    assert(out[136] == head[136] && out[137] == head[137]);
    assert(out.subrange(138, 140) =~= head.subrange(138, 140));
    assert(out[140] == out.subrange(140, 142)[0] && out[141] == out.subrange(140, 142)[1]);
    let k = 142 + n;
    assert forall|i: int| 0 <= i < tail.len() implies #[trigger] tail[i] == out[k + i] by {}
    assert(out.subrange(k, k + 2) =~= tail.subrange(0, 2));
    assert(out[k + 2] == tail[2] && out[k + 3] == tail[3] && out[k + 4] == tail[4] && out[k + 5] == tail[5]);
    assert(out[k + 6] == tail[6] && out[k + 7] == tail[7] && out[k + 8] == tail[8]);
    assert(out.subrange(k + 9, k + 9 + m) =~= tail.subrange(9, 9 + m));
    assert(out.subrange(k + 9 + m, k + 11 + m) =~= tail.subrange(9 + m, 11 + m));
}

spec fn tail_of(tail: Seq<u8>, server: Seq<u8>) -> bool {
    let m = server.len() as int;
    &&& tail.len() == 75 + m
    &&& tail.subrange(0, 2) == seq![0x00u8, 0x00u8]
    &&& tail[2] * 256 + tail[3] == m + 5
    &&& tail[4] * 256 + tail[5] == m + 3
    &&& tail[6] == 0
    &&& tail[7] * 256 + tail[8] == m
    &&& tail.subrange(9, 9 + m) == server
    &&& tail.subrange(9 + m, 11 + m) == seq![0x00u8, 0x0bu8]
}

proof fn lemma_client_hello_tail(server: Seq<u8>)
    requires
        server.len() <= 0xff00,
    ensures
        tail_of(client_hello_tail(server), server),
{
    let m = server.len() as int;
    let tail = client_hello_tail(server);
    let rest = CLIENT_EXTENSIONS@;
    assert(rest.len() == 66);
    assert(rest[0] == 0x00 && rest[1] == 0x0b);
    assert(tail.subrange(0, 2) =~= seq![0x00u8, 0x00u8]);
    assert(tail[2] == be16(m + 5)[0] && tail[3] == be16(m + 5)[1]);
    assert(tail[4] == be16(m + 3)[0] && tail[5] == be16(m + 3)[1]);
    assert(tail[6] == 0);
    assert(tail[7] == be16(m)[0] && tail[8] == be16(m)[1]);
    assert(tail.subrange(9, 9 + m) =~= server);
    assert(tail.subrange(9 + m, 11 + m) =~= rest.subrange(0, 2));
    assert(rest.subrange(0, 2) =~= seq![0x00u8, 0x0bu8]);
}

spec fn head_of(head: Seq<u8>, n: int, m: int) -> bool {
    &&& head.len() == 140
    &&& head.subrange(0, 3) == seq![0x16u8, 0x03u8, 0x01u8]
    &&& head[3] * 256 + head[4] == 212 + n + m
    &&& head[5] == 1 && head[6] == 0 && head[7] * 256 + head[8] == 208 + n + m
    &&& head.subrange(9, 11) == seq![0x03u8, 0x03u8]
    &&& head[43] == 32
    &&& head.subrange(76, 78) == seq![0x00u8, 0x38u8]
    &&& head.subrange(134, 136) == seq![0x01u8, 0x00u8]
    &&& head[136] * 256 + head[137] == 79 + n + m
    &&& head.subrange(138, 140) == seq![0x00u8, 0x23u8]
}

proof fn lemma_client_hello_head(seconds: u32, random: Seq<u8>, session_id: Seq<u8>, n: int, m: int)
    requires
        random.len() == 28,
        session_id.len() == 32,
        0 <= n,
        0 <= m,
        n + m <= 0xff00,
    ensures
        head_of(client_hello_head(seconds, random, session_id, n, m), n, m),
        client_hello_head(seconds, random, session_id, n, m).subrange(11, 15) == be32(seconds),
        client_hello_head(seconds, random, session_id, n, m).subrange(15, 43) == random,
        client_hello_head(seconds, random, session_id, n, m).subrange(44, 76) == session_id,
{
    let head = client_hello_head(seconds, random, session_id, n, m);
    assert(CIPHER_SUITES@.len() == 56);
    assert(head.len() == 140);
    let p = be16(212 + n + m);
    let q = be16(208 + n + m);
    let r = be16(79 + n + m);
    assert(head[3] == p[0] && head[4] == p[1]);
    assert(head[5] == 1 && head[6] == 0);
    assert(head[7] == q[0] && head[8] == q[1]);
    assert(head[136] == r[0] && head[137] == r[1]);
    assert(head.subrange(0, 3) =~= seq![0x16u8, 0x03u8, 0x01u8]);
    assert(head.subrange(9, 11) =~= seq![0x03u8, 0x03u8]);
    assert(head.subrange(11, 15) =~= be32(seconds));
    assert(head.subrange(15, 43) =~= random);
    assert(head.subrange(44, 76) =~= session_id);
    assert(head.subrange(76, 78) =~= seq![0x00u8, 0x38u8]);
    assert(head.subrange(134, 136) =~= seq![0x01u8, 0x00u8]);
    assert(head.subrange(138, 140) =~= seq![0x00u8, 0x23u8]);
}

/// Where a client finds what a server hello holds, whatever the time and the random values: a hello of
/// 91 bytes with a session id of 32, a change cipher spec record, and a handshake record that holds the
/// length of the payload and the payload.
pub proof fn lemma_server_hello_layout(out: Seq<u8>, data: Seq<u8>)
    requires
        is_server_hello(out, data),
        data.len() < 0x1_0000,
    ensures
        ({
            let n = data.len() as int;
            &&& out.len() == 107 + n
            &&& out.subrange(0, 5) == seq![0x16u8, 0x03u8, 0x01u8, 0x00u8, 91u8]
            &&& out.subrange(5, 11) == seq![0x02u8, 0x00u8, 0x00u8, 0x57u8, 0x03u8, 0x03u8]
            &&& out[43] == 32
            &&& out.subrange(76, 79) == seq![0xccu8, 0xa8u8, 0x00u8]
            &&& out.subrange(96, 102) == seq![0x14u8, 0x03u8, 0x03u8, 0x00u8, 0x01u8, 0x01u8]
            &&& out.subrange(102, 105) == seq![0x16u8, 0x03u8, 0x03u8]
            &&& out[105] * 256 + out[106] == n
            &&& out.subrange(107, 107 + n) == data
        }),
{
    let (seconds, random, session_id) = choose|seconds: u32, random: Seq<u8>, session_id: Seq<u8>| {
        &&& random.len() == 28
        &&& session_id.len() == 32
        &&& out == #[trigger] server_hello(seconds, random, session_id, data)
    };
    lemma_server_hello_head(seconds, random, session_id);
    lemma_server_hello_parts(server_hello_head(seconds, random, session_id), data);
}

spec fn server_head_of(head: Seq<u8>) -> bool {
    &&& head.len() == 105
    &&& head.subrange(0, 5) == seq![0x16u8, 0x03u8, 0x01u8, 0x00u8, 91u8]
    &&& head.subrange(5, 11) == seq![0x02u8, 0x00u8, 0x00u8, 0x57u8, 0x03u8, 0x03u8]
    &&& head[43] == 32
    &&& head.subrange(76, 79) == seq![0xccu8, 0xa8u8, 0x00u8]
    &&& head.subrange(96, 102) == seq![0x14u8, 0x03u8, 0x03u8, 0x00u8, 0x01u8, 0x01u8]
    &&& head.subrange(102, 105) == seq![0x16u8, 0x03u8, 0x03u8]
}

proof fn lemma_server_hello_parts(head: Seq<u8>, data: Seq<u8>)
    requires
        server_head_of(head),
        data.len() < 0x1_0000,
    ensures
        ({
            let out = head + be16(data.len() as int) + data;
            let n = data.len() as int;
            &&& out.len() == 107 + n
            &&& out.subrange(0, 5) == head.subrange(0, 5)
            &&& out.subrange(5, 11) == head.subrange(5, 11)
            &&& out[43] == 32
            &&& out.subrange(76, 79) == head.subrange(76, 79)
            &&& out.subrange(96, 102) == head.subrange(96, 102)
            &&& out.subrange(102, 105) == head.subrange(102, 105)
            &&& out[105] * 256 + out[106] == n
            &&& out.subrange(107, 107 + n) == data
        }),
{
    let n = data.len() as int;
    let out = head + be16(n) + data;
    assert(out[105] == be16(n)[0] && out[106] == be16(n)[1]);
}

proof fn lemma_server_hello_head(seconds: u32, random: Seq<u8>, session_id: Seq<u8>)
    requires
        random.len() == 28,
        session_id.len() == 32,
    ensures
        server_head_of(server_hello_head(seconds, random, session_id)),
        server_hello_head(seconds, random, session_id).subrange(11, 15) == be32(seconds),
        server_hello_head(seconds, random, session_id).subrange(15, 43) == random,
        server_hello_head(seconds, random, session_id).subrange(44, 76) == session_id,
{
    let head = server_hello_head(seconds, random, session_id);
    let tail = SERVER_HELLO_TAIL@;
    assert(tail.len() == 29);
    assert(be16(91) =~= seq![0x00u8, 91u8]);
    assert(head.subrange(0, 5) =~= seq![0x16u8, 0x03u8, 0x01u8, 0x00u8, 91u8]);
    assert(head.subrange(5, 11) =~= seq![0x02u8, 0x00u8, 0x00u8, 0x57u8, 0x03u8, 0x03u8]);
    assert(head.subrange(11, 15) =~= be32(seconds));
    assert(head.subrange(15, 43) =~= random);
    assert(head.subrange(44, 76) =~= session_id);
    assert(head.skip(76) =~= tail);
    assert(tail[0] == 0xcc && tail[1] == 0xa8 && tail[2] == 0x00);
    assert(tail[20] == 0x14 && tail[21] == 0x03 && tail[22] == 0x03 && tail[23] == 0x00 && tail[24] == 0x01 && tail[25] == 0x01);
    assert(tail[26] == 0x16 && tail[27] == 0x03 && tail[28] == 0x03);
    assert(head.subrange(76, 79) =~= tail.subrange(0, 3));
    assert(head.subrange(96, 102) =~= tail.subrange(20, 26));
    assert(head.subrange(102, 105) =~= tail.subrange(26, 29));
    assert(tail.subrange(0, 3) =~= seq![0xccu8, 0xa8u8, 0x00u8]);
    assert(tail.subrange(20, 26) =~= seq![0x14u8, 0x03u8, 0x03u8, 0x00u8, 0x01u8, 0x01u8]);
    assert(tail.subrange(26, 29) =~= seq![0x16u8, 0x03u8, 0x03u8]);
}

/// A hello made from a time and random values holds them where they belong: the time in four bytes,
/// most significant first, then the 28 random bytes, and the session id.
pub proof fn lemma_hello_values(seconds: u32, random: Seq<u8>, session_id: Seq<u8>, data: Seq<u8>, server: Seq<u8>)
    requires
        random.len() == 28,
        session_id.len() == 32,
        data.len() + server.len() <= 0xff00,
    ensures
        ({
            let out = client_hello(seconds, random, session_id, data, server);
            &&& out[11] * 0x100_0000 + out[12] * 0x1_0000 + out[13] * 0x100 + out[14] == seconds
            &&& out.subrange(15, 43) == random
            &&& out.subrange(44, 76) == session_id
            &&& is_client_hello(out, data, server)
        }),
        ({
            let out = server_hello(seconds, random, session_id, data);
            &&& out[11] * 0x100_0000 + out[12] * 0x1_0000 + out[13] * 0x100 + out[14] == seconds
            &&& out.subrange(15, 43) == random
            &&& out.subrange(44, 76) == session_id
            &&& is_server_hello(out, data)
        }),
{
    let n = data.len() as int;
    let m = server.len() as int;
    lemma_client_hello_head(seconds, random, session_id, n, m);
    lemma_server_hello_head(seconds, random, session_id);
    lemma_values_in_front(
        client_hello_head(seconds, random, session_id, n, m),
        be16(n),
        data,
        client_hello_tail(server),
        seconds,
        random,
        session_id,
    );
    lemma_values_in_front(
        server_hello_head(seconds, random, session_id),
        be16(n),
        data,
        client_hello_tail(server),
        seconds,
        random,
        session_id,
    );
}

spec fn holds_values(out: Seq<u8>, seconds: u32, random: Seq<u8>, session_id: Seq<u8>) -> bool {
    &&& out[11] * 0x100_0000 + out[12] * 0x1_0000 + out[13] * 0x100 + out[14] == seconds
    &&& out.subrange(15, 43) == random
    &&& out.subrange(44, 76) == session_id
}

proof fn lemma_values_in_front(
    head: Seq<u8>,
    two: Seq<u8>,
    data: Seq<u8>,
    tail: Seq<u8>,
    seconds: u32,
    random: Seq<u8>,
    session_id: Seq<u8>,
)
    requires
        head.len() >= 76,
        head.subrange(11, 15) == be32(seconds),
        head.subrange(15, 43) == random,
        head.subrange(44, 76) == session_id,
    ensures
        holds_values(head + two + data, seconds, random, session_id),
        holds_values(head + two + data + tail, seconds, random, session_id),
{
    let out = head + two + data;
    let t = head.subrange(11, 15);
    assert(out[11] == t[0] && out[12] == t[1] && out[13] == t[2] && out[14] == t[3]);
    assert(out.subrange(15, 43) =~= random);
    assert(out.subrange(44, 76) =~= session_id);
    let long = out + tail;
    assert(long[11] == t[0] && long[12] == t[1] && long[13] == t[2] && long[14] == t[3]);
    assert(long.subrange(15, 43) =~= random);
    assert(long.subrange(44, 76) =~= session_id);
}

/// The parts of the hellos that are the same in each: the cipher suites and the last extensions of a
/// client, and the end of a server's.
pub proof fn lemma_fixed_parts()
    ensures
        CIPHER_SUITES@ == seq![
            0xc0u8, 0x2cu8, 0xc0u8, 0x30u8, 0x00u8, 0x9fu8, 0xccu8, 0xa9u8, 0xccu8, 0xa8u8, 0xccu8, 0xaau8,
            0xc0u8, 0x2bu8, 0xc0u8, 0x2fu8, 0x00u8, 0x9eu8, 0xc0u8, 0x24u8, 0xc0u8, 0x28u8, 0x00u8, 0x6bu8,
            0xc0u8, 0x23u8, 0xc0u8, 0x27u8, 0x00u8, 0x67u8, 0xc0u8, 0x0au8, 0xc0u8, 0x14u8, 0x00u8, 0x39u8,
            0xc0u8, 0x09u8, 0xc0u8, 0x13u8, 0x00u8, 0x33u8, 0x00u8, 0x9du8, 0x00u8, 0x9cu8, 0x00u8, 0x3du8,
            0x00u8, 0x3cu8, 0x00u8, 0x35u8, 0x00u8, 0x2fu8, 0x00u8, 0xffu8,
        ],
        CLIENT_EXTENSIONS@ == seq![
            0x00u8, 0x0bu8, 0x00u8, 0x04u8, 0x03u8, 0x01u8, 0x00u8, 0x02u8, 0x00u8, 0x0au8, 0x00u8, 0x0au8,
            0x00u8, 0x08u8, 0x00u8, 0x1du8, 0x00u8, 0x17u8, 0x00u8, 0x19u8, 0x00u8, 0x18u8, 0x00u8, 0x0du8,
            0x00u8, 0x20u8, 0x00u8, 0x1eu8, 0x06u8, 0x01u8, 0x06u8, 0x02u8, 0x06u8, 0x03u8, 0x05u8, 0x01u8,
            0x05u8, 0x02u8, 0x05u8, 0x03u8, 0x04u8, 0x01u8, 0x04u8, 0x02u8, 0x04u8, 0x03u8, 0x03u8, 0x01u8,
            0x03u8, 0x02u8, 0x03u8, 0x03u8, 0x02u8, 0x01u8, 0x02u8, 0x02u8, 0x02u8, 0x03u8, 0x00u8, 0x16u8,
            0x00u8, 0x00u8, 0x00u8, 0x17u8, 0x00u8, 0x00u8,
        ],
        SERVER_HELLO_TAIL@ == seq![
            0xccu8, 0xa8u8, 0x00u8, 0x00u8, 0x00u8, 0xffu8, 0x01u8, 0x00u8, 0x01u8, 0x00u8, 0x00u8, 0x17u8,
            0x00u8, 0x00u8, 0x00u8, 0x0bu8, 0x00u8, 0x02u8, 0x01u8, 0x00u8, 0x14u8, 0x03u8, 0x03u8, 0x00u8,
            0x01u8, 0x01u8, 0x16u8, 0x03u8, 0x03u8,
        ],
{
}

}
