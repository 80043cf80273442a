//! Authenticated encryption of Snell records: the two cipher suites, the derivation of session
//! keys from the pre-shared key, and the record nonce.
use aes_gcm::aead::Aead;
use aes_gcm::aead::KeyInit;
use vstd::prelude::*;
use vstd::slice::slice_to_vec;

verus! {

/// Number of bytes that Argon2id derives for every session.
pub const ARGON2_OUTPUT_LEN: usize = 32;

/// Memory cost of the key derivation, in KiB.
pub const ARGON2_M_COST: u32 = 8;

/// Number of passes of the key derivation.
pub const ARGON2_T_COST: u32 = 3;

/// Number of lanes of the key derivation.
pub const ARGON2_P_COST: u32 = 1;

/// Bits of a record header that hold the payload size.
pub const PAYLOAD_SIZE_MASK: usize = 0x3FFF;

/// Number of salt bytes that open each direction of a connection.
pub const SALT_SIZE: usize = 16;

/// Number of bytes of a record nonce, in both suites.
pub const NONCE_SIZE: usize = 12;

/// Number of bytes by which a ciphertext exceeds its plaintext, in both suites.
pub const TAG_SIZE: usize = 16;

/// The cipher suites of the protocol.
#[derive(Clone, Copy, PartialEq, Eq, Structural, Debug)]
pub enum Suite {
    /// Snell v2.
    Aes128Gcm,
    /// Snell v1.
    ChaCha20Poly1305,
}

// ---- What the outside crates compute ----

/// Name of the bytes that Argon2id (version 0x13) derives from a password and a salt, with the
/// given memory, time and lane costs and output length.
pub uninterp spec fn argon2id_output(m_cost: u32, t_cost: u32, p_cost: u32, password: Seq<u8>, salt: Seq<u8>, output_len: nat) -> Seq<u8>;

/// Name of the ciphertext, tag appended, that AES-128-GCM produces without associated data.
pub uninterp spec fn aes128_gcm_seal(key: Seq<u8>, nonce: Seq<u8>, plaintext: Seq<u8>) -> Seq<u8>;

/// Name of the plaintext that AES-128-GCM recovers from a ciphertext with its tag appended, or
/// `None` where it rejects the ciphertext.
pub uninterp spec fn aes128_gcm_open(key: Seq<u8>, nonce: Seq<u8>, ciphertext: Seq<u8>) -> Option<Seq<u8>>;

/// Name of the ciphertext, tag appended, that ChaCha20-Poly1305 produces without associated data.
pub uninterp spec fn chacha20_poly1305_seal(key: Seq<u8>, nonce: Seq<u8>, plaintext: Seq<u8>) -> Seq<u8>;

/// Name of the plaintext that ChaCha20-Poly1305 recovers from a ciphertext with its tag
/// appended, or `None` where it rejects the ciphertext.
pub uninterp spec fn chacha20_poly1305_open(key: Seq<u8>, nonce: Seq<u8>, ciphertext: Seq<u8>) -> Option<Seq<u8>>;

/// What a cipher says of a message that it rejects: the one text of `aead::Error`, which tells no
/// reason.
pub open spec fn rejection() -> Seq<char> {
    "aead::Error"@
}

/// Calls `argon2::Argon2::hash_password_into` for Argon2id, version 0x13.
///
/// The costs and lengths that `Params::new` and `hash_password_into` reject are left out by
/// `requires`; on the others the call fills the whole output, and what it fills in depends on
/// its arguments alone.
#[verifier::external_body]
fn argon2id(m_cost: u32, t_cost: u32, p_cost: u32, password: &[u8], salt: &[u8], output_len: usize) -> (r: Vec<u8>)
    requires
        1 <= p_cost <= 0xFF_FFFF,
        8 * p_cost <= m_cost,
        1 <= t_cost,
        4 <= output_len <= 0xFFFF_FFFF,
        password@.len() <= 0xFFFF_FFFF,
        8 <= salt@.len() <= 0xFFFF_FFFF,
    ensures
        r@ == argon2id_output(m_cost, t_cost, p_cost, password@, salt@, output_len as nat),
        r@.len() == output_len,
{
    let params = argon2::Params::new(m_cost, t_cost, p_cost, Some(output_len)).unwrap();
    let argon2 = argon2::Argon2::new(argon2::Algorithm::Argon2id, argon2::Version::V0x13, params);
    let mut output = vec![0u8; output_len];
    argon2.hash_password_into(password, salt, &mut output).unwrap();
    output
}

/// Calls `encrypt` of `aes_gcm::Aes128Gcm` without associated data.
///
/// It succeeds on messages of at most 2^36 bytes; the ciphertext is 16 bytes longer than the
/// message, and `decrypt` recovers the message from it. Its error has one text.
#[verifier::external_body]
fn aes128_gcm_encrypt(key: &[u8], nonce: &[u8], plaintext: &[u8]) -> (r: Result<Vec<u8>, String>)
    requires
        key@.len() == 16,
        nonce@.len() == 12,
        plaintext@.len() + 16 <= isize::MAX,
    ensures
        r is Ok <==> plaintext@.len() <= 0x10_0000_0000,
        r matches Ok(c) ==> c@ == aes128_gcm_seal(key@, nonce@, plaintext@),
        r matches Ok(c) ==> c@.len() == plaintext@.len() + 16,
        r matches Ok(c) ==> aes128_gcm_open(key@, nonce@, c@) == Some(plaintext@),
        r matches Err(e) ==> e@ == rejection(),
{
    let cipher = aes_gcm::Aes128Gcm::new_from_slice(key).unwrap();
    cipher.encrypt(aes_gcm::Nonce::from_slice(nonce), plaintext).map_err(|e| e.to_string())
}

/// Calls `decrypt` of `aes_gcm::Aes128Gcm` without associated data.
///
/// An accepted ciphertext is 16 bytes longer than the plaintext that comes out. The error has one
/// text.
#[verifier::external_body]
fn aes128_gcm_decrypt(key: &[u8], nonce: &[u8], ciphertext: &[u8]) -> (r: Result<Vec<u8>, String>)
    requires
        key@.len() == 16,
        nonce@.len() == 12,
    ensures
        r is Ok <==> aes128_gcm_open(key@, nonce@, ciphertext@) is Some,
        r matches Ok(p) ==> aes128_gcm_open(key@, nonce@, ciphertext@) == Some(p@),
        r matches Ok(p) ==> p@.len() + 16 == ciphertext@.len(),
        r matches Err(e) ==> e@ == rejection(),
{
    let cipher = aes_gcm::Aes128Gcm::new_from_slice(key).unwrap();
    cipher.decrypt(aes_gcm::Nonce::from_slice(nonce), ciphertext).map_err(|e| e.to_string())
}

/// Calls `encrypt` of `chacha20poly1305::ChaCha20Poly1305` without associated data.
///
/// It succeeds on messages shorter than 2^32 - 1 blocks of 64 bytes, except that the call
/// panics where the message reaches into the last such block: those lengths are left out. The
/// ciphertext is 16 bytes longer than the message, and `decrypt` recovers the message from it. Its
/// error has one text.
#[verifier::external_body]
fn chacha20_poly1305_encrypt(key: &[u8], nonce: &[u8], plaintext: &[u8]) -> (r: Result<Vec<u8>, String>)
    requires
        key@.len() == 32,
        nonce@.len() == 12,
        plaintext@.len() + 16 <= isize::MAX,
        !(0x3F_FFFF_FF80 < plaintext@.len() < 0x3F_FFFF_FFC0),
    ensures
        r is Ok <==> plaintext@.len() < 0x3F_FFFF_FFC0,
        r matches Ok(c) ==> c@ == chacha20_poly1305_seal(key@, nonce@, plaintext@),
        r matches Ok(c) ==> c@.len() == plaintext@.len() + 16,
        r matches Ok(c) ==> chacha20_poly1305_open(key@, nonce@, c@) == Some(plaintext@),
        r matches Err(e) ==> e@ == rejection(),
{
    let cipher = chacha20poly1305::ChaCha20Poly1305::new_from_slice(key).unwrap();
    cipher.encrypt(chacha20poly1305::Nonce::from_slice(nonce), plaintext).map_err(|e| e.to_string())
}

/// Calls `decrypt` of `chacha20poly1305::ChaCha20Poly1305` without associated data.
///
/// An accepted ciphertext is 16 bytes longer than the plaintext that comes out, and the error has
/// one text. The lengths on which the call can panic are left out, as for encryption.
#[verifier::external_body]
fn chacha20_poly1305_decrypt(key: &[u8], nonce: &[u8], ciphertext: &[u8]) -> (r: Result<Vec<u8>, String>)
    requires
        key@.len() == 32,
        nonce@.len() == 12,
        !(0x3F_FFFF_FF90 < ciphertext@.len() < 0x3F_FFFF_FFD0),
    ensures
        r is Ok <==> chacha20_poly1305_open(key@, nonce@, ciphertext@) is Some,
        r matches Ok(p) ==> chacha20_poly1305_open(key@, nonce@, ciphertext@) == Some(p@),
        r matches Ok(p) ==> p@.len() + 16 == ciphertext@.len(),
        r matches Err(e) ==> e@ == rejection(),
{
    let cipher = chacha20poly1305::ChaCha20Poly1305::new_from_slice(key).unwrap();
    cipher.decrypt(chacha20poly1305::Nonce::from_slice(nonce), ciphertext).map_err(|e| e.to_string())
}

// ---- Keys and the two suites as one ----

/// Number of key bytes of a suite.
pub open spec fn suite_key_size(suite: Suite) -> nat {
    match suite {
        Suite::Aes128Gcm => 16,
        Suite::ChaCha20Poly1305 => 32,
    }
}

/// The bytes that Argon2id derives from the pre-shared key and the salt.
pub open spec fn derived_bytes(psk: Seq<u8>, salt: Seq<u8>) -> Seq<u8> {
    argon2id_output(ARGON2_M_COST, ARGON2_T_COST, ARGON2_P_COST, psk, salt, ARGON2_OUTPUT_LEN as nat)
}

/// The first `key_size` bytes that Argon2id derives from the pre-shared key and the salt.
pub open spec fn derived_key(psk: Seq<u8>, salt: Seq<u8>, key_size: nat) -> Seq<u8> {
    derived_bytes(psk, salt).take(key_size as int)
}

/// The key of a session: what the suite takes of the derived bytes.
pub open spec fn session_key(suite: Suite, psk: Seq<u8>, salt: Seq<u8>) -> Seq<u8> {
    derived_key(psk, salt, suite_key_size(suite))
}

/// The ciphertext of a plaintext under a suite, a key and a nonce.
pub open spec fn seal(suite: Suite, key: Seq<u8>, nonce: Seq<u8>, plaintext: Seq<u8>) -> Seq<u8> {
    match suite {
        Suite::Aes128Gcm => aes128_gcm_seal(key, nonce, plaintext),
        Suite::ChaCha20Poly1305 => chacha20_poly1305_seal(key, nonce, plaintext),
    }
}

/// The plaintext of a ciphertext under a suite, a key and a nonce; `None` where it is rejected.
pub open spec fn unseal(suite: Suite, key: Seq<u8>, nonce: Seq<u8>, ciphertext: Seq<u8>) -> Option<Seq<u8>> {
    match suite {
        Suite::Aes128Gcm => aes128_gcm_open(key, nonce, ciphertext),
        Suite::ChaCha20Poly1305 => chacha20_poly1305_open(key, nonce, ciphertext),
    }
}

/// Whether a suite encrypts messages of this length.
pub open spec fn seals_length(suite: Suite, len: nat) -> bool {
    match suite {
        Suite::Aes128Gcm => len <= 0x10_0000_0000,
        Suite::ChaCha20Poly1305 => len < 0x3F_FFFF_FFC0,
    }
}

/// The message lengths on which a suite's cipher returns at all.
pub open spec fn returns_on_length(suite: Suite, len: int) -> bool {
    suite is ChaCha20Poly1305 ==> !(0x3F_FFFF_FF80 < len < 0x3F_FFFF_FFC0)
}

/// Whether Argon2id takes a pre-shared key of this length.
pub open spec fn psk_fits(psk: Seq<u8>) -> bool {
    psk.len() <= 0xFFFF_FFFF
}

/// Whether Argon2id takes a salt of this length.
pub open spec fn salt_fits(salt: Seq<u8>) -> bool {
    8 <= salt.len() <= 0xFFFF_FFFF
}

/// Derives a key of `key_size` bytes from the pre-shared key and a salt: the first of the bytes that
/// Argon2id gives, so that a shorter key is the front of a longer one.
pub fn snell_kdf(psk: &[u8], salt: &[u8], key_size: usize) -> (key: Vec<u8>)
    requires
        psk_fits(psk@),
        salt_fits(salt@),
        key_size <= ARGON2_OUTPUT_LEN,
    ensures
        key@ == derived_key(psk@, salt@, key_size as nat),
        key@.len() == key_size,
        derived_bytes(psk@, salt@).len() == ARGON2_OUTPUT_LEN,
{
    let mut output = argon2id(ARGON2_M_COST, ARGON2_T_COST, ARGON2_P_COST, psk, salt, ARGON2_OUTPUT_LEN);
    output.truncate(key_size);
    output
}

/// Two keys from the same pre-shared key and salt differ in length alone: the shorter is the front
/// of the longer.
pub proof fn lemma_shorter_key(psk: Seq<u8>, salt: Seq<u8>, short: nat, long: nat)
    requires
        short <= long <= ARGON2_OUTPUT_LEN,
        derived_bytes(psk, salt).len() == ARGON2_OUTPUT_LEN,
    ensures
        derived_key(psk, salt, short).len() == short,
        derived_key(psk, salt, short) == derived_key(psk, salt, long).take(short as int),
{
    let all = derived_bytes(psk, salt);
    assert(all.take(long as int).take(short as int) =~= all.take(short as int));
}

/// A keyed cipher that seals and opens single messages.
pub trait AeadCipher: Send + Sync {
    /// The suite of this cipher.
    spec fn suite(&self) -> Suite;

    /// The key that this cipher was made with.
    spec fn key(&self) -> Seq<u8>;

    /// The key has the length that the suite asks for.
    open spec fn keyed(&self) -> bool {
        self.key().len() == suite_key_size(self.suite())
    }

    fn encrypt(&self, nonce: &[u8], plaintext: &[u8]) -> (r: Result<Vec<u8>, String>)
        requires
            self.keyed(),
            nonce@.len() == NONCE_SIZE,
            plaintext@.len() + TAG_SIZE <= isize::MAX,
            returns_on_length(self.suite(), plaintext@.len() as int),
        ensures
            r is Ok <==> seals_length(self.suite(), plaintext@.len()),
            r matches Ok(c) ==> c@ == seal(self.suite(), self.key(), nonce@, plaintext@),
            r matches Ok(c) ==> c@.len() == plaintext@.len() + TAG_SIZE,
            r matches Ok(c) ==> unseal(self.suite(), self.key(), nonce@, c@) == Some(plaintext@),
            r matches Err(e) ==> e@ == rejection(),
    ;

    fn decrypt(&self, nonce: &[u8], ciphertext: &[u8]) -> (r: Result<Vec<u8>, String>)
        requires
            self.keyed(),
            nonce@.len() == NONCE_SIZE,
            returns_on_length(self.suite(), ciphertext@.len() - TAG_SIZE),
        ensures
            r is Ok <==> unseal(self.suite(), self.key(), nonce@, ciphertext@) is Some,
            r matches Ok(p) ==> unseal(self.suite(), self.key(), nonce@, ciphertext@) == Some(p@),
            r matches Ok(p) ==> p@.len() + TAG_SIZE == ciphertext@.len(),
            r matches Err(e) ==> e@ == rejection(),
    ;

    fn nonce_size(&self) -> (n: usize)
        ensures
            n == NONCE_SIZE,
    ;

    fn tag_size(&self) -> (n: usize)
        ensures
            n == TAG_SIZE,
    ;
}

/// A cipher suite together with a pre-shared key, from which each salt makes a session cipher.
pub trait Cipher: Send + Sync {
    type Aead: AeadCipher;

    /// The suite of the session ciphers.
    spec fn suite(&self) -> Suite;

    /// The pre-shared key.
    spec fn psk(&self) -> Seq<u8>;

    fn key_size(&self) -> (n: usize)
        ensures
            n == suite_key_size(self.suite()),
    ;

    fn encrypter(&self, salt: &[u8]) -> (r: Self::Aead)
        requires
            psk_fits(self.psk()),
            salt_fits(salt@),
        ensures
            r.suite() == self.suite(),
            r.key() == session_key(self.suite(), self.psk(), salt@),
            r.keyed(),
    ;

    fn decrypter(&self, salt: &[u8]) -> (r: Self::Aead)
        requires
            psk_fits(self.psk()),
            salt_fits(salt@),
        ensures
            r.suite() == self.suite(),
            r.key() == session_key(self.suite(), self.psk(), salt@),
            r.keyed(),
    ;
}

// ---- AES-128-GCM ----

/// AES-128-GCM under a pre-shared key.
pub struct Aes128GcmCipher {
    psk: Vec<u8>,
}

/// AES-128-GCM under a session key.
pub struct Aes128GcmAead {
    key: Vec<u8>,
}

impl AeadCipher for Aes128GcmAead {
    open spec fn suite(&self) -> Suite {
        Suite::Aes128Gcm
    }

    closed spec fn key(&self) -> Seq<u8> {
        self.key@
    }

    fn encrypt(&self, nonce: &[u8], plaintext: &[u8]) -> (r: Result<Vec<u8>, String>) {
        aes128_gcm_encrypt(self.key.as_slice(), nonce, plaintext)
    }

    fn decrypt(&self, nonce: &[u8], ciphertext: &[u8]) -> (r: Result<Vec<u8>, String>) {
        aes128_gcm_decrypt(self.key.as_slice(), nonce, ciphertext)
    }

    fn nonce_size(&self) -> (n: usize) {
        NONCE_SIZE
    }

    fn tag_size(&self) -> (n: usize) {
        TAG_SIZE
    }
}

impl Cipher for Aes128GcmCipher {
    type Aead = Aes128GcmAead;

    open spec fn suite(&self) -> Suite {
        Suite::Aes128Gcm
    }

    closed spec fn psk(&self) -> Seq<u8> {
        self.psk@
    }

    fn key_size(&self) -> (n: usize) {
        16
    }

    fn encrypter(&self, salt: &[u8]) -> (r: Aes128GcmAead) {
        Aes128GcmAead { key: snell_kdf(self.psk.as_slice(), salt, 16) }
    }

    fn decrypter(&self, salt: &[u8]) -> (r: Aes128GcmAead) {
        Aes128GcmAead { key: snell_kdf(self.psk.as_slice(), salt, 16) }
    }
}

// ---- ChaCha20-Poly1305 ----

/// ChaCha20-Poly1305 under a pre-shared key.
pub struct ChaCha20Poly1305Cipher {
    psk: Vec<u8>,
}

/// ChaCha20-Poly1305 under a session key.
pub struct ChaCha20Aead {
    key: Vec<u8>,
}

impl AeadCipher for ChaCha20Aead {
    open spec fn suite(&self) -> Suite {
        Suite::ChaCha20Poly1305
    }

    closed spec fn key(&self) -> Seq<u8> {
        self.key@
    }

    fn encrypt(&self, nonce: &[u8], plaintext: &[u8]) -> (r: Result<Vec<u8>, String>) {
        chacha20_poly1305_encrypt(self.key.as_slice(), nonce, plaintext)
    }

    fn decrypt(&self, nonce: &[u8], ciphertext: &[u8]) -> (r: Result<Vec<u8>, String>) {
        chacha20_poly1305_decrypt(self.key.as_slice(), nonce, ciphertext)
    }

    fn nonce_size(&self) -> (n: usize) {
        NONCE_SIZE
    }

    fn tag_size(&self) -> (n: usize) {
        TAG_SIZE
    }
}

impl Cipher for ChaCha20Poly1305Cipher {
    type Aead = ChaCha20Aead;

    open spec fn suite(&self) -> Suite {
        Suite::ChaCha20Poly1305
    }

    closed spec fn psk(&self) -> Seq<u8> {
        self.psk@
    }

    fn key_size(&self) -> (n: usize) {
        32
    }

    fn encrypter(&self, salt: &[u8]) -> (r: ChaCha20Aead) {
        ChaCha20Aead { key: snell_kdf(self.psk.as_slice(), salt, 32) }
    }

    fn decrypter(&self, salt: &[u8]) -> (r: ChaCha20Aead) {
        ChaCha20Aead { key: snell_kdf(self.psk.as_slice(), salt, 32) }
    }
}

// ---- Either suite ----

/// A cipher of either suite, for code that picks the suite at run time.
pub enum AnyCipher {
    Aes128Gcm(Aes128GcmCipher),
    ChaCha20Poly1305(ChaCha20Poly1305Cipher),
}

/// A session cipher of either suite.
pub enum AnyAead {
    Aes128Gcm(Aes128GcmAead),
    ChaCha20Poly1305(ChaCha20Aead),
}

impl AeadCipher for AnyAead {
    open spec fn suite(&self) -> Suite {
        match self {
            AnyAead::Aes128Gcm(a) => a.suite(),
            AnyAead::ChaCha20Poly1305(a) => a.suite(),
        }
    }

    open spec fn key(&self) -> Seq<u8> {
        match self {
            AnyAead::Aes128Gcm(a) => a.key(),
            AnyAead::ChaCha20Poly1305(a) => a.key(),
        }
    }

    fn encrypt(&self, nonce: &[u8], plaintext: &[u8]) -> (r: Result<Vec<u8>, String>) {
        match self {
            AnyAead::Aes128Gcm(a) => a.encrypt(nonce, plaintext),
            AnyAead::ChaCha20Poly1305(a) => a.encrypt(nonce, plaintext),
        }
    }

    fn decrypt(&self, nonce: &[u8], ciphertext: &[u8]) -> (r: Result<Vec<u8>, String>) {
        match self {
            AnyAead::Aes128Gcm(a) => a.decrypt(nonce, ciphertext),
            AnyAead::ChaCha20Poly1305(a) => a.decrypt(nonce, ciphertext),
        }
    }

    fn nonce_size(&self) -> (n: usize) {
        match self {
            AnyAead::Aes128Gcm(a) => a.nonce_size(),
            AnyAead::ChaCha20Poly1305(a) => a.nonce_size(),
        }
    }

    fn tag_size(&self) -> (n: usize) {
        match self {
            AnyAead::Aes128Gcm(a) => a.tag_size(),
            AnyAead::ChaCha20Poly1305(a) => a.tag_size(),
        }
    }
}

impl Cipher for AnyCipher {
    type Aead = AnyAead;

    open spec fn suite(&self) -> Suite {
        match self {
            AnyCipher::Aes128Gcm(c) => c.suite(),
            AnyCipher::ChaCha20Poly1305(c) => c.suite(),
        }
    }

    open spec fn psk(&self) -> Seq<u8> {
        match self {
            AnyCipher::Aes128Gcm(c) => c.psk(),
            AnyCipher::ChaCha20Poly1305(c) => c.psk(),
        }
    }

    fn key_size(&self) -> (n: usize) {
        match self {
            AnyCipher::Aes128Gcm(c) => c.key_size(),
            AnyCipher::ChaCha20Poly1305(c) => c.key_size(),
        }
    }

    fn encrypter(&self, salt: &[u8]) -> (r: AnyAead) {
        match self {
            AnyCipher::Aes128Gcm(c) => AnyAead::Aes128Gcm(c.encrypter(salt)),
            AnyCipher::ChaCha20Poly1305(c) => AnyAead::ChaCha20Poly1305(c.encrypter(salt)),
        }
    }

    fn decrypter(&self, salt: &[u8]) -> (r: AnyAead) {
        match self {
            AnyCipher::Aes128Gcm(c) => AnyAead::Aes128Gcm(c.decrypter(salt)),
            AnyCipher::ChaCha20Poly1305(c) => AnyAead::ChaCha20Poly1305(c.decrypter(salt)),
        }
    }
}

/// AES-128-GCM under a pre-shared key.
pub fn new_aes128_gcm(psk: &[u8]) -> (cipher: AnyCipher)
    ensures
        cipher.suite() == Suite::Aes128Gcm,
        cipher.psk() == psk@,
{
    AnyCipher::Aes128Gcm(Aes128GcmCipher { psk: slice_to_vec(psk) })
}

/// ChaCha20-Poly1305 under a pre-shared key.
pub fn new_chacha20_poly1305(psk: &[u8]) -> (cipher: AnyCipher)
    ensures
        cipher.suite() == Suite::ChaCha20Poly1305,
        cipher.psk() == psk@,
{
    AnyCipher::ChaCha20Poly1305(ChaCha20Poly1305Cipher { psk: slice_to_vec(psk) })
}

// ---- Nonces ----

/// The number that a nonce holds, least significant byte first.
pub open spec fn nonce_value(nonce: Seq<u8>) -> nat
    decreases nonce.len(),
{
    if nonce.len() == 0 {
        0
    } else {
        nonce[0] as nat + 256 * nonce_value(nonce.drop_first())
    }
}

/// The nonce that follows: one more, wrapping from the largest number to zero.
pub open spec fn next_nonce(nonce: Seq<u8>) -> Seq<u8>
    decreases nonce.len(),
{
    if nonce.len() == 0 {
        nonce
    } else if nonce[0] < 255 {
        nonce.update(0, (nonce[0] + 1) as u8)
    } else {
        seq![0u8] + next_nonce(nonce.drop_first())
    }
}

/// The nonce after `n` steps.
pub open spec fn nonce_after(nonce: Seq<u8>, n: nat) -> Seq<u8>
    decreases n,
{
    if n == 0 {
        nonce
    } else {
        next_nonce(nonce_after(nonce, (n - 1) as nat))
    }
}

/// The nonce of the first record of a direction.
pub open spec fn zero_nonce() -> Seq<u8> {
    Seq::new(NONCE_SIZE as nat, |i: int| 0u8)
}

/// A step keeps the length of a nonce.
pub proof fn lemma_next_nonce_len(nonce: Seq<u8>)
    ensures
        next_nonce(nonce).len() == nonce.len(),
    decreases nonce.len(),
{
    if nonce.len() > 0 && nonce[0] == 255 {
        lemma_next_nonce_len(nonce.drop_first());
    }
}

/// A step adds one to the number that a nonce holds, modulo the range of its length.
pub proof fn lemma_next_nonce_value(nonce: Seq<u8>)
    ensures
        nonce_value(nonce) < vstd::arithmetic::power::pow(256, nonce.len()),
        nonce_value(next_nonce(nonce)) == if nonce_value(nonce) + 1 == vstd::arithmetic::power::pow(256, nonce.len()) {
            0
        } else {
            nonce_value(nonce) + 1
        },
    decreases nonce.len(),
{
    reveal(vstd::arithmetic::power::pow);
    if nonce.len() > 0 {
        let rest = nonce.drop_first();
        lemma_next_nonce_value(rest);
        let next = next_nonce(nonce);
        assert(vstd::arithmetic::power::pow(256, nonce.len()) == 256 * vstd::arithmetic::power::pow(256, rest.len()));
        if nonce[0] < 255 {
            assert(next.drop_first() =~= rest);
        } else {
            assert(next.drop_first() =~= next_nonce(rest));
        }
    }
}

proof fn lemma_nonce_after(nonce: Seq<u8>, n: nat)
    requires
        nonce_value(nonce) + n < vstd::arithmetic::power::pow(256, nonce.len()),
    ensures
        nonce_after(nonce, n).len() == nonce.len(),
        nonce_value(nonce_after(nonce, n)) == nonce_value(nonce) + n,
    decreases n,
{
    if n > 0 {
        lemma_nonce_after(nonce, (n - 1) as nat);
        lemma_next_nonce_value(nonce_after(nonce, (n - 1) as nat));
        lemma_next_nonce_len(nonce_after(nonce, (n - 1) as nat));
    }
}

/// The nonces of the first 2^96 messages of a direction are pairwise different: no session key
/// meets a nonce twice.
pub proof fn lemma_nonces_never_repeat(i: nat, j: nat)
    requires
        i < j < vstd::arithmetic::power::pow(256, NONCE_SIZE as nat),
    ensures
        nonce_after(zero_nonce(), i) != nonce_after(zero_nonce(), j),
{
    lemma_zero_value(NONCE_SIZE as nat);
    lemma_nonce_after(zero_nonce(), i);
    lemma_nonce_after(zero_nonce(), j);
}

proof fn lemma_zero_value(n: nat)
    ensures
        nonce_value(Seq::new(n, |i: int| 0u8)) == 0,
    decreases n,
{
    if n > 0 {
        lemma_zero_value((n - 1) as nat);
        assert(Seq::new(n, |i: int| 0u8).drop_first() =~= Seq::new((n - 1) as nat, |i: int| 0u8));
    }
}

/// Steps a nonce, least significant byte first.
pub fn increment_nonce(nonce: &mut [u8])
    ensures
        final(nonce)@ == next_nonce(old(nonce)@),
        final(nonce)@.len() == old(nonce)@.len(),
        nonce_value(final(nonce)@) == (if nonce_value(old(nonce)@) + 1 == vstd::arithmetic::power::pow(256, old(nonce)@.len()) {
            0
        } else {
            nonce_value(old(nonce)@) + 1
        }),
{
    proof {
        lemma_next_nonce_len(nonce@);
        lemma_next_nonce_value(nonce@);
    }
    let ghost before = nonce@;
    let n: usize = nonce.len();
    let mut i: usize = 0;
    assert(before.skip(0) =~= before);
    while i < n
        invariant
            i <= n,
            n == before.len(),
            before == old(nonce)@,
            next_nonce(before).len() == n,
            nonce_value(next_nonce(before)) == (if nonce_value(before) + 1 == vstd::arithmetic::power::pow(256, n as nat) {
                0
            } else {
                nonce_value(before) + 1
            }),
            nonce@.len() == n,
            nonce@.skip(i as int) == before.skip(i as int),
            next_nonce(before) == nonce@.take(i as int) + next_nonce(before.skip(i as int)),
        decreases n - i,
    {
        let b: u8 = nonce[i];
        let ghost rest = before.skip(i as int);
        assert(rest[0] == b) by {
            assert(nonce@.skip(i as int)[0] == b);
        }
        let ghost prior = nonce@;
        nonce[i] = b.wrapping_add(1);
        if nonce[i] != 0 {
            assert(nonce@ =~= prior.take(i as int) + rest.update(0, (b + 1) as u8)) by {
                assert forall|k: int| i < k < n implies nonce@[k] == rest[k - i] by {
                    assert(prior.skip(i as int)[k - i] == prior[k]);
                }
            }
            return;
        }
        assert(rest.drop_first() =~= before.skip(i + 1));
        assert(nonce@.take(i + 1) =~= prior.take(i as int) + seq![0u8]);
        assert(nonce@.skip(i + 1) =~= before.skip(i + 1)) by {
            assert forall|k: int| i < k < n implies nonce@[k] == before[k] by {
                assert(prior.skip(i as int)[k - i] == prior[k]);
                assert(before.skip(i as int)[k - i] == before[k]);
            }
        }
        i = i + 1;
    }
    assert(nonce@ =~= nonce@.take(n as int) + next_nonce(before.skip(n as int)));
}

// ---- The suites, in plain terms ----

/// The key of a session is the front of what Argon2id derives from the pre-shared key and the salt, with
/// 8 KiB, three passes and one lane: 16 bytes for AES-128-GCM, 32 for ChaCha20-Poly1305. A message is
/// sealed and opened with the cipher that the suite names.
pub proof fn lemma_suites(psk: Seq<u8>, salt: Seq<u8>, key: Seq<u8>, nonce: Seq<u8>, message: Seq<u8>)
    ensures
        session_key(Suite::Aes128Gcm, psk, salt) == argon2id_output(8, 3, 1, psk, salt, 32).take(16),
        session_key(Suite::ChaCha20Poly1305, psk, salt) == argon2id_output(8, 3, 1, psk, salt, 32).take(32),
        seal(Suite::Aes128Gcm, key, nonce, message) == aes128_gcm_seal(key, nonce, message),
        seal(Suite::ChaCha20Poly1305, key, nonce, message) == chacha20_poly1305_seal(key, nonce, message),
        unseal(Suite::Aes128Gcm, key, nonce, message) == aes128_gcm_open(key, nonce, message),
        unseal(Suite::ChaCha20Poly1305, key, nonce, message) == chacha20_poly1305_open(key, nonce, message),
{
}

/// The nonce of a message is the number of messages before it, in twelve bytes, least significant first.
pub proof fn lemma_nonce_is_count(n: nat)
    requires
        n < vstd::arithmetic::power::pow(256, 12),
    ensures
        nonce_after(zero_nonce(), n).len() == 12,
        nonce_value(nonce_after(zero_nonce(), n)) == n,
{
    lemma_zero_value(NONCE_SIZE as nat);
    lemma_nonce_after(zero_nonce(), n);
}

/// The number that a nonce holds counts each byte 256 times what it counts the one before it.
pub proof fn lemma_nonce_bytes(b: u8, rest: Seq<u8>)
    ensures
        nonce_value(seq![]) == 0,
        nonce_value(seq![b] + rest) == b + 256 * nonce_value(rest),
{
    assert((seq![b] + rest).drop_first() =~= rest);
}

/// Which lengths the suites take: AES-128-GCM up to 2^36 bytes, ChaCha20-Poly1305 short of 2^38 - 64;
/// Argon2id takes keys and salts up to 2^32 - 1 bytes, salts from 8 bytes on.
pub proof fn lemma_lengths(len: nat, psk: Seq<u8>, salt: Seq<u8>)
    ensures
        seals_length(Suite::Aes128Gcm, len) <==> len <= 68719476736,
        seals_length(Suite::ChaCha20Poly1305, len) <==> len < 274877906880,
        returns_on_length(Suite::Aes128Gcm, len as int),
        returns_on_length(Suite::ChaCha20Poly1305, len as int) <==> len <= 274877906816 || len >= 274877906880,
        psk_fits(psk) <==> psk.len() <= 4294967295,
        salt_fits(salt) <==> 8 <= salt.len() <= 4294967295,
{
}

}
