use aes_gcm::aead::{Aead, KeyInit};
use rust_snell::aead::{increment_nonce, new_aes128_gcm, new_chacha20_poly1305, snell_kdf, AeadCipher, Cipher};

#[test]
fn nonce_counts_from_the_first_byte() {
    let mut nonce = [0u8; 12];
    increment_nonce(&mut nonce);
    assert_eq!(nonce, [1, 0, 0, 0, 0, 0, 0, 0, 0, 0, 0, 0]);
    nonce[0] = 255;
    increment_nonce(&mut nonce);
    assert_eq!(nonce, [0, 1, 0, 0, 0, 0, 0, 0, 0, 0, 0, 0]);
}

#[test]
fn nonce_wraps_to_zero() {
    let mut nonce = [255u8; 12];
    increment_nonce(&mut nonce);
    assert_eq!(nonce, [0u8; 12]);
    let mut empty: [u8; 0] = [];
    increment_nonce(&mut empty);
}

#[test]
fn nonces_of_many_steps_differ() {
    let mut nonce = [0u8; 12];
    let mut seen = std::collections::HashSet::new();
    for _ in 0..1000 {
        assert!(seen.insert(nonce));
        increment_nonce(&mut nonce);
    }
    assert_eq!(nonce[..3], [232, 3, 0]);
}

#[test]
fn keys_are_prefixes_of_the_argon2id_output() {
    let salt = [7u8; 16];
    let mut expected = [0u8; 32];
    let params = argon2::Params::new(8, 3, 1, Some(32)).unwrap();
    argon2::Argon2::new(argon2::Algorithm::Argon2id, argon2::Version::V0x13, params)
        .hash_password_into(b"secret", &salt, &mut expected)
        .unwrap();
    assert_eq!(snell_kdf(b"secret", &salt, 32), expected.to_vec());
    assert_eq!(snell_kdf(b"secret", &salt, 16), expected[..16].to_vec());
    assert_ne!(snell_kdf(b"other", &salt, 16), expected[..16].to_vec());
    assert_ne!(snell_kdf(b"secret", &[8u8; 16], 16), expected[..16].to_vec());
}

#[test]
fn aes_seals_as_the_cipher_does() {
    let cipher = new_aes128_gcm(b"secret");
    assert_eq!(cipher.key_size(), 16);
    let salt = [1u8; 16];
    let nonce = [2u8; 12];
    let sealed = cipher.encrypter(&salt).encrypt(&nonce, b"hello").unwrap();
    let key = snell_kdf(b"secret", &salt, 16);
    let outside = aes_gcm::Aes128Gcm::new_from_slice(&key).unwrap();
    let expected = outside.encrypt(aes_gcm::Nonce::from_slice(&nonce), &b"hello"[..]).unwrap();
    assert_eq!(sealed, expected);
    assert_eq!(sealed.len(), 21);
    assert_eq!(cipher.decrypter(&salt).decrypt(&nonce, &sealed).unwrap(), b"hello".to_vec());
}

#[test]
fn chacha_seals_as_the_cipher_does() {
    let cipher = new_chacha20_poly1305(b"secret");
    assert_eq!(cipher.key_size(), 32);
    let salt = [1u8; 16];
    let nonce = [2u8; 12];
    let sealed = cipher.encrypter(&salt).encrypt(&nonce, b"hello").unwrap();
    let key = snell_kdf(b"secret", &salt, 32);
    let outside = chacha20poly1305::ChaCha20Poly1305::new_from_slice(&key).unwrap();
    let expected = outside.encrypt(chacha20poly1305::Nonce::from_slice(&nonce), &b"hello"[..]).unwrap();
    assert_eq!(sealed, expected);
    assert_eq!(cipher.decrypter(&salt).decrypt(&nonce, &sealed).unwrap(), b"hello".to_vec());
}

#[test]
fn changed_messages_do_not_open() {
    for cipher in [new_aes128_gcm(b"secret"), new_chacha20_poly1305(b"secret")] {
        let aead = cipher.encrypter(&[1u8; 16]);
        assert_eq!(aead.nonce_size(), 12);
        assert_eq!(aead.tag_size(), 16);
        let sealed = aead.encrypt(&[0u8; 12], b"hello").unwrap();
        let mut changed = sealed.clone();
        changed[0] ^= 1;
        assert!(aead.decrypt(&[0u8; 12], &changed).is_err());
        assert!(aead.decrypt(&[1u8; 12], &sealed).is_err());
        assert!(aead.decrypt(&[0u8; 12], &sealed[..15]).is_err());
        assert!(cipher.decrypter(&[2u8; 16]).decrypt(&[0u8; 12], &sealed).is_err());
        assert_eq!(aead.decrypt(&[0u8; 12], &aead.encrypt(&[0u8; 12], b"").unwrap()).unwrap(), Vec::<u8>::new());
    }
}

#[test]
fn the_suites_reject_each_other() {
    let aes = new_aes128_gcm(b"secret");
    let chacha = new_chacha20_poly1305(b"secret");
    let sealed = chacha.encrypter(&[3u8; 16]).encrypt(&[0u8; 12], &[0, 5]).unwrap();
    assert!(aes.decrypter(&[3u8; 16]).decrypt(&[0u8; 12], &sealed).is_err());
}
