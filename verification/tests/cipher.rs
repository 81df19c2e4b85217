use envio::cipher::decrypt;
use envio::cipher::derive_key;
use envio::cipher::encrypt;
use envio::cipher::random_bytes;
use envio::cipher::seal_with_nonce;
use envio::cipher::Key;
use envio::cipher::KEY_LEN;
use envio::cipher::MAX_PLAINTEXT;
use envio::cipher::NONCE_LEN;
use envio::cipher::TAG_LEN;
use envio::error::CryptoError;

fn fixed_key() -> Key {
    Key::from_bytes(&[7u8; 32]).unwrap()
}

#[test]
fn derive_key_matches_the_known_answer() {
    let key = derive_key("Password", b"NaCl");
    let expected: [u8; 32] = [
        0x4d, 0xdc, 0xd8, 0xf6, 0x0b, 0x98, 0xbe, 0x21, 0x83, 0x0c, 0xee, 0x5e, 0xf2, 0x27, 0x01,
        0xf9, 0x64, 0x1a, 0x44, 0x18, 0xd0, 0x4c, 0x04, 0x14, 0xae, 0xff, 0x08, 0x87, 0x6b, 0x34,
        0xab, 0x56,
    ];
    assert_eq!(key.as_bytes().len(), KEY_LEN);
    assert_eq!(key.as_bytes(), &expected[..]);
}

#[test]
fn derive_key_depends_on_passphrase_and_salt() {
    let a = derive_key("correct-horse-battery", b"0123456789abcdef");
    let b = derive_key("correct-horse-battery", b"0123456789abcdef");
    let c = derive_key("correct-horse-battery", b"0123456789abcdeX");
    let d = derive_key("correct-horse-batterY", b"0123456789abcdef");
    assert_eq!(a.as_bytes(), b.as_bytes());
    assert_ne!(a.as_bytes(), c.as_bytes());
    assert_ne!(a.as_bytes(), d.as_bytes());
}

#[test]
fn key_from_bytes_wants_the_full_length() {
    assert!(Key::from_bytes(&[0u8; 31]).is_none());
    assert!(Key::from_bytes(&[0u8; 33]).is_none());
    let key = Key::from_bytes(&[9u8; 32]).unwrap();
    assert_eq!(key.as_bytes(), &[9u8; 32][..]);
}

#[test]
fn seal_then_open_gives_the_plaintext() {
    let key = fixed_key();
    let nonce = [1u8; 12];
    let plaintext = b"API_KEY=abc123".to_vec();
    let sealed = seal_with_nonce(&plaintext, &key, &nonce).unwrap();
    assert_eq!(sealed.len(), plaintext.len() + TAG_LEN);
    assert_ne!(&sealed[..plaintext.len()], &plaintext[..]);
    assert_eq!(decrypt(&nonce, &sealed, &key), Ok(plaintext));
}

#[test]
fn seal_is_a_function_of_key_nonce_and_plaintext() {
    let key = fixed_key();
    let a = seal_with_nonce(b"payload", &key, &[1u8; 12]).unwrap();
    let b = seal_with_nonce(b"payload", &key, &[1u8; 12]).unwrap();
    let c = seal_with_nonce(b"payload", &key, &[2u8; 12]).unwrap();
    assert_eq!(a, b);
    assert_ne!(a, c);
}

#[test]
fn seal_of_the_empty_plaintext_is_the_tag() {
    let key = fixed_key();
    let sealed = seal_with_nonce(b"", &key, &[0u8; 12]).unwrap();
    assert_eq!(sealed.len(), TAG_LEN);
    assert_eq!(decrypt(&[0u8; 12], &sealed, &key), Ok(Vec::new()));
}

#[test]
fn decrypt_rejects_a_wrong_key() {
    let key = fixed_key();
    let other = Key::from_bytes(&[8u8; 32]).unwrap();
    let sealed = seal_with_nonce(b"secret", &key, &[3u8; 12]).unwrap();
    assert_eq!(decrypt(&[3u8; 12], &sealed, &other), Err(CryptoError::AuthenticationFailed));
}

#[test]
fn decrypt_rejects_a_changed_ciphertext() {
    let key = fixed_key();
    let nonce = [3u8; 12];
    let sealed = seal_with_nonce(b"secret", &key, &nonce).unwrap();
    for i in 0..sealed.len() {
        let mut changed = sealed.clone();
        changed[i] ^= 1;
        assert_eq!(decrypt(&nonce, &changed, &key), Err(CryptoError::AuthenticationFailed));
    }
    assert_eq!(decrypt(&nonce, &sealed[..sealed.len() - 1], &key), Err(CryptoError::AuthenticationFailed));
    assert_eq!(decrypt(&nonce, &[], &key), Err(CryptoError::AuthenticationFailed));
}

#[test]
fn decrypt_rejects_a_wrong_nonce() {
    let key = fixed_key();
    let sealed = seal_with_nonce(b"secret", &key, &[3u8; 12]).unwrap();
    assert_eq!(decrypt(&[4u8; 12], &sealed, &key), Err(CryptoError::AuthenticationFailed));
    assert_eq!(decrypt(&[3u8; 11], &sealed, &key), Err(CryptoError::AuthenticationFailed));
    assert_eq!(decrypt(&[], &sealed, &key), Err(CryptoError::AuthenticationFailed));
}

#[test]
fn encrypt_draws_a_fresh_nonce_each_time() {
    let key = fixed_key();
    let (nonce_a, sealed_a) = encrypt(b"same payload", &key).unwrap();
    let (nonce_b, sealed_b) = encrypt(b"same payload", &key).unwrap();
    assert_eq!(nonce_a.len(), NONCE_LEN);
    assert_eq!(nonce_b.len(), NONCE_LEN);
    assert_ne!(nonce_a, nonce_b);
    assert_ne!(sealed_a, sealed_b);
    assert_eq!(decrypt(&nonce_a, &sealed_a, &key), Ok(b"same payload".to_vec()));
    assert_eq!(decrypt(&nonce_b, &sealed_b, &key), Ok(b"same payload".to_vec()));
}

#[test]
fn a_payload_over_the_limit_is_refused() {
    let key = fixed_key();
    let large = vec![0u8; MAX_PLAINTEXT + 1];
    assert_eq!(seal_with_nonce(&large, &key, &[0u8; 12]), Err(CryptoError::MessageTooLarge));
    assert_eq!(encrypt(&large, &key).err(), Some(CryptoError::MessageTooLarge));
}

#[test]
fn random_bytes_have_the_length_asked_for() {
    assert_eq!(random_bytes(0).unwrap().len(), 0);
    assert_eq!(random_bytes(16).unwrap().len(), 16);
    let a = random_bytes(32).unwrap();
    let b = random_bytes(32).unwrap();
    assert_ne!(a, b);
}
