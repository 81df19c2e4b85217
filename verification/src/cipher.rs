//! The cipher engine: a key stretched from a passphrase, and authenticated
//! encryption under that key.

use crate::error::CryptoError;
use chacha20poly1305::aead::Aead;
use chacha20poly1305::aead::KeyInit;
use vstd::prelude::*;
use vstd::slice::slice_to_vec;
use vstd::utf8::encode_utf8;

verus! {

/// The length of a key in bytes.
pub const KEY_LEN: usize = 32;

/// The length of a salt in bytes.
pub const SALT_LEN: usize = 16;

/// The length of a nonce in bytes.
pub const NONCE_LEN: usize = 12;

/// The length of the authentication tag that closes a ciphertext.
pub const TAG_LEN: usize = 16;

/// How often the key derivation iterates.
pub const KDF_ROUNDS: u32 = 80_000;

/// The longest payload that is encrypted under one nonce.
pub const MAX_PLAINTEXT: usize = 0x400_0000;

/// What PBKDF2 with HMAC-SHA-256 derives from a password and a salt in
/// `rounds` iterations, as 32 bytes.
pub uninterp spec fn pbkdf2_hmac_sha256(password: Seq<u8>, salt: Seq<u8>, rounds: u32) -> Seq<u8>;

/// The ciphertext, tag included, that ChaCha20-Poly1305 makes of a plaintext
/// under a key and a nonce, without associated data.
pub uninterp spec fn chacha20poly1305_seal(key: Seq<u8>, nonce: Seq<u8>, plaintext: Seq<u8>) -> Seq<u8>;

/// The plaintext that ChaCha20-Poly1305 recovers from a ciphertext under a key
/// and a nonce, or `None` where the tag does not match.
pub uninterp spec fn chacha20poly1305_open(key: Seq<u8>, nonce: Seq<u8>, ciphertext: Seq<u8>) -> Option<Seq<u8>>;

/// `pbkdf2_hmac_array` of the crate pbkdf2, with SHA-256 and 32 bytes of
/// output.  The result depends on the arguments alone and is 32 bytes long.
#[verifier::external_body]
fn pbkdf2_sha256(password: &[u8], salt: &[u8], rounds: u32) -> (out: Vec<u8>)
    ensures
        out@ == pbkdf2_hmac_sha256(password@, salt@, rounds),
        out@.len() == KEY_LEN,
{
    pbkdf2::pbkdf2_hmac_array::<sha2::Sha256, 32>(password, salt, rounds).to_vec()
}

/// `Aead::encrypt` of `ChaCha20Poly1305`.  For a plaintext within the limit it
/// succeeds; the ciphertext depends on the arguments alone, is longer than
/// the plaintext by the tag, and opens to the plaintext under the same key
/// and nonce.
#[verifier::external_body]
fn aead_encrypt(key: &[u8], nonce: &[u8], plaintext: &[u8]) -> (sealed: Option<Vec<u8>>)
    requires
        key@.len() == KEY_LEN,
        nonce@.len() == NONCE_LEN,
        plaintext@.len() <= MAX_PLAINTEXT,
    ensures
        sealed is Some,
        sealed->0@ == chacha20poly1305_seal(key@, nonce@, plaintext@),
        sealed->0@.len() == plaintext@.len() + TAG_LEN,
        chacha20poly1305_open(key@, nonce@, sealed->0@) == Some(plaintext@),
{
    let cipher = chacha20poly1305::ChaCha20Poly1305::new(chacha20poly1305::Key::from_slice(key));
    cipher.encrypt(chacha20poly1305::Nonce::from_slice(nonce), plaintext).ok()
}

/// `Aead::decrypt` of `ChaCha20Poly1305`.  The result depends on the arguments
/// alone; it is `None` where the ciphertext is not authentic under the key
/// and nonce.
#[verifier::external_body]
fn aead_decrypt(key: &[u8], nonce: &[u8], ciphertext: &[u8]) -> (plain: Option<Vec<u8>>)
    requires
        key@.len() == KEY_LEN,
        nonce@.len() == NONCE_LEN,
    ensures
        match plain {
            Some(p) => chacha20poly1305_open(key@, nonce@, ciphertext@) == Some(p@),
            None => chacha20poly1305_open(key@, nonce@, ciphertext@) is None,
        },
{
    let cipher = chacha20poly1305::ChaCha20Poly1305::new(chacha20poly1305::Key::from_slice(key));
    cipher.decrypt(chacha20poly1305::Nonce::from_slice(nonce), ciphertext).ok()
}

/// `getrandom` of the crate getrandom: overwrites the buffer with bytes from
/// the system's random source, and says whether that succeeded.  The length
/// of the buffer stays; nothing is known of the bytes.
#[verifier::external_body]
fn os_random(dest: &mut Vec<u8>) -> (filled: bool)
    ensures
        final(dest)@.len() == old(dest)@.len(),
{
    getrandom::getrandom(dest.as_mut_slice()).is_ok()
}

/// `len` fresh random bytes, or `None` where the random source fails.
pub fn random_bytes(len: usize) -> (bytes: Option<Vec<u8>>)
    ensures
        bytes is Some ==> bytes->0@.len() == len,
        len == 0 ==> bytes is Some,
{
    if len == 0 {
        return Some(Vec::new());
    }
    let mut buffer: Vec<u8> = Vec::new();
    let mut i: usize = 0;
    while i < len
        invariant
            0 <= i <= len,
            buffer@.len() == i,
        decreases len - i,
    {
        buffer.push(0u8);
        i += 1;
    }
    if os_random(&mut buffer) {
        Some(buffer)
    } else {
        None
    }
}

/// A symmetric key.
#[derive(Clone, Debug)]
pub struct Key {
    bytes: Vec<u8>,
}

impl View for Key {
    type V = Seq<u8>;

    closed spec fn view(&self) -> Seq<u8> {
        self.bytes@
    }
}

impl Key {
    /// The key has its full length.
    pub open spec fn wf(&self) -> bool {
        self@.len() == KEY_LEN
    }

    /// The key made of `bytes`, where they are as many as a key has.
    pub fn from_bytes(bytes: &[u8]) -> (key: Option<Key>)
        ensures
            match key {
                Some(k) => bytes@.len() == KEY_LEN && k@ == bytes@ && k.wf(),
                None => bytes@.len() != KEY_LEN,
            },
    {
        if bytes.len() == KEY_LEN {
            Some(Key { bytes: slice_to_vec(bytes) })
        } else {
            None
        }
    }

    /// The bytes of the key.
    pub fn as_bytes(&self) -> (bytes: &[u8])
        ensures
            bytes@ == self@,
    {
        self.bytes.as_slice()
    }
}

/// The key that belongs to a passphrase and a salt.
pub open spec fn derived_key(passphrase: Seq<char>, salt: Seq<u8>) -> Seq<u8> {
    pbkdf2_hmac_sha256(encode_utf8(passphrase), salt, KDF_ROUNDS)
}

/// Stretches a passphrase and a salt into a key.  The same passphrase and
/// salt always give the same key.
pub fn derive_key(passphrase: &str, salt: &[u8]) -> (key: Key)
    ensures
        key.wf(),
        key@ == derived_key(passphrase@, salt@),
{
    Key { bytes: pbkdf2_sha256(passphrase.as_bytes(), salt, KDF_ROUNDS) }
}

/// What sealing `plaintext` under `key` and `nonce` gives.
pub open spec fn sealed(plaintext: Seq<u8>, key: Seq<u8>, nonce: Seq<u8>) -> Result<
    Seq<u8>,
    CryptoError,
> {
    if plaintext.len() > MAX_PLAINTEXT {
        Err(CryptoError::MessageTooLarge)
    } else {
        Ok(chacha20poly1305_seal(key, nonce, plaintext))
    }
}

/// What opening `ciphertext` under `key` and `nonce` gives.
pub open spec fn opened(nonce: Seq<u8>, ciphertext: Seq<u8>, key: Seq<u8>) -> Result<
    Seq<u8>,
    CryptoError,
> {
    if nonce.len() != NONCE_LEN {
        Err(CryptoError::AuthenticationFailed)
    } else {
        match chacha20poly1305_open(key, nonce, ciphertext) {
            Some(plaintext) => Ok(plaintext),
            None => Err(CryptoError::AuthenticationFailed),
        }
    }
}

/// Encrypts `plaintext` under `key` and the given `nonce`.
///
/// A nonce must never serve twice under one key: [`encrypt`] draws a fresh
/// one for each call.
pub fn seal_with_nonce(plaintext: &[u8], key: &Key, nonce: &[u8]) -> (result: Result<
    Vec<u8>,
    CryptoError,
>)
    requires
        key.wf(),
        nonce@.len() == NONCE_LEN,
    ensures
        match result {
            Ok(ciphertext) => {
                &&& sealed(plaintext@, key@, nonce@) == Ok::<Seq<u8>, CryptoError>(ciphertext@)
                &&& ciphertext@.len() == plaintext@.len() + TAG_LEN
                &&& opened(nonce@, ciphertext@, key@) == Ok::<Seq<u8>, CryptoError>(plaintext@)
            },
            Err(e) => sealed(plaintext@, key@, nonce@) == Err::<Seq<u8>, CryptoError>(e),
        },
{
    if plaintext.len() > MAX_PLAINTEXT {
        return Err(CryptoError::MessageTooLarge);
    }
    match aead_encrypt(key.as_bytes(), nonce, plaintext) {
        Some(ciphertext) => Ok(ciphertext),
        None => Err(CryptoError::MessageTooLarge),
    }
}

/// Encrypts `plaintext` under `key` and a fresh random nonce, and hands back
/// the nonce and the ciphertext.
pub fn encrypt(plaintext: &[u8], key: &Key) -> (result: Result<(Vec<u8>, Vec<u8>), CryptoError>)
    requires
        key.wf(),
    ensures
        match result {
            Ok((nonce, ciphertext)) => {
                &&& nonce@.len() == NONCE_LEN
                &&& sealed(plaintext@, key@, nonce@) == Ok::<Seq<u8>, CryptoError>(ciphertext@)
                &&& opened(nonce@, ciphertext@, key@) == Ok::<Seq<u8>, CryptoError>(plaintext@)
            },
            Err(e) => if plaintext@.len() > MAX_PLAINTEXT {
                e == CryptoError::MessageTooLarge
            } else {
                e == CryptoError::RandomSource
            },
        },
        plaintext@.len() > MAX_PLAINTEXT ==> result is Err,
{
    if plaintext.len() > MAX_PLAINTEXT {
        return Err(CryptoError::MessageTooLarge);
    }
    let nonce = match random_bytes(NONCE_LEN) {
        Some(bytes) => bytes,
        None => {
            return Err(CryptoError::RandomSource);
        },
    };
    match seal_with_nonce(plaintext, key, nonce.as_slice()) {
        Ok(ciphertext) => Ok((nonce, ciphertext)),
        Err(e) => Err(e),
    }
}

/// Decrypts `ciphertext` under `key` and `nonce`.  Fails where the key is
/// wrong or the nonce or the ciphertext was changed.
pub fn decrypt(nonce: &[u8], ciphertext: &[u8], key: &Key) -> (result: Result<Vec<u8>, CryptoError>)
    requires
        key.wf(),
    ensures
        match result {
            Ok(plaintext) => opened(nonce@, ciphertext@, key@) == Ok::<Seq<u8>, CryptoError>(
                plaintext@,
            ),
            Err(e) => opened(nonce@, ciphertext@, key@) == Err::<Seq<u8>, CryptoError>(e),
        },
{
    if nonce.len() != NONCE_LEN {
        return Err(CryptoError::AuthenticationFailed);
    }
    match aead_decrypt(key.as_bytes(), nonce, ciphertext) {
        Some(plaintext) => Ok(plaintext),
        None => Err(CryptoError::AuthenticationFailed),
    }
}

} // verus!
