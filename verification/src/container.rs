//! The encrypted container of a profile, its byte layout, and the codec
//! between variables and containers.
//!
//! A container's bytes are the version tag, the salt, the nonce and the
//! ciphertext, in that order and without separators.

use crate::cipher::decrypt;
use crate::cipher::derive_key;
use crate::cipher::derived_key;
use crate::cipher::opened;
use crate::cipher::random_bytes;
use crate::cipher::seal_with_nonce;
use crate::cipher::sealed;
use crate::cipher::MAX_PLAINTEXT;
use crate::cipher::NONCE_LEN;
use crate::cipher::SALT_LEN;
use crate::cipher::TAG_LEN;
use crate::envs::lemma_parse_serialized;
use crate::envs::parsed;
use crate::envs::serialized;
use crate::envs::EnvMap;
use crate::envs::Entry;
use crate::error::CodecError;
use crate::error::CryptoError;
use crate::error::FormatError;
use vstd::prelude::*;
use vstd::slice::slice_subrange;
use vstd::slice::slice_to_vec;

verus! {

/// The version tag that this library writes and reads.
pub const VERSION: u8 = 1;

/// The length of what stands before the ciphertext.
pub const HEADER_LEN: usize = 29;

/// The encrypted form of a profile's variables.
#[derive(Clone, Debug)]
pub struct Container {
    /// The version of the format.
    pub version: u8,
    /// The salt from which, with the passphrase, the key is derived.
    pub salt: Vec<u8>,
    /// The nonce under which the payload was sealed.
    pub nonce: Vec<u8>,
    /// The sealed payload, authentication tag included.
    pub ciphertext: Vec<u8>,
}

/// A container as plain values.
pub struct ContainerView {
    pub version: u8,
    pub salt: Seq<u8>,
    pub nonce: Seq<u8>,
    pub ciphertext: Seq<u8>,
}

impl ContainerView {
    /// Salt and nonce have their lengths, and the ciphertext has room for
    /// its tag.
    pub open spec fn shaped(self) -> bool {
        &&& self.salt.len() == SALT_LEN
        &&& self.nonce.len() == NONCE_LEN
        &&& self.ciphertext.len() >= TAG_LEN
    }

    /// Whether the container is structurally valid, and if not, why.
    pub open spec fn check(self) -> Result<(), FormatError> {
        if !self.shaped() {
            Err(FormatError::Truncated)
        } else if self.version != VERSION {
            Err(FormatError::UnsupportedVersion)
        } else {
            Ok(())
        }
    }

    /// The bytes of the container.
    pub open spec fn bytes(self) -> Seq<u8> {
        seq![self.version] + self.salt + self.nonce + self.ciphertext
    }
}

/// The container that `b` holds, or why it holds none.
pub open spec fn container_of(b: Seq<u8>) -> Result<ContainerView, FormatError> {
    if b.len() < HEADER_LEN + TAG_LEN {
        Err(FormatError::Truncated)
    } else if b[0] != VERSION {
        Err(FormatError::UnsupportedVersion)
    } else {
        Ok(
            ContainerView {
                version: b[0],
                salt: b.subrange(1, 1 + SALT_LEN as int),
                nonce: b.subrange(1 + SALT_LEN as int, HEADER_LEN as int),
                ciphertext: b.subrange(HEADER_LEN as int, b.len() as int),
            },
        )
    }
}

/// Reading the bytes of a valid container gives the container back.
pub proof fn lemma_container_round_trip(c: ContainerView)
    requires
        c.check() is Ok,
    ensures
        container_of(c.bytes()) == Ok::<ContainerView, FormatError>(c),
{
    let b = c.bytes();
    assert(b.subrange(1, 1 + SALT_LEN as int) =~= c.salt);
    assert(b.subrange(1 + SALT_LEN as int, HEADER_LEN as int) =~= c.nonce);
    assert(b.subrange(HEADER_LEN as int, b.len() as int) =~= c.ciphertext);
}

/// The container read from bytes is valid, and its bytes are the bytes read.
pub proof fn lemma_container_bytes(b: Seq<u8>)
    requires
        container_of(b) is Ok,
    ensures
        container_of(b)->Ok_0.check() is Ok,
        container_of(b)->Ok_0.bytes() == b,
{
    assert(container_of(b)->Ok_0.bytes() =~= b);
}

impl View for Container {
    type V = ContainerView;

    open spec fn view(&self) -> ContainerView {
        ContainerView {
            version: self.version,
            salt: self.salt@,
            nonce: self.nonce@,
            ciphertext: self.ciphertext@,
        }
    }
}

impl Container {
    /// Whether the container is structurally valid, and if not, why.
    pub fn check(&self) -> (result: Result<(), FormatError>)
        ensures
            result == self@.check(),
    {
        if self.salt.len() != SALT_LEN || self.nonce.len() != NONCE_LEN || self.ciphertext.len()
            < TAG_LEN {
            Err(FormatError::Truncated)
        } else if self.version != VERSION {
            Err(FormatError::UnsupportedVersion)
        } else {
            Ok(())
        }
    }

    /// A copy of the container.
    pub fn duplicate(&self) -> (copy: Container)
        ensures
            copy@ == self@,
    {
        Container {
            version: self.version,
            salt: slice_to_vec(self.salt.as_slice()),
            nonce: slice_to_vec(self.nonce.as_slice()),
            ciphertext: slice_to_vec(self.ciphertext.as_slice()),
        }
    }

    /// The bytes of the container.
    pub fn to_bytes(&self) -> (bytes: Vec<u8>)
        ensures
            bytes@ == self@.bytes(),
    {
        let mut bytes: Vec<u8> = Vec::new();
        bytes.push(self.version);
        bytes.extend_from_slice(self.salt.as_slice());
        let ghost a = bytes@;
        assert(a =~= seq![self.version] + self.salt@);
        bytes.extend_from_slice(self.nonce.as_slice());
        let ghost b = bytes@;
        assert(b =~= a + self.nonce@);
        bytes.extend_from_slice(self.ciphertext.as_slice());
        assert(bytes@ =~= b + self.ciphertext@);
        bytes
    }

    /// Reads a container from its bytes.
    pub fn from_bytes(data: &[u8]) -> (result: Result<Container, FormatError>)
        ensures
            match result {
                Ok(c) => container_of(data@) == Ok::<ContainerView, FormatError>(c@),
                Err(e) => container_of(data@) == Err::<ContainerView, FormatError>(e),
            },
    {
        if data.len() < HEADER_LEN + TAG_LEN {
            return Err(FormatError::Truncated);
        }
        if data[0] != VERSION {
            return Err(FormatError::UnsupportedVersion);
        }
        Ok(
            Container {
                version: data[0],
                salt: slice_to_vec(slice_subrange(data, 1, 1 + SALT_LEN)),
                nonce: slice_to_vec(slice_subrange(data, 1 + SALT_LEN, HEADER_LEN)),
                ciphertext: slice_to_vec(slice_subrange(data, HEADER_LEN, data.len())),
            },
        )
    }
}

/// The container that holds `envs` under `passphrase`, made with the given
/// salt and nonce.
pub open spec fn encoded(
    envs: Seq<Entry>,
    passphrase: Seq<char>,
    salt: Seq<u8>,
    nonce: Seq<u8>,
) -> Result<ContainerView, CryptoError> {
    match sealed(serialized(envs), derived_key(passphrase, salt), nonce) {
        Ok(ciphertext) => Ok(ContainerView { version: VERSION, salt, nonce, ciphertext }),
        Err(e) => Err(e),
    }
}

/// The variables that `container` holds under `passphrase`, or why it gives
/// none: it is malformed, it does not open, or its payload is malformed.
pub open spec fn decoded(container: ContainerView, passphrase: Seq<char>) -> Result<
    Seq<Entry>,
    CodecError,
> {
    match container.check() {
        Err(e) => Err(CodecError::Format(e)),
        Ok(_) => match opened(
            container.nonce,
            container.ciphertext,
            derived_key(passphrase, container.salt),
        ) {
            Err(e) => Err(CodecError::Crypto(e)),
            Ok(payload) => match parsed(payload) {
                Err(e) => Err(CodecError::Format(e)),
                Ok(envs) => Ok(envs),
            },
        },
    }
}

fn seal_payload(payload: &[u8], passphrase: &str, salt: &[u8], nonce: &[u8]) -> (result: Result<
    Container,
    CryptoError,
>)
    requires
        salt@.len() == SALT_LEN,
        nonce@.len() == NONCE_LEN,
    ensures
        match result {
            Ok(c) => {
                &&& c@.version == VERSION
                &&& c@.salt == salt@
                &&& c@.nonce == nonce@
                &&& c@.check() is Ok
                &&& sealed(payload@, derived_key(passphrase@, salt@), nonce@) == Ok::<
                    Seq<u8>,
                    CryptoError,
                >(c@.ciphertext)
                &&& opened(nonce@, c@.ciphertext, derived_key(passphrase@, salt@)) == Ok::<
                    Seq<u8>,
                    CryptoError,
                >(payload@)
            },
            Err(e) => sealed(payload@, derived_key(passphrase@, salt@), nonce@) == Err::<
                Seq<u8>,
                CryptoError,
            >(e),
        },
{
    let key = derive_key(passphrase, salt);
    match seal_with_nonce(payload, &key, nonce) {
        Ok(ciphertext) => Ok(
            Container {
                version: VERSION,
                salt: slice_to_vec(salt),
                nonce: slice_to_vec(nonce),
                ciphertext,
            },
        ),
        Err(e) => Err(e),
    }
}

/// Encrypts `envs` under `passphrase` with the given salt and nonce.
///
/// The container decodes to `envs` under the same passphrase.  A pair of
/// salt and nonce must never serve twice: [`encode`] draws both afresh.
pub fn encode_with(envs: &EnvMap, passphrase: &str, salt: &[u8], nonce: &[u8]) -> (result: Result<
    Container,
    CryptoError,
>)
    requires
        envs.wf(),
        salt@.len() == SALT_LEN,
        nonce@.len() == NONCE_LEN,
    ensures
        match result {
            Ok(c) => {
                &&& encoded(envs.entries(), passphrase@, salt@, nonce@) == Ok::<
                    ContainerView,
                    CryptoError,
                >(c@)
                &&& decoded(c@, passphrase@) == Ok::<Seq<Entry>, CodecError>(envs.entries())
            },
            Err(e) => encoded(envs.entries(), passphrase@, salt@, nonce@) == Err::<
                ContainerView,
                CryptoError,
            >(e),
        },
{
    let payload = envs.to_bytes();
    proof {
        lemma_parse_serialized(envs.entries());
    }
    seal_payload(payload.as_slice(), passphrase, salt, nonce)
}

/// Encrypts `envs` under `passphrase`, with a fresh random salt and a fresh
/// random nonce.
///
/// The container decodes to `envs` under the same passphrase.  Encoding fails
/// only where the payload is too large or the random source gives out.
pub fn encode(envs: &EnvMap, passphrase: &str) -> (result: Result<Container, CryptoError>)
    requires
        envs.wf(),
    ensures
        match result {
            Ok(c) => {
                &&& encoded(envs.entries(), passphrase@, c@.salt, c@.nonce) == Ok::<
                    ContainerView,
                    CryptoError,
                >(c@)
                &&& decoded(c@, passphrase@) == Ok::<Seq<Entry>, CodecError>(envs.entries())
            },
            Err(e) => if serialized(envs.entries()).len() > MAX_PLAINTEXT {
                e == CryptoError::MessageTooLarge
            } else {
                e == CryptoError::RandomSource
            },
        },
        serialized(envs.entries()).len() > MAX_PLAINTEXT ==> result is Err,
{
    let payload = envs.to_bytes();
    if payload.len() > MAX_PLAINTEXT {
        return Err(CryptoError::MessageTooLarge);
    }
    let salt = match random_bytes(SALT_LEN) {
        Some(bytes) => bytes,
        None => {
            return Err(CryptoError::RandomSource);
        },
    };
    let nonce = match random_bytes(NONCE_LEN) {
        Some(bytes) => bytes,
        None => {
            return Err(CryptoError::RandomSource);
        },
    };
    proof {
        lemma_parse_serialized(envs.entries());
    }
    seal_payload(payload.as_slice(), passphrase, salt.as_slice(), nonce.as_slice())
}

/// Decrypts `container` under `passphrase` and reads its variables.
pub fn decode(container: &Container, passphrase: &str) -> (result: Result<EnvMap, CodecError>)
    ensures
        match result {
            Ok(envs) => envs.wf() && decoded(container@, passphrase@) == Ok::<
                Seq<Entry>,
                CodecError,
            >(envs.entries()),
            Err(e) => decoded(container@, passphrase@) == Err::<Seq<Entry>, CodecError>(e),
        },
{
    match container.check() {
        Err(e) => {
            return Err(CodecError::Format(e));
        },
        Ok(_) => {},
    }
    let key = derive_key(passphrase, container.salt.as_slice());
    let payload = match decrypt(container.nonce.as_slice(), container.ciphertext.as_slice(), &key) {
        Ok(bytes) => bytes,
        Err(e) => {
            return Err(CodecError::Crypto(e));
        },
    };
    match EnvMap::from_bytes(payload.as_slice()) {
        Ok(envs) => Ok(envs),
        Err(e) => Err(CodecError::Format(e)),
    }
}

} // verus!
