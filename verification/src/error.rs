//! The errors of the library.

use vstd::prelude::*;

verus! {

/// Why bytes could not be read as what they were meant to hold.
#[derive(Clone, Copy, Debug, PartialEq, Eq, Structural)]
pub enum FormatError {
    /// The bytes end before what they hold is complete.
    Truncated,
    /// The version tag is not one that this library reads.
    UnsupportedVersion,
    /// The bytes are complete but do not spell a valid value.
    Corrupt,
}

/// Why the cipher engine could not do its work.
#[derive(Clone, Copy, Debug, PartialEq, Eq, Structural)]
pub enum CryptoError {
    /// The passphrase is wrong or the container was changed.
    AuthenticationFailed,
    /// The system's random source gave no bytes.
    RandomSource,
    /// The payload is larger than the cipher can take under one nonce.
    MessageTooLarge,
}

/// Why a container could not be turned into variables.
#[derive(Clone, Copy, Debug, PartialEq, Eq, Structural)]
pub enum CodecError {
    /// The container or its payload is malformed.
    Format(FormatError),
    /// The container could not be opened.
    Crypto(CryptoError),
}

/// Why the profile store refused an operation.
#[derive(Clone, Copy, Debug, PartialEq, Eq, Structural)]
pub enum StoreError {
    /// No profile of that name is stored.
    NotFound,
    /// A profile of that name is stored already.
    AlreadyExists,
    /// The bytes handed in are no container.
    Format(FormatError),
    /// The container could not be made.
    Crypto(CryptoError),
}

} // verus!
