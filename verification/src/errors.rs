//! The error kinds a vault operation can surface.

use vstd::prelude::*;

verus! {

/// Every failure of a vault operation is reported as one of these kinds.
///
/// `DecryptionFailed` deliberately covers both a wrong recovery answer and a
/// missing private key, so a caller cannot use the error as an oracle to
/// guess answers.
#[derive(Clone, Copy, PartialEq, Eq, Structural, Debug)]
pub enum VaultError {
    /// The encryption or version-control service cannot be reached.
    ServiceUnavailable,
    /// The requested recipient is not present in the service's keyring.
    UnknownIdentity,
    /// A line of the decrypted index does not follow the index grammar.
    IndexCorrupt,
    /// The three-digit id space is exhausted: the last id is already 999.
    IndexFull,
    /// No stored blob exists for the requested name.
    NotFound,
    /// One of the two decryption layers rejected the ciphertext.
    DecryptionFailed,
    /// A blob store failure other than "already absent".
    IOError,
    /// The version-control collaborator rejected a commit or push.
    VersionControlFailed,
}

impl VaultError {
    /// A short, stable description of the error kind.
    pub fn describe(&self) -> &'static str {
        match self {
            VaultError::ServiceUnavailable => "encryption or version-control service unavailable",
            VaultError::UnknownIdentity => "recipient not found in the keyring",
            VaultError::IndexCorrupt => "the decrypted index contains a malformed line",
            VaultError::IndexFull => "the three-digit id space is exhausted",
            VaultError::NotFound => "no stored blob with that name",
            VaultError::DecryptionFailed => "decryption failed",
            VaultError::IOError => "blob store failure",
            VaultError::VersionControlFailed => "version-control operation failed",
        }
    }
}

} // verus!
