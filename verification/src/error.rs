//! The failures that the vault reports to its callers.

use vstd::prelude::*;

verus! {

/// Why an operation on a vault did not produce a result.
#[derive(Clone, Copy, Debug, PartialEq, Eq, Structural)]
pub enum VaultError {
    /// No vault file exists at the given path. Callers usually start a new vault.
    FileNotFound,
    /// The stored bytes are not the encoding of a vault.
    CorruptFormat,
    /// The vault holds no entry under the requested key.
    KeyNotFound,
    /// The authentication tag did not verify: the key is wrong or the blob was altered.
    AuthFailure,
    /// The decrypted bytes are not valid UTF-8 text.
    DecodeFailure,
    /// The value is longer than the cipher can seal in one message.
    ValueTooLong,
}

} // verus!
