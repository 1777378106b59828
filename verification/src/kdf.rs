//! Key derivation: from a passphrase and a salt to a 256-bit key.
//!
//! The key is PBKDF2 over HMAC-SHA-256. The derivation is a function of the
//! passphrase and the salt alone, so unlocking a vault again with the same
//! passphrase gives the key its entries were sealed with.

use vstd::prelude::*;
use vstd::utf8::encode_utf8;

verus! {

/// Number of bytes in a salt.
pub const SALT_LEN: usize = 16;

/// Number of bytes in a derived key.
pub const KEY_LEN: usize = 32;

/// Number of PBKDF2 rounds applied to a passphrase.
pub const KDF_ITERATIONS: u32 = 10000;

/// The first `length` bytes that PBKDF2 (RFC 2898) yields with HMAC-SHA-256
/// as its pseudorandom function, for the given password, salt and round count.
pub uninterp spec fn pbkdf2_hmac_sha256(
    password: Seq<u8>,
    salt: Seq<u8>,
    iterations: u32,
    length: nat,
) -> Seq<u8>;

/// Runs `crypto::pbkdf2::pbkdf2` over `crypto::hmac::Hmac` keyed with
/// `password` on `crypto::sha2::Sha256`, into a 32-byte buffer.
///
/// Trusted: that the buffer then holds the PBKDF2 output for these arguments.
/// The round count must be positive, as the callee asserts.
#[verifier::external_body]
fn pbkdf2_hmac_sha256_key(password: &[u8], salt: &[u8], iterations: u32) -> (key: [u8; 32])
    requires
        iterations > 0,
    ensures
        key@ == pbkdf2_hmac_sha256(password@, salt@, iterations, 32),
{
    let mut key = [0u8; 32];
    let mut mac = crypto::hmac::Hmac::new(crypto::sha2::Sha256::new(), password);
    crypto::pbkdf2::pbkdf2(&mut mac, salt, iterations, &mut key);
    key
}

/// The key that a passphrase and a salt derive.
pub open spec fn spec_derive_key(passphrase: Seq<char>, salt: Seq<u8>) -> Seq<u8> {
    pbkdf2_hmac_sha256(encode_utf8(passphrase), salt, KDF_ITERATIONS, KEY_LEN as nat)
}

/// Derives the 32-byte key for `passphrase` under `salt`.
pub fn derive_key(passphrase: &str, salt: &[u8; 16]) -> (key: [u8; 32])
    ensures
        key@ == spec_derive_key(passphrase@, salt@),
{
    pbkdf2_hmac_sha256_key(passphrase.as_bytes(), salt.as_slice(), KDF_ITERATIONS)
}

/// Derivation is deterministic: two keys derived from one passphrase and one
/// salt are the same 32 bytes.
pub proof fn lemma_derive_key_deterministic(
    first: [u8; 32],
    second: [u8; 32],
    passphrase: Seq<char>,
    salt: Seq<u8>,
)
    requires
        first@ == spec_derive_key(passphrase, salt),
        second@ == spec_derive_key(passphrase, salt),
    ensures
        first == second,
{
    assert(first =~= second);
}

} // verus!
