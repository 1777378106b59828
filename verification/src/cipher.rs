//! Authenticated encryption of one value: AES-256-GCM, a fresh nonce per call.
//!
//! A sealed value is kept as one blob: the 12-byte nonce, then the ciphertext
//! with its 16-byte authentication tag. The nonce is no secret; it is stored
//! because opening the blob needs it.

use aes_gcm::aead::Aead;
use aes_gcm::{Aes256Gcm, Key, KeyInit, Nonce};
use vstd::prelude::*;

use crate::error::VaultError;

verus! {

/// Number of bytes in a nonce.
pub const NONCE_LEN: usize = 12;

/// Number of bytes in an authentication tag.
pub const TAG_LEN: usize = 16;

/// The longest plaintext, in bytes, that one AES-GCM message can carry.
pub const MAX_PLAINTEXT_LEN: u64 = 0x10_0000_0000;

/// The ciphertext, tag last, that AES-256-GCM gives for a plaintext under a
/// key and a 96-bit nonce, with no associated data.
pub uninterp spec fn aes256_gcm_seal(key: Seq<u8>, nonce: Seq<u8>, plaintext: Seq<u8>) -> Seq<u8>;

/// What AES-256-GCM recovers from a ciphertext with its tag under a key and a
/// 96-bit nonce, with no associated data: the plaintext if the tag verifies,
/// nothing otherwise.
pub uninterp spec fn aes256_gcm_open(key: Seq<u8>, nonce: Seq<u8>, ciphertext: Seq<u8>) -> Option<
    Seq<u8>,
>;

/// The bytes of an optional buffer.
pub open spec fn opt_bytes(buffer: Option<Vec<u8>>) -> Option<Seq<u8>> {
    match buffer {
        Some(bytes) => Some(bytes@),
        None => None,
    }
}

/// Draws a nonce from `rand::thread_rng` with `Rng::gen`.
///
/// Nothing is claimed of the bytes drawn.
#[verifier::external_body]
fn random_nonce() -> (nonce: [u8; 12]) {
    rand::Rng::gen(&mut rand::thread_rng())
}

/// Runs `Aead::encrypt` of `aes_gcm::Aes256Gcm`, keyed with `key`, on
/// `plaintext` alone.
///
/// Trusted: the call succeeds exactly when the plaintext is within the
/// cipher's limit; its output is the AES-256-GCM ciphertext, 16 bytes longer
/// than the plaintext; and the same key and nonce open that output to the
/// plaintext again.
#[verifier::external_body]
fn aes256_gcm_encrypt(key: &[u8; 32], nonce: &[u8; 12], plaintext: &[u8]) -> (sealed: Option<
    Vec<u8>,
>)
    ensures
        sealed is Some <==> plaintext@.len() <= MAX_PLAINTEXT_LEN,
        sealed matches Some(ct) ==> ct@ == aes256_gcm_seal(key@, nonce@, plaintext@),
        sealed matches Some(ct) ==> ct@.len() == plaintext@.len() + TAG_LEN,
        sealed matches Some(ct) ==> aes256_gcm_open(key@, nonce@, ct@) == Some(plaintext@),
{
    let cipher = Aes256Gcm::new(Key::<Aes256Gcm>::from_slice(key));
    cipher.encrypt(Nonce::from_slice(nonce), plaintext).ok()
}

/// Runs `Aead::decrypt` of `aes_gcm::Aes256Gcm`, keyed with `key`, on
/// `ciphertext` alone.
///
/// Trusted: the call returns what AES-256-GCM recovers, and fails on an input
/// too short to hold a tag.
#[verifier::external_body]
fn aes256_gcm_decrypt(key: &[u8; 32], nonce: &[u8; 12], ciphertext: &[u8]) -> (opened: Option<
    Vec<u8>,
>)
    ensures
        opt_bytes(opened) == aes256_gcm_open(key@, nonce@, ciphertext@),
        ciphertext@.len() < TAG_LEN ==> opened is None,
{
    let cipher = Aes256Gcm::new(Key::<Aes256Gcm>::from_slice(key));
    cipher.decrypt(Nonce::from_slice(nonce), ciphertext).ok()
}

/// The blob that sealing `plaintext` under `key` with `nonce` gives: the
/// nonce, then the ciphertext with its tag.
pub open spec fn sealed_blob(key: Seq<u8>, nonce: Seq<u8>, plaintext: Seq<u8>) -> Seq<u8> {
    nonce + aes256_gcm_seal(key, nonce, plaintext)
}

/// What opening a stored blob under `key` gives: the plaintext, or
/// `AuthFailure` if the tag does not verify.
pub open spec fn spec_decrypt(key: Seq<u8>, blob: Seq<u8>) -> Result<Seq<u8>, VaultError> {
    match aes256_gcm_open(key, blob.take(NONCE_LEN as int), blob.skip(NONCE_LEN as int)) {
        Some(plaintext) => Ok(plaintext),
        None => Err(VaultError::AuthFailure),
    }
}

/// `blob` is a sealing of `plaintext` under `key`: it carries a nonce and the
/// ciphertext for that nonce, and `key` opens it to `plaintext`.
pub open spec fn is_sealing(blob: Seq<u8>, key: Seq<u8>, plaintext: Seq<u8>) -> bool {
    &&& blob.len() == NONCE_LEN + plaintext.len() + TAG_LEN
    &&& blob == sealed_blob(key, blob.take(NONCE_LEN as int), plaintext)
    &&& spec_decrypt(key, blob) == Ok::<Seq<u8>, VaultError>(plaintext)
}

/// The bytes of a decryption result.
pub open spec fn result_bytes(result: Result<Vec<u8>, VaultError>) -> Result<Seq<u8>, VaultError> {
    match result {
        Ok(bytes) => Ok(bytes@),
        Err(e) => Err(e),
    }
}

/// One sealed value: a nonce followed by the ciphertext and its tag.
#[derive(Debug)]
pub struct EncryptedBlob {
    bytes: Vec<u8>,
}

impl View for EncryptedBlob {
    type V = Seq<u8>;

    /// The blob as stored: nonce, then ciphertext and tag.
    closed spec fn view(&self) -> Seq<u8> {
        self.bytes@
    }
}

impl EncryptedBlob {
    /// A blob always has room for its nonce.
    #[verifier::type_invariant]
    pub open spec fn wf(&self) -> bool {
        self@.len() >= NONCE_LEN
    }

    /// The nonce the value was sealed with.
    pub open spec fn spec_nonce(&self) -> Seq<u8> {
        self@.take(NONCE_LEN as int)
    }

    /// The ciphertext with its tag.
    pub open spec fn spec_ciphertext(&self) -> Seq<u8> {
        self@.skip(NONCE_LEN as int)
    }

    /// Joins a nonce and a ciphertext into a blob.
    pub fn from_parts(nonce: &[u8; 12], ciphertext: &[u8]) -> (blob: EncryptedBlob)
        ensures
            blob@ == nonce@ + ciphertext@,
            blob.wf(),
    {
        let mut bytes: Vec<u8> = Vec::new();
        bytes.extend_from_slice(nonce.as_slice());
        bytes.extend_from_slice(ciphertext);
        assert(bytes@ =~= nonce@ + ciphertext@);
        EncryptedBlob { bytes }
    }

    /// Takes stored bytes as a blob, if they are long enough to hold a nonce.
    pub fn from_bytes(bytes: Vec<u8>) -> (blob: Option<EncryptedBlob>)
        ensures
            blob is Some <==> bytes@.len() >= NONCE_LEN,
            blob matches Some(b) ==> b@ == bytes@ && b.wf(),
    {
        if bytes.len() >= NONCE_LEN {
            Some(EncryptedBlob { bytes })
        } else {
            None
        }
    }

    /// The blob as stored.
    pub fn as_bytes(&self) -> (bytes: &[u8])
        ensures
            bytes@ == self@,
            self.wf(),
    {
        proof {
            use_type_invariant(self);
        }
        self.bytes.as_slice()
    }

    /// The nonce the value was sealed with.
    pub fn nonce(&self) -> (nonce: [u8; 12])
        ensures
            nonce@ == self.spec_nonce(),
    {
        proof {
            use_type_invariant(self);
        }
        let mut nonce: [u8; 12] = [0u8; 12];
        let mut i: usize = 0;
        while i < NONCE_LEN
            invariant
                i <= NONCE_LEN,
                self.bytes@.len() >= NONCE_LEN,
                forall|j: int| 0 <= j < i ==> nonce@[j] == self.bytes@[j],
            decreases NONCE_LEN - i,
        {
            nonce[i] = self.bytes[i];
            i += 1;
        }
        assert(nonce@ =~= self.spec_nonce());
        nonce
    }

    /// The ciphertext with its tag.
    pub fn ciphertext(&self) -> (ciphertext: &[u8])
        ensures
            ciphertext@ == self.spec_ciphertext(),
    {
        proof {
            use_type_invariant(self);
        }
        let all = self.bytes.as_slice();
        vstd::slice::slice_subrange(all, NONCE_LEN, all.len())
    }
}

/// Seals `plaintext` under `key` with the given nonce.
///
/// Fails with `ValueTooLong` exactly when the plaintext exceeds the cipher's
/// limit. A nonce must never be used twice under one key.
pub fn encrypt_with_nonce(key: &[u8; 32], nonce: &[u8; 12], plaintext: &[u8]) -> (result: Result<
    EncryptedBlob,
    VaultError,
>)
    ensures
        result is Ok <==> plaintext@.len() <= MAX_PLAINTEXT_LEN,
        result matches Ok(blob) ==> blob@ == sealed_blob(key@, nonce@, plaintext@),
        result matches Ok(blob) ==> is_sealing(blob@, key@, plaintext@),
        result matches Err(e) ==> e == VaultError::ValueTooLong,
{
    match aes256_gcm_encrypt(key, nonce, plaintext) {
        Some(ciphertext) => {
            let blob = EncryptedBlob::from_parts(nonce, ciphertext.as_slice());
            proof {
                assert(blob@.take(NONCE_LEN as int) =~= nonce@);
                assert(blob@.skip(NONCE_LEN as int) =~= ciphertext@);
            }
            Ok(blob)
        },
        None => Err(VaultError::ValueTooLong),
    }
}

/// Seals `plaintext` under `key` with a nonce drawn at random for this call.
///
/// Fails with `ValueTooLong` exactly when the plaintext exceeds the cipher's
/// limit.
pub fn encrypt(key: &[u8; 32], plaintext: &[u8]) -> (result: Result<EncryptedBlob, VaultError>)
    ensures
        result is Ok <==> plaintext@.len() <= MAX_PLAINTEXT_LEN,
        result matches Ok(blob) ==> is_sealing(blob@, key@, plaintext@),
        result matches Err(e) ==> e == VaultError::ValueTooLong,
{
    let nonce = random_nonce();
    encrypt_with_nonce(key, &nonce, plaintext)
}

/// Opens `blob` under `key`.
///
/// Returns the plaintext only if the tag verifies; otherwise `AuthFailure`,
/// and no part of the plaintext. A blob too short to hold a tag never opens.
pub fn decrypt(key: &[u8; 32], blob: &EncryptedBlob) -> (result: Result<Vec<u8>, VaultError>)
    ensures
        result_bytes(result) == spec_decrypt(key@, blob@),
        blob@.len() < NONCE_LEN + TAG_LEN ==> result is Err,
{
    proof {
        use_type_invariant(blob);
    }
    let nonce = blob.nonce();
    match aes256_gcm_decrypt(key, &nonce, blob.ciphertext()) {
        Some(plaintext) => Ok(plaintext),
        None => Err(VaultError::AuthFailure),
    }
}

/// Two sealings of one value under one key differ whenever their nonces do.
pub proof fn lemma_distinct_nonces_distinct_blobs(
    key: Seq<u8>,
    first_nonce: Seq<u8>,
    second_nonce: Seq<u8>,
    plaintext: Seq<u8>,
)
    requires
        first_nonce.len() == NONCE_LEN,
        second_nonce.len() == NONCE_LEN,
        first_nonce != second_nonce,
    ensures
        sealed_blob(key, first_nonce, plaintext) != sealed_blob(key, second_nonce, plaintext),
{
    let first = sealed_blob(key, first_nonce, plaintext);
    let second = sealed_blob(key, second_nonce, plaintext);
    assert(first.take(NONCE_LEN as int) =~= first_nonce);
    assert(second.take(NONCE_LEN as int) =~= second_nonce);
}

} // verus!
