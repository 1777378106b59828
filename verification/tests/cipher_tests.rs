use my_key_vault::cipher::{
    decrypt, encrypt, encrypt_with_nonce, MAX_PLAINTEXT_LEN, NONCE_LEN, TAG_LEN,
};
use my_key_vault::{EncryptedBlob, VaultError};

fn fixed_key() -> [u8; 32] {
    [0x42; 32]
}

fn fixed_nonce() -> [u8; 12] {
    [100, 101, 102, 103, 104, 105, 106, 107, 108, 109, 110, 111]
}

fn sealed_s3cr3t() -> Vec<u8> {
    vec![
        0x28, 0x10, 0xdf, 0xaa, 0xbf, 0x59, 0x59, 0xc4, 0x54, 0xb0, 0x50, 0x35, 0x09, 0x6e, 0xbf,
        0x73, 0xb6, 0x71, 0x65, 0x0b, 0xe0, 0xe4,
    ]
}

#[test]
fn cipher_parameters() {
    assert_eq!(NONCE_LEN, 12);
    assert_eq!(TAG_LEN, 16);
    assert_eq!(MAX_PLAINTEXT_LEN, 68_719_476_736);
}

#[test]
fn encrypt_with_nonce_known_answer() {
    let blob = encrypt_with_nonce(&fixed_key(), &fixed_nonce(), b"s3cr3t").unwrap();
    assert_eq!(blob.nonce(), fixed_nonce());
    assert_eq!(blob.ciphertext(), sealed_s3cr3t().as_slice());
    let mut stored: Vec<u8> = fixed_nonce().to_vec();
    stored.extend_from_slice(&sealed_s3cr3t());
    assert_eq!(blob.as_bytes(), stored.as_slice());
}

#[test]
fn encrypt_with_nonce_known_answer_empty_plaintext() {
    let blob = encrypt_with_nonce(&fixed_key(), &fixed_nonce(), b"").unwrap();
    let tag: [u8; 16] = [
        0x77, 0x4a, 0x19, 0xe3, 0x91, 0x14, 0x29, 0x2f, 0xf1, 0x10, 0x85, 0xb0, 0xda, 0xfc, 0x09,
        0xe7,
    ];
    assert_eq!(blob.ciphertext(), &tag[..]);
    assert_eq!(blob.as_bytes().len(), 28);
}

#[test]
fn encrypt_with_nonce_standard_vector_zero_key() {
    let blob = encrypt_with_nonce(&[0; 32], &[0; 12], &[0; 16]).unwrap();
    let expected: [u8; 32] = [
        0xce, 0xa7, 0x40, 0x3d, 0x4d, 0x60, 0x6b, 0x6e, 0x07, 0x4e, 0xc5, 0xd3, 0xba, 0xf3, 0x9d,
        0x18, 0xd0, 0xd1, 0xc8, 0xa7, 0x99, 0x99, 0x6b, 0xf0, 0x26, 0x5b, 0x98, 0xb5, 0xd4, 0x8a,
        0xb9, 0x19,
    ];
    assert_eq!(blob.ciphertext(), &expected[..]);
}

#[test]
fn decrypt_known_answer() {
    let blob = EncryptedBlob::from_parts(&fixed_nonce(), &sealed_s3cr3t());
    assert_eq!(decrypt(&fixed_key(), &blob), Ok(b"s3cr3t".to_vec()));
}

#[test]
fn encrypt_then_decrypt_gives_the_plaintext() {
    let plaintext: Vec<u8> = vec![0, 1, 2, 3, 250, 251, 252, 253, 254, 255];
    let blob = encrypt(&fixed_key(), &plaintext).unwrap();
    assert_eq!(blob.as_bytes().len(), 12 + 10 + 16);
    assert_eq!(decrypt(&fixed_key(), &blob), Ok(plaintext));
}

#[test]
fn encrypt_does_not_store_the_plaintext() {
    let blob = encrypt_with_nonce(&fixed_key(), &fixed_nonce(), b"s3cr3t").unwrap();
    assert_ne!(&blob.ciphertext()[..6], b"s3cr3t");
}

#[test]
fn encrypting_twice_gives_different_blobs() {
    let first = encrypt(&fixed_key(), b"same value").unwrap();
    let second = encrypt(&fixed_key(), b"same value").unwrap();
    assert_ne!(first.nonce(), second.nonce());
    assert_ne!(first.ciphertext(), second.ciphertext());
    assert_ne!(first.as_bytes(), second.as_bytes());
}

#[test]
fn different_nonces_give_different_blobs() {
    let mut other_nonce: [u8; 12] = fixed_nonce();
    other_nonce[0] = 0;
    let first = encrypt_with_nonce(&fixed_key(), &fixed_nonce(), b"same value").unwrap();
    let second = encrypt_with_nonce(&fixed_key(), &other_nonce, b"same value").unwrap();
    assert_ne!(first.as_bytes(), second.as_bytes());
}

#[test]
fn same_nonce_gives_the_same_blob() {
    let first = encrypt_with_nonce(&fixed_key(), &fixed_nonce(), b"same value").unwrap();
    let second = encrypt_with_nonce(&fixed_key(), &fixed_nonce(), b"same value").unwrap();
    assert_eq!(first.as_bytes(), second.as_bytes());
}

#[test]
fn decrypt_with_wrong_key_is_auth_failure() {
    let blob = encrypt(&fixed_key(), b"s3cr3t").unwrap();
    assert_eq!(decrypt(&[0x43; 32], &blob), Err(VaultError::AuthFailure));
}

#[test]
fn decrypt_tampered_ciphertext_is_auth_failure() {
    let mut bytes: Vec<u8> = fixed_nonce().to_vec();
    bytes.extend_from_slice(&sealed_s3cr3t());
    bytes[12] ^= 1;
    let blob = EncryptedBlob::from_bytes(bytes).unwrap();
    assert_eq!(decrypt(&fixed_key(), &blob), Err(VaultError::AuthFailure));
}

#[test]
fn decrypt_tampered_tag_is_auth_failure() {
    let mut bytes: Vec<u8> = fixed_nonce().to_vec();
    bytes.extend_from_slice(&sealed_s3cr3t());
    let last: usize = bytes.len() - 1;
    bytes[last] ^= 0x80;
    let blob = EncryptedBlob::from_bytes(bytes).unwrap();
    assert_eq!(decrypt(&fixed_key(), &blob), Err(VaultError::AuthFailure));
}

#[test]
fn decrypt_tampered_nonce_is_auth_failure() {
    let mut nonce: [u8; 12] = fixed_nonce();
    nonce[11] ^= 1;
    let blob = EncryptedBlob::from_parts(&nonce, &sealed_s3cr3t());
    assert_eq!(decrypt(&fixed_key(), &blob), Err(VaultError::AuthFailure));
}

#[test]
fn decrypt_truncated_blob_is_auth_failure() {
    let sealed: Vec<u8> = sealed_s3cr3t();
    let blob = EncryptedBlob::from_parts(&fixed_nonce(), &sealed[..21]);
    assert_eq!(decrypt(&fixed_key(), &blob), Err(VaultError::AuthFailure));
}

#[test]
fn decrypt_blob_without_room_for_a_tag_is_auth_failure() {
    let only_nonce = EncryptedBlob::from_parts(&fixed_nonce(), &[]);
    assert_eq!(decrypt(&fixed_key(), &only_nonce), Err(VaultError::AuthFailure));
    let short = EncryptedBlob::from_parts(&fixed_nonce(), &[1, 2, 3, 4, 5, 6, 7, 8, 9, 10, 11, 12, 13, 14, 15]);
    assert_eq!(decrypt(&fixed_key(), &short), Err(VaultError::AuthFailure));
}

#[test]
fn blob_from_bytes_needs_a_nonce() {
    assert!(EncryptedBlob::from_bytes(vec![]).is_none());
    assert!(EncryptedBlob::from_bytes(vec![0; 11]).is_none());
    let blob = EncryptedBlob::from_bytes(vec![7; 12]).unwrap();
    assert_eq!(blob.nonce(), [7; 12]);
    assert_eq!(blob.ciphertext().len(), 0);
}

#[test]
fn blob_from_parts_joins_nonce_and_ciphertext() {
    let blob = EncryptedBlob::from_parts(&fixed_nonce(), &[1, 2, 3]);
    assert_eq!(
        blob.as_bytes(),
        &[100, 101, 102, 103, 104, 105, 106, 107, 108, 109, 110, 111, 1, 2, 3][..]
    );
    assert_eq!(blob.nonce(), fixed_nonce());
    assert_eq!(blob.ciphertext(), &[1, 2, 3][..]);
}
