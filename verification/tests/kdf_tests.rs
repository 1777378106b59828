use my_key_vault::kdf::{derive_key, KDF_ITERATIONS, KEY_LEN, SALT_LEN};
use my_key_vault::MyKeyVault;

fn counting_salt() -> [u8; 16] {
    [0, 1, 2, 3, 4, 5, 6, 7, 8, 9, 10, 11, 12, 13, 14, 15]
}

#[test]
fn kdf_parameters() {
    assert_eq!(SALT_LEN, 16);
    assert_eq!(KEY_LEN, 32);
    assert_eq!(KDF_ITERATIONS, 10000);
}

#[test]
fn derive_key_known_answer_ascii() {
    let key: [u8; 32] = derive_key("this_is_my_key", &counting_salt());
    let expected: [u8; 32] = [
        0xe0, 0x3d, 0x00, 0x60, 0x1d, 0x5b, 0x05, 0xe1, 0x2e, 0xff, 0xa3, 0x48, 0x73, 0x6a, 0x24,
        0xe1, 0x70, 0x87, 0x38, 0x66, 0x09, 0xce, 0x28, 0xdb, 0xc0, 0xd5, 0xd9, 0xe4, 0x5e, 0x39,
        0x14, 0x47,
    ];
    assert_eq!(key, expected);
}

#[test]
fn derive_key_known_answer_non_ascii() {
    let key: [u8; 32] = derive_key("pässwörd", &[0xaa; 16]);
    let expected: [u8; 32] = [
        0xc9, 0xc3, 0x0f, 0xb7, 0xe7, 0xd6, 0x0b, 0x95, 0xd0, 0xf1, 0x20, 0x36, 0xe3, 0x90, 0x92,
        0xce, 0x81, 0x31, 0xd7, 0x18, 0x81, 0xad, 0x20, 0x7c, 0x58, 0x7f, 0x13, 0x0f, 0xe7, 0x55,
        0x9d, 0x68,
    ];
    assert_eq!(key, expected);
}

#[test]
fn derive_key_known_answer_empty_passphrase() {
    let key: [u8; 32] = derive_key("", &[0; 16]);
    let expected: [u8; 32] = [
        0x35, 0x14, 0xd2, 0x0b, 0x27, 0x54, 0x40, 0x54, 0x0e, 0x0b, 0x0a, 0xed, 0xdf, 0xa7, 0xde,
        0x98, 0xd7, 0x70, 0xca, 0xc8, 0xb8, 0x14, 0xb8, 0xb4, 0xcf, 0xcf, 0xaf, 0x04, 0xcf, 0x4a,
        0x05, 0x0e,
    ];
    assert_eq!(key, expected);
}

#[test]
fn derive_key_is_deterministic() {
    let first: [u8; 32] = derive_key("correct horse", &counting_salt());
    let second: [u8; 32] = derive_key("correct horse", &counting_salt());
    assert_eq!(first, second);
}

#[test]
fn derive_key_depends_on_passphrase() {
    let first: [u8; 32] = derive_key("correct horse", &counting_salt());
    let second: [u8; 32] = derive_key("correct horsf", &counting_salt());
    assert_ne!(first, second);
}

#[test]
fn derive_key_depends_on_salt() {
    let mut other_salt: [u8; 16] = counting_salt();
    other_salt[15] = 16;
    let first: [u8; 32] = derive_key("correct horse", &counting_salt());
    let second: [u8; 32] = derive_key("correct horse", &other_salt);
    assert_ne!(first, second);
}

#[test]
fn vault_derives_against_its_own_salt() {
    let vault = MyKeyVault::with_salt(counting_salt());
    let key: [u8; 32] = vault.derive_key(&String::from("this_is_my_key"));
    assert_eq!(key, derive_key("this_is_my_key", &counting_salt()));
    assert_eq!(key[0], 0xe0);
    assert_eq!(key[31], 0x47);
}

#[test]
fn vault_derives_the_same_key_on_every_unlock() {
    let vault = MyKeyVault::new();
    let first: [u8; 32] = vault.derive_key(&String::from("open sesame"));
    let second: [u8; 32] = vault.derive_key(&String::from("open sesame"));
    assert_eq!(first, second);
}
