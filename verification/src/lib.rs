//! A passphrase-protected secret store.
//!
//! A vault maps text keys to encrypted values. Values are sealed with
//! AES-256-GCM under a key derived from a passphrase and the vault's salt,
//! and the whole vault has a binary encoding for storage at rest.

pub mod cipher;
pub mod error;
pub mod format;
pub mod kdf;
pub mod model;
pub mod text;
pub mod vault;

pub use cipher::EncryptedBlob;
pub use error::VaultError;
pub use vault::MyKeyVault;
