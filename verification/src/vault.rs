//! The vault: a salt, a format version and the sealed entries.
//!
//! Entries are added or replaced by `add_secret` and by nothing else. The
//! salt is chosen when the vault is made and never changes, since every key
//! is derived against it.

use vstd::bytes::{spec_u64_from_le_bytes, u64_from_le_bytes};
use vstd::prelude::*;
use vstd::slice::slice_subrange;
use vstd::utf8::{encode_utf8, encode_utf8_decode_utf8, encode_utf8_valid_utf8};

use crate::cipher::{decrypt, encrypt, is_sealing, result_bytes, EncryptedBlob, MAX_PLAINTEXT_LEN};
use crate::error::VaultError;
use crate::format::{
    encode_entries, encode_vault, parse_entries, parse_vault, read_entry, read_then, write_bytes,
    write_chunk, write_len, HEADER_LEN,
};
use crate::kdf::{spec_derive_key, SALT_LEN};
use crate::model::{
    distinct_keys, entry_wf, has_key, index_of, insert_all, lemma_index_of_key,
    lemma_lookup_with_entry, lemma_with_entry_wf, spec_secret_text, with_entry, EntryView,
    VaultView,
};
use crate::text::{text_from_utf8, utf8_len};

verus! {

/// The version that new vaults carry.
pub const FORMAT_VERSION: u8 = 1;

/// The text of a result, for contracts.
pub open spec fn result_text(result: Result<String, VaultError>) -> Result<Seq<char>, VaultError> {
    match result {
        Ok(text) => Ok(text@),
        Err(e) => Err(e),
    }
}

/// `after` is `before` with `value` sealed under `enc_key` and stored under
/// `key`.
pub open spec fn is_secret_added(
    before: VaultView,
    after: VaultView,
    enc_key: Seq<u8>,
    key: Seq<char>,
    value: Seq<char>,
) -> bool {
    exists|blob: Seq<u8>| #[trigger]
        is_sealing(blob, enc_key, encode_utf8(value)) && after == before.with_entry(key, blob)
}

/// Draws a salt from `rand::thread_rng` with `Rng::gen`.
///
/// Nothing is claimed of the bytes drawn.
#[verifier::external_body]
fn random_salt() -> (salt: [u8; 16]) {
    rand::Rng::gen(&mut rand::thread_rng())
}

/// One stored entry.
#[derive(Debug)]
struct Entry {
    key: String,
    blob: EncryptedBlob,
}

impl View for Entry {
    type V = EntryView;

    closed spec fn view(&self) -> EntryView {
        EntryView { key: self.key@, blob: self.blob@ }
    }
}

/// A secret store: text keys, each with a value sealed under a key that is
/// derived from a passphrase and the vault's salt.
#[derive(Debug)]
pub struct MyKeyVault {
    salt: [u8; 16],
    entries: Vec<Entry>,
    version: u8,
}

impl View for MyKeyVault {
    type V = VaultView;

    closed spec fn view(&self) -> VaultView {
        VaultView {
            salt: self.salt@,
            entries: self.entries@.map_values(|entry: Entry| entry@),
            version: self.version,
        }
    }
}

/// Turns what opening a blob gave into the secret's text.
///
/// A failed opening stays the failure it was. Opened bytes that are not
/// UTF-8 give `DecodeFailure`.
pub fn secret_text(opened: Result<Vec<u8>, VaultError>) -> (result: Result<String, VaultError>)
    ensures
        result_text(result) == spec_secret_text(result_bytes(opened)),
{
    match opened {
        Ok(bytes) => match text_from_utf8(bytes) {
            Some(text) => Ok(text),
            None => Err(VaultError::DecodeFailure),
        },
        Err(e) => Err(e),
    }
}

impl MyKeyVault {
    /// The salt has 16 bytes, no key occurs twice, and every entry fits the
    /// stored format.
    #[verifier::type_invariant]
    pub open spec fn wf(&self) -> bool {
        self@.wf()
    }

    /// An empty vault with a salt drawn at random.
    pub fn new() -> (vault: MyKeyVault)
        ensures
            vault@.entries == Seq::<EntryView>::empty(),
            vault@.version == FORMAT_VERSION,
            vault.wf(),
    {
        MyKeyVault::with_salt(random_salt())
    }

    /// An empty vault with the given salt.
    pub fn with_salt(salt: [u8; 16]) -> (vault: MyKeyVault)
        ensures
            vault@ == (VaultView { salt: salt@, entries: Seq::empty(), version: FORMAT_VERSION }),
            vault.wf(),
    {
        let vault = MyKeyVault { salt, entries: Vec::new(), version: FORMAT_VERSION };
        assert(vault@.entries =~= Seq::<EntryView>::empty());
        vault
    }

    /// The salt that keys for this vault are derived against.
    pub fn salt(&self) -> (salt: [u8; 16])
        ensures
            salt@ == self@.salt,
    {
        self.salt
    }

    /// The format version the vault carries.
    pub fn version(&self) -> (version: u8)
        ensures
            version == self@.version,
    {
        self.version
    }

    /// The number of entries.
    pub fn len(&self) -> (n: usize)
        ensures
            n == self@.entries.len(),
    {
        self.entries.len()
    }

    /// Whether a secret is stored under `key`.
    pub fn contains_key(&self, key: &String) -> (found: bool)
        ensures
            found == self@.contains_key(key@),
    {
        self.position(key).is_some()
    }

    /// The place of the entry with this key.
    fn position(&self, key: &String) -> (place: Option<usize>)
        ensures
            place is Some <==> has_key(self@.entries, key@),
            place matches Some(i) ==> i < self.entries@.len() && i == index_of(
                self@.entries,
                key@,
            ),
    {
        proof {
            use_type_invariant(self);
        }
        let mut i: usize = 0;
        while i < self.entries.len()
            invariant
                i <= self.entries@.len(),
                self@.entries.len() == self.entries@.len(),
                distinct_keys(self@.entries),
                forall|j: int| 0 <= j < i ==> (#[trigger] self@.entries[j]).key != key@,
            decreases self.entries@.len() - i,
        {
            if self.entries[i].key == *key {
                proof {
                    assert(self@.entries[i as int].key == key@);
                    lemma_index_of_key(self@.entries, i as int);
                }
                return Some(i);
            }
            i += 1;
        }
        None
    }

    /// Keeps `blob` under `key`, in place of what was there.
    #[allow(unused_variables)]
    fn put(&mut self, key: String, blob: EncryptedBlob)
        ensures
            final(self)@ == old(self)@.with_entry(key@, blob@),
    {
        proof {
            use_type_invariant(&*self);
            use_type_invariant(&blob);
        }
        let key_len: usize = utf8_len(key.as_str());
        let blob_len: usize = blob.as_bytes().len();
        let ghost before = self@;
        let ghost entry = EntryView { key: key@, blob: blob@ };
        proof {
            // Both lengths are machine sizes, so they fit the 64-bit length fields.
            assert(key_len <= u64::MAX && blob_len <= u64::MAX);
            assert(entry_wf(entry));
            lemma_with_entry_wf(before.entries, key@, blob@);
        }
        let place = self.position(&key);
        // The list is taken out while it changes and put back whole.
        let mut entries: Vec<Entry> = Vec::new();
        core::mem::swap(&mut self.entries, &mut entries);
        match place {
            Some(i) => {
                entries[i] = Entry { key, blob };
            },
            None => {
                entries.push(Entry { key, blob });
            },
        }
        assert(entries@.map_values(|e: Entry| e@) =~= with_entry(
            before.entries,
            entry.key,
            entry.blob,
        ));
        assert(entries@.len() == entries.len());
        self.entries = entries;
    }

    /// Stores a sealed blob under `key`. An entry with that key gets the new
    /// blob; otherwise a new entry is added. Salt and version stay.
    pub fn store(&mut self, key: &String, blob: EncryptedBlob)
        ensures
            final(self)@ == old(self)@.with_entry(key@, blob@),
    {
        self.put(key.clone(), blob);
    }

    /// Seals `val` under `enc_key` with a fresh nonce and stores it under
    /// `key`, in place of any earlier value.
    ///
    /// Fails with `ValueTooLong`, and changes nothing, exactly when `val` is
    /// longer than the cipher can seal. After success, reading `key` with
    /// `enc_key` gives `val`.
    pub fn add_secret(&mut self, enc_key: &[u8; 32], key: &String, val: &String) -> (result: Result<
        (),
        VaultError,
    >)
        ensures
            result is Ok <==> encode_utf8(val@).len() <= MAX_PLAINTEXT_LEN,
            result is Ok ==> is_secret_added(old(self)@, final(self)@, enc_key@, key@, val@),
            result is Ok ==> final(self)@.spec_get_secret(enc_key@, key@) == Ok::<
                Seq<char>,
                VaultError,
            >(val@),
            result matches Err(e) ==> e == VaultError::ValueTooLong && final(self)@ == old(self)@,
    {
        proof {
            use_type_invariant(&*self);
        }
        match encrypt(enc_key, val.as_str().as_bytes()) {
            Ok(blob) => {
                proof {
                    assert(is_sealing(blob@, enc_key@, encode_utf8(val@)));
                }
                self.store(key, blob);
                proof {
                    lemma_added_secret_is_read_back(old(self)@, self@, enc_key@, key@, val@);
                }
                Ok(())
            },
            Err(e) => Err(e),
        }
    }

    /// Reads the secret stored under `key` with `enc_key`.
    ///
    /// Fails with `KeyNotFound` if nothing is stored under `key`, with
    /// `AuthFailure` if the blob does not open under `enc_key`, and with
    /// `DecodeFailure` if what it opens to is not UTF-8 text.
    pub fn get_secret(&self, enc_key: &[u8; 32], key: &String) -> (result: Result<
        String,
        VaultError,
    >)
        ensures
            result_text(result) == self@.spec_get_secret(enc_key@, key@),
    {
        match self.position(key) {
            Some(i) => secret_text(decrypt(enc_key, &self.entries[i].blob)),
            None => Err(VaultError::KeyNotFound),
        }
    }

    /// Derives the key for `pass_phrase` against this vault's salt.
    pub fn derive_key(&self, pass_phrase: &String) -> (key: [u8; 32])
        ensures
            key@ == spec_derive_key(pass_phrase@, self@.salt),
    {
        crate::kdf::derive_key(pass_phrase.as_str(), &self.salt)
    }

    /// The vault in its stored form.
    pub fn to_bytes(&self) -> (bytes: Vec<u8>)
        ensures
            bytes@ == encode_vault(self@),
    {
        let mut out: Vec<u8> = Vec::new();
        out.push(self.version);
        write_bytes(&mut out, self.salt.as_slice());
        write_len(&mut out, self.entries.len());
        let mut i: usize = 0;
        assert(self@.entries.skip(0) =~= self@.entries);
        while i < self.entries.len()
            invariant
                i <= self.entries@.len(),
                self@.entries.len() == self.entries@.len(),
                out@ + encode_entries(self@.entries.skip(i as int)) == encode_vault(self@),
            decreases self.entries@.len() - i,
        {
            let ghost rest = self@.entries.skip(i as int);
            let ghost before = out@;
            let entry = &self.entries[i];
            write_chunk(&mut out, entry.key.as_str().as_bytes());
            write_chunk(&mut out, entry.blob.as_bytes());
            i += 1;
            proof {
                assert(rest.first() == entry@);
                assert(rest.drop_first() =~= self@.entries.skip(i as int));
                assert(out@ + encode_entries(self@.entries.skip(i as int)) =~= before
                    + encode_entries(rest));
            }
        }
        assert(out@ + Seq::<u8>::empty() =~= out@);
        out
    }

    /// Reads a vault from its stored form.
    ///
    /// Fails with `CorruptFormat` exactly when `data` does not store a vault:
    /// it ends too early, a key is not UTF-8, or a blob has no room for a
    /// nonce. The version byte is kept as it is and not interpreted. Where a
    /// key is stored more than once, its last blob counts.
    pub fn from_bytes(data: &[u8]) -> (result: Result<MyKeyVault, VaultError>)
        ensures
            result is Ok <==> parse_vault(data@) is Some,
            result matches Ok(vault) ==> parse_vault(data@) == Some(vault@),
            result matches Err(e) ==> e == VaultError::CorruptFormat,
    {
        if data.len() < HEADER_LEN {
            return Err(VaultError::CorruptFormat);
        }
        let version: u8 = data[0];
        let mut salt: [u8; 16] = [0u8; 16];
        let mut k: usize = 0;
        while k < SALT_LEN
            invariant
                k <= SALT_LEN,
                data@.len() >= HEADER_LEN,
                forall|j: int| 0 <= j < k ==> salt@[j] == data@[1 + j],
            decreases SALT_LEN - k,
        {
            salt[k] = data[1 + k];
            k += 1;
        }
        assert(salt@ =~= data@.subrange(1, 1 + SALT_LEN));
        let count: u64 = u64_from_le_bytes(slice_subrange(data, 1 + SALT_LEN, HEADER_LEN));
        let mut vault = MyKeyVault { salt, entries: Vec::new(), version };
        assert(vault@.entries =~= Seq::<EntryView>::empty());
        let mut pos: usize = HEADER_LEN;
        let mut i: u64 = 0;
        let ghost mut list: Seq<EntryView> = Seq::empty();
        let ghost body = data@.skip(HEADER_LEN as int);
        assert(read_then(list, parse_entries(body, count as nat)) =~= parse_entries(
            body,
            count as nat,
        ));
        while i < count
            invariant
                HEADER_LEN <= pos <= data@.len(),
                i <= count,
                body == data@.skip(HEADER_LEN as int),
                count == spec_u64_from_le_bytes(data@.subrange(1 + SALT_LEN, HEADER_LEN as int)),
                forall|j: int| 0 <= j < list.len() ==> entry_wf(#[trigger] list[j]),
                parse_entries(body, count as nat) == read_then(
                    list,
                    parse_entries(data@.skip(pos as int), (count - i) as nat),
                ),
                vault@ == (VaultView { salt: salt@, entries: insert_all(list), version }),
            decreases count - i,
        {
            match read_entry(data, pos) {
                Some((key, blob, next)) => {
                    let ghost entry = EntryView { key: key@, blob: blob@ };
                    let ghost rest = parse_entries(
                        data@.skip(next as int),
                        (count - i - 1) as nat,
                    );
                    proof {
                        assert(data@.skip(pos as int).skip(next - pos) =~= data@.skip(next as int));
                        assert(list.push(entry).drop_last() =~= list);
                        assert(read_then(list.push(entry), rest) =~= read_then(
                            list,
                            read_then(seq![entry], rest),
                        ));
                    }
                    vault.put(key, blob);
                    proof {
                        list = list.push(entry);
                    }
                    pos = next;
                    i += 1;
                },
                None => {
                    assert(parse_entries(data@.skip(pos as int), (count - i) as nat) is None);
                    return Err(VaultError::CorruptFormat);
                },
            }
        }
        assert(list + Seq::<EntryView>::empty() =~= list);
        Ok(vault)
    }
}

/// Round trip: a secret that was added is read back, under the key it was
/// sealed with, as the text that was given.
pub proof fn lemma_added_secret_is_read_back(
    before: VaultView,
    after: VaultView,
    enc_key: Seq<u8>,
    key: Seq<char>,
    value: Seq<char>,
)
    requires
        before.wf(),
        is_secret_added(before, after, enc_key, key, value),
    ensures
        after.spec_get_secret(enc_key, key) == Ok::<Seq<char>, VaultError>(value),
{
    let blob = choose|blob: Seq<u8>| #[trigger]
        is_sealing(blob, enc_key, encode_utf8(value)) && after == before.with_entry(key, blob);
    lemma_lookup_with_entry(before.entries, key, blob, key);
    encode_utf8_valid_utf8(value);
    encode_utf8_decode_utf8(value);
}

/// Adding a secret under one key leaves what every other key reads as
/// unchanged, whatever key it is read with.
pub proof fn lemma_added_secret_keeps_others(
    before: VaultView,
    after: VaultView,
    enc_key: Seq<u8>,
    key: Seq<char>,
    value: Seq<char>,
    read_key: Seq<u8>,
    other: Seq<char>,
)
    requires
        before.wf(),
        is_secret_added(before, after, enc_key, key, value),
        other != key,
    ensures
        after.spec_get_secret(read_key, other) == before.spec_get_secret(read_key, other),
{
    let blob = choose|blob: Seq<u8>| #[trigger]
        is_sealing(blob, enc_key, encode_utf8(value)) && after == before.with_entry(key, blob);
    lemma_lookup_with_entry(before.entries, key, blob, other);
}

} // verus!
