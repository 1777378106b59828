//! The mathematical model of a vault, which the contracts speak of.
//!
//! A vault is a salt, a format version and a list of entries in the order in
//! which their keys were first stored. No key occurs twice, so the list is a
//! finite map from keys to blobs.

use vstd::prelude::*;
use vstd::utf8::encode_utf8;

use vstd::utf8::{decode_utf8, valid_utf8};

use crate::cipher::{spec_decrypt, NONCE_LEN};
use crate::error::VaultError;
use crate::kdf::SALT_LEN;

verus! {

/// One entry: a key and the sealed blob kept under it.
pub struct EntryView {
    pub key: Seq<char>,
    pub blob: Seq<u8>,
}

/// A vault as a mathematical value.
pub struct VaultView {
    pub salt: Seq<u8>,
    pub entries: Seq<EntryView>,
    pub version: u8,
}

/// An entry that the stored format can hold: its blob has room for a nonce,
/// and both lengths fit the format's 64-bit length fields.
pub open spec fn entry_wf(entry: EntryView) -> bool {
    &&& encode_utf8(entry.key).len() <= u64::MAX
    &&& NONCE_LEN <= entry.blob.len() <= u64::MAX
}

/// No key occurs twice.
pub open spec fn distinct_keys(entries: Seq<EntryView>) -> bool {
    forall|i: int, j: int|
        0 <= i < j < entries.len() ==> (#[trigger] entries[i]).key != (#[trigger] entries[j]).key
}

/// Every entry is well formed and no key occurs twice.
pub open spec fn entries_wf(entries: Seq<EntryView>) -> bool {
    &&& distinct_keys(entries)
    &&& forall|i: int| 0 <= i < entries.len() ==> entry_wf(#[trigger] entries[i])
}

/// Some entry has this key.
pub open spec fn has_key(entries: Seq<EntryView>, key: Seq<char>) -> bool {
    exists|i: int| 0 <= i < entries.len() && (#[trigger] entries[i]).key == key
}

/// The place of the entry with this key, where there is one.
pub open spec fn index_of(entries: Seq<EntryView>, key: Seq<char>) -> int {
    choose|i: int| 0 <= i < entries.len() && (#[trigger] entries[i]).key == key
}

/// The blob kept under `key`, if any.
pub open spec fn lookup(entries: Seq<EntryView>, key: Seq<char>) -> Option<Seq<u8>> {
    if has_key(entries, key) {
        Some(entries[index_of(entries, key)].blob)
    } else {
        None
    }
}

/// The entries after `blob` is stored under `key`: an entry with that key
/// keeps its place and gets the new blob; a new key goes to the end.
pub open spec fn with_entry(entries: Seq<EntryView>, key: Seq<char>, blob: Seq<u8>) -> Seq<
    EntryView,
> {
    if has_key(entries, key) {
        entries.update(index_of(entries, key), EntryView { key, blob })
    } else {
        entries.push(EntryView { key, blob })
    }
}

/// The entries that result from storing each of `list` in turn, first to
/// last, starting from nothing. A key that occurs again overwrites.
pub open spec fn insert_all(list: Seq<EntryView>) -> Seq<EntryView>
    decreases list.len(),
{
    if list.len() == 0 {
        Seq::empty()
    } else {
        with_entry(insert_all(list.drop_last()), list.last().key, list.last().blob)
    }
}

/// The text that opened bytes hold: the opening's own failure if it failed,
/// `DecodeFailure` if the bytes are not UTF-8.
pub open spec fn spec_secret_text(opened: Result<Seq<u8>, VaultError>) -> Result<
    Seq<char>,
    VaultError,
> {
    match opened {
        Ok(bytes) => if valid_utf8(bytes) {
            Ok(decode_utf8(bytes))
        } else {
            Err(VaultError::DecodeFailure)
        },
        Err(e) => Err(e),
    }
}

impl VaultView {
    /// The salt has its fixed length, the entries are well formed, and their
    /// number fits the format's 64-bit count.
    pub open spec fn wf(self) -> bool {
        &&& self.salt.len() == SALT_LEN
        &&& self.entries.len() <= u64::MAX
        &&& entries_wf(self.entries)
    }

    /// Some entry has this key.
    pub open spec fn contains_key(self, key: Seq<char>) -> bool {
        has_key(self.entries, key)
    }

    /// The blob kept under `key`, if any.
    pub open spec fn lookup(self, key: Seq<char>) -> Option<Seq<u8>> {
        lookup(self.entries, key)
    }

    /// The vault after `blob` is stored under `key`. Salt and version stay.
    pub open spec fn with_entry(self, key: Seq<char>, blob: Seq<u8>) -> VaultView {
        VaultView { entries: with_entry(self.entries, key, blob), ..self }
    }

    /// What reading the secret under `key` with `enc_key` gives: the text,
    /// or `KeyNotFound`, `AuthFailure` or `DecodeFailure`.
    pub open spec fn spec_get_secret(self, enc_key: Seq<u8>, key: Seq<char>) -> Result<
        Seq<char>,
        VaultError,
    > {
        match lookup(self.entries, key) {
            Some(blob) => spec_secret_text(spec_decrypt(enc_key, blob)),
            None => Err(VaultError::KeyNotFound),
        }
    }

    /// The entries as a finite map from keys to blobs.
    pub open spec fn entry_map(self) -> Map<Seq<char>, Seq<u8>> {
        Map::new(|key: Seq<char>| has_key(self.entries, key), |key: Seq<char>| lookup(self.entries, key).unwrap())
    }
}

/// Where keys are distinct, an entry's key is found at that entry's place.
pub proof fn lemma_index_of_key(entries: Seq<EntryView>, i: int)
    requires
        distinct_keys(entries),
        0 <= i < entries.len(),
    ensures
        has_key(entries, entries[i].key),
        index_of(entries, entries[i].key) == i,
        lookup(entries, entries[i].key) == Some(entries[i].blob),
{
    let key = entries[i].key;
    let j = index_of(entries, key);
    assert(0 <= j < entries.len() && entries[j].key == key);
    if j < i {
        assert(entries[j].key != entries[i].key);
    } else if i < j {
        assert(entries[i].key != entries[j].key);
    }
}

/// Storing an entry keeps the entries well formed.
pub proof fn lemma_with_entry_wf(entries: Seq<EntryView>, key: Seq<char>, blob: Seq<u8>)
    requires
        entries_wf(entries),
        entry_wf(EntryView { key, blob }),
    ensures
        entries_wf(with_entry(entries, key, blob)),
        with_entry(entries, key, blob).len() == (if has_key(entries, key) {
            entries.len()
        } else {
            entries.len() + 1
        }),
{
    let after = with_entry(entries, key, blob);
    if has_key(entries, key) {
        let at = index_of(entries, key);
        assert(0 <= at < entries.len() && entries[at].key == key);
        assert forall|i: int, j: int| 0 <= i < j < after.len() implies (#[trigger] after[i]).key
            != (#[trigger] after[j]).key by {
            assert(after[i].key == entries[i].key);
            assert(after[j].key == entries[j].key);
        }
        assert forall|i: int| 0 <= i < after.len() implies entry_wf(#[trigger] after[i]) by {
            if i != at {
                assert(after[i] == entries[i]);
            }
        }
    } else {
        assert forall|i: int, j: int| 0 <= i < j < after.len() implies (#[trigger] after[i]).key
            != (#[trigger] after[j]).key by {
            if j == entries.len() {
                assert(after[i] == entries[i]);
            } else {
                assert(after[i] == entries[i]);
                assert(after[j] == entries[j]);
            }
        }
        assert forall|i: int| 0 <= i < after.len() implies entry_wf(#[trigger] after[i]) by {
            if i < entries.len() {
                assert(after[i] == entries[i]);
            }
        }
    }
}

/// Storing is insertion into a map: afterwards the stored key gives the new
/// blob, and every other key gives what it gave before.
pub proof fn lemma_lookup_with_entry(
    entries: Seq<EntryView>,
    key: Seq<char>,
    blob: Seq<u8>,
    other: Seq<char>,
)
    requires
        distinct_keys(entries),
    ensures
        lookup(with_entry(entries, key, blob), other) == (if other == key {
            Some(blob)
        } else {
            lookup(entries, other)
        }),
{
    let after = with_entry(entries, key, blob);
    if has_key(entries, key) {
        let at = index_of(entries, key);
        assert(0 <= at < entries.len() && entries[at].key == key);
        assert forall|i: int, j: int| 0 <= i < j < after.len() implies (#[trigger] after[i]).key
            != (#[trigger] after[j]).key by {
            assert(after[i].key == entries[i].key);
            assert(after[j].key == entries[j].key);
        }
        if other == key {
            assert(after[at].key == key);
            lemma_index_of_key(after, at);
        } else if has_key(entries, other) {
            let o = index_of(entries, other);
            assert(0 <= o < entries.len() && entries[o].key == other);
            assert(after[o] == entries[o]);
            lemma_index_of_key(after, o);
        } else {
            if has_key(after, other) {
                let o = index_of(after, other);
                assert(0 <= o < after.len() && after[o].key == other);
                assert(entries[o].key == other);
            }
        }
    } else {
        let end = entries.len() as int;
        assert forall|i: int, j: int| 0 <= i < j < after.len() implies (#[trigger] after[i]).key
            != (#[trigger] after[j]).key by {
            assert(after[i] == entries[i]);
            if j < end {
                assert(after[j] == entries[j]);
            }
        }
        if other == key {
            assert(after[end].key == key);
            lemma_index_of_key(after, end);
        } else if has_key(entries, other) {
            let o = index_of(entries, other);
            assert(0 <= o < entries.len() && entries[o].key == other);
            assert(after[o] == entries[o]);
            lemma_index_of_key(after, o);
        } else {
            if has_key(after, other) {
                let o = index_of(after, other);
                assert(0 <= o < after.len() && after[o].key == other);
                assert(entries[o].key == other);
            }
        }
    }
}

/// Storing an entry is `Map::insert` on the vault's map of entries.
pub proof fn lemma_with_entry_is_map_insert(vault: VaultView, key: Seq<char>, blob: Seq<u8>)
    requires
        distinct_keys(vault.entries),
    ensures
        vault.with_entry(key, blob).entry_map() == vault.entry_map().insert(key, blob),
{
    let after = vault.with_entry(key, blob).entry_map();
    let inserted = vault.entry_map().insert(key, blob);
    assert forall|k: Seq<char>| after.dom().contains(k) == inserted.dom().contains(k) by {
        lemma_lookup_with_entry(vault.entries, key, blob, k);
    }
    assert forall|k: Seq<char>| after.dom().contains(k) implies after[k] == inserted[k] by {
        lemma_lookup_with_entry(vault.entries, key, blob, k);
    }
    assert(after =~= inserted);
}

/// Storing the entries of a well-formed list one by one rebuilds the list.
pub proof fn lemma_insert_all_distinct(list: Seq<EntryView>)
    requires
        distinct_keys(list),
    ensures
        insert_all(list) == list,
    decreases list.len(),
{
    if list.len() > 0 {
        let front = list.drop_last();
        let end = list.len() - 1;
        assert forall|i: int, j: int| 0 <= i < j < front.len() implies (#[trigger] front[i]).key
            != (#[trigger] front[j]).key by {
            assert(front[i] == list[i]);
            assert(front[j] == list[j]);
        }
        lemma_insert_all_distinct(front);
        if has_key(front, list.last().key) {
            let at = index_of(front, list.last().key);
            assert(0 <= at < front.len() && front[at].key == list.last().key);
            assert(front[at] == list[at]);
            assert(list[at].key != list[end].key);
        }
        assert(front.push(list.last()) =~= list);
    }
}

} // verus!
