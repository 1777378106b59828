//! The stored form of a vault.
//!
//! A vault is stored as its version byte, its 16 salt bytes, the number of
//! entries, and the entries in order. Each entry is its key as UTF-8 and its
//! blob, each preceded by its length in bytes. Counts and lengths are 64-bit
//! little-endian integers. Bytes after the last entry are not read.

use vstd::bytes::{
    lemma_auto_spec_u64_to_from_le_bytes, spec_u64_from_le_bytes, spec_u64_to_le_bytes,
    u64_from_le_bytes, u64_to_le_bytes,
};
use vstd::prelude::*;
use vstd::slice::{slice_subrange, slice_to_vec};
use vstd::utf8::{
    decode_utf8, encode_utf8, encode_utf8_decode_utf8, encode_utf8_valid_utf8, valid_utf8,
};

use crate::cipher::{EncryptedBlob, NONCE_LEN};
use crate::kdf::SALT_LEN;
use crate::model::{entry_wf, insert_all, lemma_insert_all_distinct, EntryView, VaultView};
use crate::text::text_from_utf8;

verus! {

/// Number of bytes in a length or count field.
pub const LEN_FIELD: usize = 8;

/// Number of bytes before the first entry: version, salt and entry count.
pub const HEADER_LEN: usize = 25;

/// A length or count as stored.
pub open spec fn encode_len(n: nat) -> Seq<u8> {
    spec_u64_to_le_bytes(n as u64)
}

/// A byte string as stored: its length, then its bytes.
pub open spec fn encode_chunk(payload: Seq<u8>) -> Seq<u8> {
    encode_len(payload.len()) + payload
}

/// An entry as stored: its key, then its blob.
pub open spec fn encode_entry(entry: EntryView) -> Seq<u8> {
    encode_chunk(encode_utf8(entry.key)) + encode_chunk(entry.blob)
}

/// Entries as stored, one after the other.
pub open spec fn encode_entries(entries: Seq<EntryView>) -> Seq<u8>
    decreases entries.len(),
{
    if entries.len() == 0 {
        Seq::empty()
    } else {
        encode_entry(entries.first()) + encode_entries(entries.drop_first())
    }
}

/// A vault as stored.
pub open spec fn encode_vault(vault: VaultView) -> Seq<u8> {
    seq![vault.version] + vault.salt + encode_len(vault.entries.len()) + encode_entries(
        vault.entries,
    )
}

/// Reads one stored byte string from the front of `data`: its bytes and the
/// number of bytes read, or nothing if `data` ends too early.
pub open spec fn parse_chunk(data: Seq<u8>) -> Option<(Seq<u8>, int)> {
    if data.len() < LEN_FIELD {
        None
    } else {
        let n = spec_u64_from_le_bytes(data.take(LEN_FIELD as int));
        if n > data.len() - LEN_FIELD {
            None
        } else {
            Some((data.subrange(LEN_FIELD as int, LEN_FIELD + n), LEN_FIELD + n))
        }
    }
}

/// Reads one stored entry from the front of `data`: the entry and the number
/// of bytes read. There is none if `data` ends too early, the key is not
/// UTF-8, or the blob has no room for a nonce.
pub open spec fn parse_entry(data: Seq<u8>) -> Option<(EntryView, int)> {
    match parse_chunk(data) {
        None => None,
        Some((key_bytes, key_used)) => match parse_chunk(data.skip(key_used)) {
            None => None,
            Some((blob, blob_used)) => if valid_utf8(key_bytes) && blob.len() >= NONCE_LEN {
                Some((EntryView { key: decode_utf8(key_bytes), blob }, key_used + blob_used))
            } else {
                None
            },
        },
    }
}

/// Reads `count` stored entries from the front of `data`, in order.
pub open spec fn parse_entries(data: Seq<u8>, count: nat) -> Option<Seq<EntryView>>
    decreases count,
{
    if count == 0 {
        Some(Seq::empty())
    } else {
        match parse_entry(data) {
            None => None,
            Some((entry, used)) => match parse_entries(data.skip(used), (count - 1) as nat) {
                None => None,
                Some(rest) => Some(seq![entry] + rest),
            },
        }
    }
}

/// The vault that `data` stores, if it stores one. Where a key is stored more
/// than once, its last blob counts.
pub open spec fn parse_vault(data: Seq<u8>) -> Option<VaultView> {
    if data.len() < HEADER_LEN {
        None
    } else {
        let count = spec_u64_from_le_bytes(data.subrange(1 + SALT_LEN, HEADER_LEN as int));
        match parse_entries(data.skip(HEADER_LEN as int), count as nat) {
            None => None,
            Some(list) => Some(
                VaultView {
                    salt: data.subrange(1, 1 + SALT_LEN),
                    entries: insert_all(list),
                    version: data[0],
                },
            ),
        }
    }
}

/// Entries already read, followed by what is read next.
pub open spec fn read_then(done: Seq<EntryView>, next: Option<Seq<EntryView>>) -> Option<
    Seq<EntryView>,
> {
    match next {
        Some(rest) => Some(done + rest),
        None => None,
    }
}

/// A stored byte string is read back as it was, whatever follows it.
pub proof fn lemma_parse_chunk_encoded(payload: Seq<u8>, tail: Seq<u8>)
    requires
        payload.len() <= u64::MAX,
    ensures
        encode_chunk(payload).len() == LEN_FIELD + payload.len(),
        parse_chunk(encode_chunk(payload) + tail) == Some((payload, LEN_FIELD + payload.len())),
{
    lemma_auto_spec_u64_to_from_le_bytes();
    let data = encode_chunk(payload) + tail;
    assert(data.take(LEN_FIELD as int) =~= encode_len(payload.len()));
    assert(data.subrange(LEN_FIELD as int, LEN_FIELD + payload.len()) =~= payload);
}

/// A stored entry is read back as it was, whatever follows it.
pub proof fn lemma_parse_entry_encoded(entry: EntryView, tail: Seq<u8>)
    requires
        entry_wf(entry),
    ensures
        parse_entry(encode_entry(entry) + tail) == Some((entry, encode_entry(entry).len() as int)),
{
    let key_bytes = encode_utf8(entry.key);
    let data = encode_entry(entry) + tail;
    let after_key = encode_chunk(entry.blob) + tail;
    assert(data =~= encode_chunk(key_bytes) + after_key);
    lemma_parse_chunk_encoded(key_bytes, after_key);
    assert(data.skip(LEN_FIELD + key_bytes.len()) =~= after_key);
    lemma_parse_chunk_encoded(entry.blob, tail);
    encode_utf8_valid_utf8(entry.key);
    encode_utf8_decode_utf8(entry.key);
}

/// Stored entries are read back as they were, whatever follows them.
pub proof fn lemma_parse_entries_encoded(entries: Seq<EntryView>, tail: Seq<u8>)
    requires
        forall|i: int| 0 <= i < entries.len() ==> entry_wf(#[trigger] entries[i]),
    ensures
        parse_entries(encode_entries(entries) + tail, entries.len()) == Some(entries),
    decreases entries.len(),
{
    if entries.len() > 0 {
        let first = entries.first();
        let rest = entries.drop_first();
        let data = encode_entries(entries) + tail;
        let after_first = encode_entries(rest) + tail;
        assert(data =~= encode_entry(first) + after_first);
        lemma_parse_entry_encoded(first, after_first);
        assert(data.skip(encode_entry(first).len() as int) =~= after_first);
        assert forall|i: int| 0 <= i < rest.len() implies entry_wf(#[trigger] rest[i]) by {
            assert(rest[i] == entries[i + 1]);
        }
        lemma_parse_entries_encoded(rest, tail);
        assert(seq![first] + rest =~= entries);
    }
}

/// Reading what was stored gives the vault back: the same salt, version and
/// entries. Bytes that follow the stored vault change nothing.
pub proof fn lemma_parse_encoded_vault(vault: VaultView, tail: Seq<u8>)
    requires
        vault.wf(),
    ensures
        parse_vault(encode_vault(vault) + tail) == Some(vault),
{
    lemma_auto_spec_u64_to_from_le_bytes();
    let data = encode_vault(vault) + tail;
    let count = encode_len(vault.entries.len());
    let body = encode_entries(vault.entries) + tail;
    assert(data =~= seq![vault.version] + vault.salt + count + body);
    assert(data.subrange(1, 1 + SALT_LEN) =~= vault.salt);
    assert(data.subrange(1 + SALT_LEN, HEADER_LEN as int) =~= count);
    assert(data.skip(HEADER_LEN as int) =~= body);
    lemma_parse_entries_encoded(vault.entries, tail);
    lemma_insert_all_distinct(vault.entries);
}

/// Persistence round trip: a stored vault is read back unchanged.
pub proof fn lemma_stored_vault_reads_back(vault: VaultView)
    requires
        vault.wf(),
    ensures
        parse_vault(encode_vault(vault)) == Some(vault),
{
    lemma_parse_encoded_vault(vault, Seq::empty());
    assert(encode_vault(vault) + Seq::<u8>::empty() =~= encode_vault(vault));
}

/// Appends `bytes` to `out`.
pub(crate) fn write_bytes(out: &mut Vec<u8>, bytes: &[u8])
    ensures
        final(out)@ == old(out)@ + bytes@,
{
    let mut i: usize = 0;
    while i < bytes.len()
        invariant
            i <= bytes@.len(),
            out@ == old(out)@ + bytes@.take(i as int),
        decreases bytes@.len() - i,
    {
        out.push(bytes[i]);
        i += 1;
        assert(out@ =~= old(out)@ + bytes@.take(i as int));
    }
    assert(bytes@.take(i as int) =~= bytes@);
}

/// Appends a length or count field to `out`.
pub(crate) fn write_len(out: &mut Vec<u8>, n: usize)
    ensures
        final(out)@ == old(out)@ + encode_len(n as nat),
{
    let field = u64_to_le_bytes(n as u64);
    write_bytes(out, field.as_slice());
}

/// Appends a byte string to `out` in its stored form.
pub(crate) fn write_chunk(out: &mut Vec<u8>, payload: &[u8])
    ensures
        final(out)@ == old(out)@ + encode_chunk(payload@),
{
    write_len(out, payload.len());
    write_bytes(out, payload);
    assert(out@ =~= old(out)@ + encode_chunk(payload@));
}

/// Reads the stored byte string that starts at `pos`.
pub(crate) fn read_chunk(data: &[u8], pos: usize) -> (chunk: Option<&[u8]>)
    requires
        pos <= data@.len(),
    ensures
        chunk is Some <==> parse_chunk(data@.skip(pos as int)) is Some,
        chunk matches Some(payload) ==> parse_chunk(data@.skip(pos as int)) == Some(
            (payload@, LEN_FIELD + payload@.len()),
        ),
        chunk matches Some(payload) ==> pos + LEN_FIELD + payload@.len() <= data@.len(),
{
    let left: usize = data.len() - pos;
    if left < LEN_FIELD {
        return None;
    }
    let start: usize = pos + LEN_FIELD;
    let field = slice_subrange(data, pos, start);
    let n: u64 = u64_from_le_bytes(field);
    assert(field@ =~= data@.skip(pos as int).take(LEN_FIELD as int));
    if n > (left - LEN_FIELD) as u64 {
        return None;
    }
    let end: usize = start + n as usize;
    let payload = slice_subrange(data, start, end);
    assert(payload@ =~= data@.skip(pos as int).subrange(LEN_FIELD as int, LEN_FIELD + n));
    Some(payload)
}

/// Reads the stored entry that starts at `pos`: its key, its blob, and the
/// position after it.
pub(crate) fn read_entry(data: &[u8], pos: usize) -> (entry: Option<(String, EncryptedBlob, usize)>)
    requires
        pos <= data@.len(),
    ensures
        entry is Some <==> parse_entry(data@.skip(pos as int)) is Some,
        entry matches Some((key, blob, next)) ==> parse_entry(data@.skip(pos as int)) == Some(
            (EntryView { key: key@, blob: blob@ }, next - pos),
        ),
        entry matches Some((key, blob, next)) ==> pos <= next <= data@.len() && entry_wf(
            EntryView { key: key@, blob: blob@ },
        ),
{
    let key_bytes = match read_chunk(data, pos) {
        Some(bytes) => bytes,
        None => {
            return None;
        },
    };
    assert(data@.len() == data.len());
    let mid: usize = pos + LEN_FIELD + key_bytes.len();
    assert(data@.skip(pos as int).skip(LEN_FIELD + key_bytes@.len()) =~= data@.skip(mid as int));
    let blob_bytes = match read_chunk(data, mid) {
        Some(bytes) => bytes,
        None => {
            return None;
        },
    };
    let next: usize = mid + LEN_FIELD + blob_bytes.len();
    let key = match text_from_utf8(slice_to_vec(key_bytes)) {
        Some(text) => text,
        None => {
            return None;
        },
    };
    let blob = match EncryptedBlob::from_bytes(slice_to_vec(blob_bytes)) {
        Some(blob) => blob,
        None => {
            return None;
        },
    };
    Some((key, blob, next))
}

} // verus!
