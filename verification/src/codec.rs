//! The binary snapshot format: fixed-width headers and entries, little-endian
//! throughout, laid out for O(log N) lookup by stem through a companion
//! offset index.
//!
//! State file: a 64-byte header (magic `PIR2`, version, entry size, entry
//! count, block number, chain id, block hash) followed by 84-byte entries
//! (address, tree index, value), sorted by tree index.
//!
//! Stem index file: an 8-byte stem count followed by 39-byte records
//! (stem, offset of the stem's first entry in the state file).

use vstd::prelude::*;
use vstd::bytes::{
    lemma_auto_spec_u16_to_from_le_bytes,
    lemma_auto_spec_u64_to_from_le_bytes,
    spec_u16_from_le_bytes,
    spec_u16_to_le_bytes,
    spec_u64_from_le_bytes,
    spec_u64_to_le_bytes,
    u16_from_le_bytes,
    u16_to_le_bytes,
    u64_from_le_bytes,
    u64_to_le_bytes,
};
use vstd::slice::slice_subrange;

use crate::bytes::{clone_bytes, push_bytes};
use crate::types::{Stem, ADDRESS_LEN, VALUE_LEN};

verus! {

/// Size in bytes of a state file header.
pub const STATE_HEADER_SIZE: usize = 64;

/// Size in bytes of one state file entry.
pub const STATE_ENTRY_SIZE: usize = 84;

/// Size in bytes of one stem index record.
pub const STEM_INDEX_ENTRY_SIZE: usize = 39;

/// Version written into every state file header.
pub const STATE_VERSION: u16 = 1;

/// The four magic bytes that open a state file: ASCII `PIR2`.
pub open spec fn spec_magic() -> Seq<u8> {
    seq![0x50u8, 0x49u8, 0x52u8, 0x32u8]
}

/// The magic as a vector, for encoding and for callers that compare prefixes.
pub fn state_magic() -> (r: Vec<u8>)
    ensures
        r@ == spec_magic(),
{
    let mut r: Vec<u8> = Vec::new();
    r.push(0x50);
    r.push(0x49);
    r.push(0x52);
    r.push(0x32);
    proof {
        assert(r@ =~= spec_magic());
    }
    r
}

/// The 64-byte header of a state, contract or delta snapshot.
#[derive(Debug)]
pub struct StateHeader {
    pub magic: Vec<u8>,
    pub version: u16,
    pub entry_size: u16,
    pub entry_count: u64,
    pub block_number: u64,
    pub chain_id: u64,
    pub block_hash: Vec<u8>,
}

impl StateHeader {
    pub open spec fn wf(self) -> bool {
        &&& self.magic@.len() == 4
        &&& self.block_hash@.len() == VALUE_LEN
    }

    /// The exact 64 bytes this header encodes to.
    pub open spec fn spec_bytes(self) -> Seq<u8> {
        self.magic@ + spec_u16_to_le_bytes(self.version) + spec_u16_to_le_bytes(self.entry_size)
            + spec_u64_to_le_bytes(self.entry_count) + spec_u64_to_le_bytes(self.block_number)
            + spec_u64_to_le_bytes(self.chain_id) + self.block_hash@
    }

    /// A fresh header carrying the canonical magic, version and entry size.
    pub fn new(entry_count: u64, block_number: u64, chain_id: u64, block_hash: Vec<u8>) -> (r:
        StateHeader)
        requires
            block_hash@.len() == VALUE_LEN,
        ensures
            r.wf(),
            r.magic@ == spec_magic(),
            r.version == STATE_VERSION,
            r.entry_size == STATE_ENTRY_SIZE as u16,
            r.entry_count == entry_count,
            r.block_number == block_number,
            r.chain_id == chain_id,
            r.block_hash@ == block_hash@,
    {
        StateHeader {
            magic: state_magic(),
            version: STATE_VERSION,
            entry_size: 84,
            entry_count,
            block_number,
            chain_id,
            block_hash,
        }
    }

    pub fn to_bytes(&self) -> (r: Vec<u8>)
        requires
            self.wf(),
        ensures
            r@ == self.spec_bytes(),
            r@.len() == STATE_HEADER_SIZE,
    {
        proof {
            lemma_auto_spec_u16_to_from_le_bytes();
            lemma_auto_spec_u64_to_from_le_bytes();
        }
        let mut r = clone_bytes(&self.magic);
        let mut version = u16_to_le_bytes(self.version);
        r.append(&mut version);
        let mut entry_size = u16_to_le_bytes(self.entry_size);
        r.append(&mut entry_size);
        let mut entry_count = u64_to_le_bytes(self.entry_count);
        r.append(&mut entry_count);
        let mut block_number = u64_to_le_bytes(self.block_number);
        r.append(&mut block_number);
        let mut chain_id = u64_to_le_bytes(self.chain_id);
        r.append(&mut chain_id);
        push_bytes(&mut r, &self.block_hash);
        r
    }

    /// Decode a 64-byte header; reports nothing for any other length.
    pub fn from_bytes(bytes: &Vec<u8>) -> (r: Option<StateHeader>)
        ensures
            match r {
                Some(h) => {
                    &&& bytes@.len() == STATE_HEADER_SIZE
                    &&& h.wf()
                    &&& h.magic@ == bytes@.subrange(0, 4)
                    &&& h.version == spec_u16_from_le_bytes(bytes@.subrange(4, 6))
                    &&& h.entry_size == spec_u16_from_le_bytes(bytes@.subrange(6, 8))
                    &&& h.entry_count == spec_u64_from_le_bytes(bytes@.subrange(8, 16))
                    &&& h.block_number == spec_u64_from_le_bytes(bytes@.subrange(16, 24))
                    &&& h.chain_id == spec_u64_from_le_bytes(bytes@.subrange(24, 32))
                    &&& h.block_hash@ == bytes@.subrange(32, 64)
                },
                None => bytes@.len() != STATE_HEADER_SIZE,
            },
    {
        if bytes.len() != STATE_HEADER_SIZE {
            return None;
        }
        let s = bytes.as_slice();
        let magic = slice_to_vec_u8(slice_subrange(s, 0, 4));
        let version = u16_from_le_bytes(slice_subrange(s, 4, 6));
        let entry_size = u16_from_le_bytes(slice_subrange(s, 6, 8));
        let entry_count = u64_from_le_bytes(slice_subrange(s, 8, 16));
        let block_number = u64_from_le_bytes(slice_subrange(s, 16, 24));
        let chain_id = u64_from_le_bytes(slice_subrange(s, 24, 32));
        let block_hash = slice_to_vec_u8(slice_subrange(s, 32, 64));
        Some(StateHeader { magic, version, entry_size, entry_count, block_number, chain_id, block_hash })
    }
}

/// Copy a byte slice into a fresh vector.
pub fn slice_to_vec_u8(s: &[u8]) -> (r: Vec<u8>)
    ensures
        r@ == s@,
{
    let n = s.len();
    let mut r: Vec<u8> = Vec::new();
    let mut i: usize = 0;
    while i < n
        invariant
            n == s@.len(),
            0 <= i <= n,
            r@ == s@.subrange(0, i as int),
        decreases n - i,
    {
        let b = *vstd::slice::slice_index_get(s, i);
        r.push(b);
        proof {
            assert(r@ =~= s@.subrange(0, i + 1));
        }
        i = i + 1;
    }
    proof {
        assert(r@ =~= s@);
    }
    r
}

/// Law: decoding the 64 bytes a well-formed header encodes to yields every
/// field back exactly.
pub proof fn lemma_header_roundtrip(h: StateHeader)
    requires
        h.wf(),
    ensures
        h.spec_bytes().len() == STATE_HEADER_SIZE,
        h.spec_bytes().subrange(0, 4) == h.magic@,
        spec_u16_from_le_bytes(h.spec_bytes().subrange(4, 6)) == h.version,
        spec_u16_from_le_bytes(h.spec_bytes().subrange(6, 8)) == h.entry_size,
        spec_u64_from_le_bytes(h.spec_bytes().subrange(8, 16)) == h.entry_count,
        spec_u64_from_le_bytes(h.spec_bytes().subrange(16, 24)) == h.block_number,
        spec_u64_from_le_bytes(h.spec_bytes().subrange(24, 32)) == h.chain_id,
        h.spec_bytes().subrange(32, 64) == h.block_hash@,
{
    lemma_auto_spec_u16_to_from_le_bytes();
    lemma_auto_spec_u64_to_from_le_bytes();
    let b = h.spec_bytes();
    assert(b.subrange(0, 4) =~= h.magic@);
    assert(b.subrange(4, 6) =~= spec_u16_to_le_bytes(h.version));
    assert(b.subrange(6, 8) =~= spec_u16_to_le_bytes(h.entry_size));
    assert(b.subrange(8, 16) =~= spec_u64_to_le_bytes(h.entry_count));
    assert(b.subrange(16, 24) =~= spec_u64_to_le_bytes(h.block_number));
    assert(b.subrange(24, 32) =~= spec_u64_to_le_bytes(h.chain_id));
    assert(b.subrange(32, 64) =~= h.block_hash@);
}

/// One 84-byte state file entry: owning address, 32-byte tree index
/// (stem followed by sub-index), and 32-byte value.
#[derive(Debug)]
pub struct StorageEntry {
    pub address: Vec<u8>,
    pub tree_index: Vec<u8>,
    pub value: Vec<u8>,
}

impl StorageEntry {
    pub open spec fn wf(self) -> bool {
        &&& self.address@.len() == ADDRESS_LEN
        &&& self.tree_index@.len() == VALUE_LEN
        &&& self.value@.len() == VALUE_LEN
    }

    /// The exact 84 bytes this entry encodes to.
    pub open spec fn spec_bytes(self) -> Seq<u8> {
        self.address@ + self.tree_index@ + self.value@
    }

    pub fn to_bytes(&self) -> (r: Vec<u8>)
        requires
            self.wf(),
        ensures
            r@ == self.spec_bytes(),
            r@.len() == STATE_ENTRY_SIZE,
    {
        let mut r = clone_bytes(&self.address);
        push_bytes(&mut r, &self.tree_index);
        push_bytes(&mut r, &self.value);
        r
    }

    /// Decode an 84-byte entry; reports nothing for any other length.
    pub fn from_bytes(bytes: &Vec<u8>) -> (r: Option<StorageEntry>)
        ensures
            match r {
                Some(e) => {
                    &&& bytes@.len() == STATE_ENTRY_SIZE
                    &&& e.wf()
                    &&& e.address@ == bytes@.subrange(0, 20)
                    &&& e.tree_index@ == bytes@.subrange(20, 52)
                    &&& e.value@ == bytes@.subrange(52, 84)
                },
                None => bytes@.len() != STATE_ENTRY_SIZE,
            },
    {
        if bytes.len() != STATE_ENTRY_SIZE {
            return None;
        }
        let s = bytes.as_slice();
        let address = slice_to_vec_u8(slice_subrange(s, 0, 20));
        let tree_index = slice_to_vec_u8(slice_subrange(s, 20, 52));
        let value = slice_to_vec_u8(slice_subrange(s, 52, 84));
        Some(StorageEntry { address, tree_index, value })
    }
}

/// Law: decoding the 84 bytes a well-formed entry encodes to yields every
/// field back exactly.
pub proof fn lemma_entry_roundtrip(e: StorageEntry)
    requires
        e.wf(),
    ensures
        e.spec_bytes().len() == STATE_ENTRY_SIZE,
        e.spec_bytes().subrange(0, 20) == e.address@,
        e.spec_bytes().subrange(20, 52) == e.tree_index@,
        e.spec_bytes().subrange(52, 84) == e.value@,
{
    let b = e.spec_bytes();
    assert(b.subrange(0, 20) =~= e.address@);
    assert(b.subrange(20, 52) =~= e.tree_index@);
    assert(b.subrange(52, 84) =~= e.value@);
}

/// A leaf's 32-byte position in the authenticated trie: the stem followed by
/// the sub-index.
pub fn tree_index_from_key(stem: &Stem, subindex: u8) -> (r: Vec<u8>)
    requires
        stem.wf(),
    ensures
        r@ == stem@.push(subindex),
        r@.len() == VALUE_LEN,
{
    let mut r = clone_bytes(stem.as_bytes());
    r.push(subindex);
    r
}

/// One 39-byte stem index record: the stem, then the offset of its first
/// entry in the state file.
pub fn stem_index_record_bytes(stem: &Stem, offset: u64) -> (r: Vec<u8>)
    requires
        stem.wf(),
    ensures
        r@ == stem@ + spec_u64_to_le_bytes(offset),
        r@.len() == STEM_INDEX_ENTRY_SIZE,
{
    proof {
        lemma_auto_spec_u64_to_from_le_bytes();
    }
    let mut r = clone_bytes(stem.as_bytes());
    let mut off = u64_to_le_bytes(offset);
    r.append(&mut off);
    r
}

/// Law: a 39-byte stem index record decodes back to its stem and offset.
pub proof fn lemma_stem_index_record_roundtrip(stem: Seq<u8>, offset: u64)
    requires
        stem.len() == 31,
    ensures
        (stem + spec_u64_to_le_bytes(offset)).len() == STEM_INDEX_ENTRY_SIZE,
        (stem + spec_u64_to_le_bytes(offset)).subrange(0, 31) == stem,
        spec_u64_from_le_bytes((stem + spec_u64_to_le_bytes(offset)).subrange(31, 39)) == offset,
{
    lemma_auto_spec_u64_to_from_le_bytes();
    let b = stem + spec_u64_to_le_bytes(offset);
    assert(b.subrange(0, 31) =~= stem);
    assert(b.subrange(31, 39) =~= spec_u64_to_le_bytes(offset));
}

} // verus!
