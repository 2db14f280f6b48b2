//! The secondary ordered index: per stem, the owning address and a 256-bit
//! bitmap of populated sub-indices, plus a head record mirroring the primary
//! store's. It exists so that exports can enumerate which leaves exist when
//! the values themselves live in an external authenticated trie.

use vstd::prelude::*;
use vstd::bytes::{
    lemma_auto_spec_u64_to_from_le_bytes,
    spec_u64_from_le_bytes,
    spec_u64_to_le_bytes,
    u64_from_le_bytes,
    u64_to_le_bytes,
};
use vstd::slice::slice_subrange;

use crate::bitmap::{empty_bitmap, or_into, set_bit, spec_bit_set, BITMAP_LEN};
use crate::bytes::{bytes_eq, clone_bytes, lex_lt, push_bytes};
use crate::codec::slice_to_vec_u8;
use crate::error::UbtError;
use crate::stem_map::{
    lemma_stem_get_at,
    lemma_stem_get_some_position,
    stem_get,
    stem_map_find,
    stem_map_insert,
    stems_sorted,
    stems_wf,
};
use crate::types::{Stem, ADDRESS_LEN, VALUE_LEN};

verus! {

/// Size in bytes of a packed stem record: 20-byte address, 32-byte bitmap.
pub const STEM_VALUE_LEN: usize = 52;

/// Size in bytes of a packed head record.
pub const HEAD_VALUE_LEN: usize = 80;

/// What the index knows of one stem: the owning address, immutable once
/// recorded, and the bitmap of populated sub-indices, which only grows.
#[derive(Debug)]
pub struct StemRecord {
    pub address: Vec<u8>,
    pub bitmap: Vec<u8>,
}

impl StemRecord {
    pub open spec fn wf(self) -> bool {
        &&& self.address@.len() == ADDRESS_LEN
        &&& self.bitmap@.len() == BITMAP_LEN
    }

    pub fn duplicate(&self) -> (r: StemRecord)
        ensures
            r.address@ == self.address@,
            r.bitmap@ == self.bitmap@,
    {
        StemRecord { address: clone_bytes(&self.address), bitmap: clone_bytes(&self.bitmap) }
    }
}

/// The single canonical checkpoint: block number, block hash, state root and
/// stem count. Overwritten whole on each advance.
#[derive(Debug)]
pub struct HeadRecord {
    pub block_number: u64,
    pub block_hash: Vec<u8>,
    pub root: Vec<u8>,
    pub stem_count: u64,
}

impl HeadRecord {
    pub open spec fn wf(self) -> bool {
        &&& self.block_hash@.len() == VALUE_LEN
        &&& self.root@.len() == VALUE_LEN
    }

    pub fn duplicate(&self) -> (r: HeadRecord)
        ensures
            r.block_number == self.block_number,
            r.block_hash@ == self.block_hash@,
            r.root@ == self.root@,
            r.stem_count == self.stem_count,
    {
        HeadRecord {
            block_number: self.block_number,
            block_hash: clone_bytes(&self.block_hash),
            root: clone_bytes(&self.root),
            stem_count: self.stem_count,
        }
    }
}

/// Pack a stem record value: address then bitmap, 52 bytes.
pub fn pack_value(address: &Vec<u8>, bitmap: &Vec<u8>) -> (r: Vec<u8>)
    requires
        address@.len() == ADDRESS_LEN,
        bitmap@.len() == BITMAP_LEN,
    ensures
        r@ == address@ + bitmap@,
        r@.len() == STEM_VALUE_LEN,
{
    let mut r = clone_bytes(address);
    push_bytes(&mut r, bitmap);
    r
}

/// Split a packed 52-byte stem record value back into its fields.
pub fn split_value(bytes: &Vec<u8>) -> (r: StemRecord)
    requires
        bytes@.len() == STEM_VALUE_LEN,
    ensures
        r.wf(),
        r.address@ == bytes@.subrange(0, 20),
        r.bitmap@ == bytes@.subrange(20, 52),
{
    let s = bytes.as_slice();
    let address = slice_to_vec_u8(slice_subrange(s, 0, 20));
    let bitmap = slice_to_vec_u8(slice_subrange(s, 20, 52));
    StemRecord { address, bitmap }
}

/// Law: splitting a packed stem record value yields the fields back exactly.
pub proof fn lemma_stem_value_roundtrip(address: Seq<u8>, bitmap: Seq<u8>)
    requires
        address.len() == ADDRESS_LEN,
        bitmap.len() == BITMAP_LEN,
    ensures
        (address + bitmap).len() == STEM_VALUE_LEN,
        (address + bitmap).subrange(0, 20) == address,
        (address + bitmap).subrange(20, 52) == bitmap,
{
    assert((address + bitmap).subrange(0, 20) =~= address);
    assert((address + bitmap).subrange(20, 52) =~= bitmap);
}

/// Pack a head record: block number, block hash, root, stem count, 80 bytes.
pub fn pack_head(block_number: u64, block_hash: &Vec<u8>, root: &Vec<u8>, stem_count: u64) -> (r:
    Vec<u8>)
    requires
        block_hash@.len() == VALUE_LEN,
        root@.len() == VALUE_LEN,
    ensures
        r@ == spec_u64_to_le_bytes(block_number) + block_hash@ + root@ + spec_u64_to_le_bytes(
            stem_count,
        ),
        r@.len() == HEAD_VALUE_LEN,
{
    proof {
        lemma_auto_spec_u64_to_from_le_bytes();
    }
    let mut r = u64_to_le_bytes(block_number);
    push_bytes(&mut r, block_hash);
    push_bytes(&mut r, root);
    let mut count = u64_to_le_bytes(stem_count);
    r.append(&mut count);
    r
}

/// Unpack an 80-byte head record.
pub fn unpack_head(bytes: &Vec<u8>) -> (r: HeadRecord)
    requires
        bytes@.len() == HEAD_VALUE_LEN,
    ensures
        r.wf(),
        r.block_number == spec_u64_from_le_bytes(bytes@.subrange(0, 8)),
        r.block_hash@ == bytes@.subrange(8, 40),
        r.root@ == bytes@.subrange(40, 72),
        r.stem_count == spec_u64_from_le_bytes(bytes@.subrange(72, 80)),
{
    let s = bytes.as_slice();
    let block_number = u64_from_le_bytes(slice_subrange(s, 0, 8));
    let block_hash = slice_to_vec_u8(slice_subrange(s, 8, 40));
    let root = slice_to_vec_u8(slice_subrange(s, 40, 72));
    let stem_count = u64_from_le_bytes(slice_subrange(s, 72, 80));
    HeadRecord { block_number, block_hash, root, stem_count }
}

/// Law: unpacking a packed head record yields every field back exactly.
pub proof fn lemma_head_roundtrip(block_number: u64, block_hash: Seq<u8>, root: Seq<u8>, stem_count: u64)
    requires
        block_hash.len() == VALUE_LEN,
        root.len() == VALUE_LEN,
    ensures
        ({
            let b = spec_u64_to_le_bytes(block_number) + block_hash + root + spec_u64_to_le_bytes(
                stem_count,
            );
            &&& b.len() == HEAD_VALUE_LEN
            &&& spec_u64_from_le_bytes(b.subrange(0, 8)) == block_number
            &&& b.subrange(8, 40) == block_hash
            &&& b.subrange(40, 72) == root
            &&& spec_u64_from_le_bytes(b.subrange(72, 80)) == stem_count
        }),
{
    lemma_auto_spec_u64_to_from_le_bytes();
    let b = spec_u64_to_le_bytes(block_number) + block_hash + root + spec_u64_to_le_bytes(
        stem_count,
    );
    assert(b.subrange(0, 8) =~= spec_u64_to_le_bytes(block_number));
    assert(b.subrange(8, 40) =~= block_hash);
    assert(b.subrange(40, 72) =~= root);
    assert(b.subrange(72, 80) =~= spec_u64_to_le_bytes(stem_count));
}

/// The secondary index: stem records in ascending stem order, and the head.
#[derive(Debug)]
pub struct KeyIndex {
    pub records: Vec<(Stem, StemRecord)>,
    pub head: Option<HeadRecord>,
}

impl KeyIndex {
    pub open spec fn wf(self) -> bool {
        &&& stems_sorted(self.records@)
        &&& stems_wf(self.records@)
        &&& forall|i: int| 0 <= i < self.records@.len() ==> (#[trigger] self.records@[i]).1.wf()
        &&& match self.head {
            Some(h) => h.wf(),
            None => true,
        }
    }

    /// The record bound to stem `k`, if any.
    pub open spec fn record_of(self, k: Seq<u8>) -> Option<StemRecord> {
        stem_get(self.records@, k)
    }

    pub fn new() -> (r: KeyIndex)
        ensures
            r.wf(),
            r.head is None,
            r.records@.len() == 0,
            forall|k: Seq<u8>| #[trigger] r.record_of(k) == None::<StemRecord>,
    {
        let r = KeyIndex { records: Vec::new(), head: None };
        proof {
            assert forall|k: Seq<u8>| #[trigger] r.record_of(k) == None::<StemRecord> by {
                crate::stem_map::lemma_stem_get_absent(r.records@, k);
            }
        }
        r
    }

    /// Overwrite the single head record.
    pub fn save_head(&mut self, block_number: u64, block_hash: Vec<u8>, root: Vec<u8>, stem_count: u64)
        requires
            old(self).wf(),
            block_hash@.len() == VALUE_LEN,
            root@.len() == VALUE_LEN,
        ensures
            final(self).wf(),
            final(self).records@ == old(self).records@,
            match final(self).head {
                Some(h) => {
                    &&& h.block_number == block_number
                    &&& h.block_hash@ == block_hash@
                    &&& h.root@ == root@
                    &&& h.stem_count == stem_count
                },
                None => false,
            },
    {
        self.head = Some(HeadRecord { block_number, block_hash, root, stem_count });
    }

    /// The head record, if one was ever saved.
    pub fn load_head(&self) -> (r: Option<HeadRecord>)
        requires
            self.wf(),
        ensures
            match r {
                Some(h) => {
                    &&& self.head matches Some(g) && h.block_number == g.block_number
                        && h.block_hash@ == g.block_hash@ && h.root@ == g.root@ && h.stem_count
                        == g.stem_count
                    &&& h.wf()
                },
                None => self.head is None,
            },
    {
        match &self.head {
            Some(h) => Some(h.duplicate()),
            None => None,
        }
    }

    /// The stem records, in ascending stem order.
    pub fn stem_records(&self) -> (r: &Vec<(Stem, StemRecord)>)
        ensures
            r@ == self.records@,
    {
        &self.records
    }
}

impl KeyIndex {
    /// Merge a batch of (stem, sub-index, address) updates into the index:
    /// group the batch by stem, reject any address conflict — within the
    /// batch or against a recorded stem — before touching the records, then
    /// grow each stem's bitmap by the batch's bits. Reports how many stems
    /// were newly seen. On failure the index is left untouched.
    pub fn apply_updates(&mut self, updates: &Vec<(Stem, u8, Vec<u8>)>) -> (r: Result<
        usize,
        UbtError,
    >)
        requires
            old(self).wf(),
            batch_wf(updates@),
        ensures
            final(self).wf(),
            final(self).head == old(self).head,
            match r {
                Ok(n) => {
                    &&& !batch_conflict(updates@)
                    &&& !index_conflict(updates@, old(self).records@)
                    &&& apply_rel(old(self).records@, updates@, final(self).records@)
                    &&& n as int == count_new_upto(
                        updates@,
                        old(self).records@,
                        updates@.len() as int,
                    )
                },
                Err(e) => {
                    &&& e == UbtError::AddressMismatch
                    &&& batch_conflict(updates@) || index_conflict(updates@, old(self).records@)
                    &&& *final(self) == *old(self)
                },
            },
    {
        let ghost u = updates@;
        let ghost pre = self.records@;
        let grouped = match group_updates(updates) {
            Ok(g) => g,
            Err(e) => {
                return Err(e);
            },
        };
        // validation: a recorded stem must keep its address
        let gn = grouped.len();
        let mut gi: usize = 0;
        while gi < gn
            invariant
                *self == *old(self),
                self.wf(),
                batch_wf(u),
                updates@ == u,
                pre == self.records@,
                stems_sorted(grouped@),
                stems_wf(grouped@),
                !batch_conflict(u),
                forall|k: Seq<u8>|
                    match #[trigger] stem_get(grouped@, k) {
                        Some(rec) => {
                            &&& batch_has_stem(u, k)
                            &&& rec.wf()
                            &&& batch_binds(u, k, rec.address@)
                            &&& bitmap_from_batch(rec.bitmap@, u, k)
                        },
                        None => !batch_has_stem(u, k),
                    },
                gn == grouped@.len(),
                0 <= gi <= gn,
                forall|p: int|
                    0 <= p < gi ==> match stem_get(pre, (#[trigger] grouped@[p]).0@) {
                        Some(r0) => r0.address@ == grouped@[p].1.address@,
                        None => true,
                    },
            decreases gn - gi,
        {
            match stem_map_find(&self.records, &grouped[gi].0) {
                Some(pos) => {
                    if !bytes_eq(&self.records[pos].1.address, &grouped[gi].1.address) {
                        proof {
                            let k = grouped@[gi as int].0@;
                            lemma_stem_get_at(grouped@, gi as int);
                            let j = choose|j: int|
                                0 <= j < u.len() && (#[trigger] u[j]).0@ == k && u[j].2@
                                    == grouped@[gi as int].1.address@;
                            assert(0 <= j < u.len() && match stem_get(
                                pre,
                                (#[trigger] u[j]).0@,
                            ) {
                                Some(r) => r.address@ != u[j].2@,
                                None => false,
                            });
                        }
                        return Err(UbtError::AddressMismatch);
                    }
                },
                None => {},
            }
            gi = gi + 1;
        }
        proof {
            // no update contradicts a recorded address
            assert forall|i2: int|
                0 <= i2 < u.len() implies match stem_get(pre, (#[trigger] u[i2]).0@) {
                Some(r) => r.address@ == u[i2].2@,
                None => true,
            } by {
                let k = u[i2].0@;
                assert(batch_has_stem(u, k));
                match stem_get(grouped@, k) {
                    Some(rec) => {
                        lemma_stem_get_some_position(grouped@, k);
                        let p = choose|p: int|
                            0 <= p < grouped@.len() && (#[trigger] grouped@[p]).0@ == k
                                && stem_get(grouped@, k) == Some(grouped@[p].1);
                        let j = choose|j: int|
                            0 <= j < u.len() && (#[trigger] u[j]).0@ == k && u[j].2@
                                == rec.address@;
                        assert((#[trigger] u[j]).0@ == (#[trigger] u[i2]).0@);
                    },
                    None => {},
                }
            }
            assert(!index_conflict(u, pre));
        }
        // count the stems this batch sees for the first time
        let n = updates.len();
        let mut new_stems: usize = 0;
        let mut i: usize = 0;
        while i < n
            invariant
                *self == *old(self),
                self.wf(),
                batch_wf(u),
                updates@ == u,
                pre == self.records@,
                n == u.len(),
                0 <= i <= n,
                new_stems <= i,
                new_stems as int == count_new_upto(u, pre, i as int),
            decreases n - i,
        {
            if is_first_occurrence_exec(updates, i) {
                match stem_map_find(&self.records, &updates[i].0) {
                    Some(_) => {},
                    None => {
                        new_stems = new_stems + 1;
                    },
                }
            }
            i = i + 1;
        }
        // merge: grow each named stem's record
        let mut gi: usize = 0;
        while gi < gn
            invariant
                batch_wf(u),
                updates@ == u,
                stems_sorted(grouped@),
                stems_wf(grouped@),
                !batch_conflict(u),
                forall|k: Seq<u8>|
                    match #[trigger] stem_get(grouped@, k) {
                        Some(rec) => {
                            &&& batch_has_stem(u, k)
                            &&& rec.wf()
                            &&& batch_binds(u, k, rec.address@)
                            &&& bitmap_from_batch(rec.bitmap@, u, k)
                        },
                        None => !batch_has_stem(u, k),
                    },
                gn == grouped@.len(),
                0 <= gi <= gn,
                self.wf(),
                self.head == old(self).head,
                pre == old(self).records@,
                forall|k: Seq<u8>|
                    (exists|p: int| 0 <= p < gi && (#[trigger] grouped@[p]).0@ == k)
                        ==> #[trigger] merged_at(pre, u, self.records@, k),
                forall|k: Seq<u8>|
                    !(exists|p: int| 0 <= p < gi && (#[trigger] grouped@[p]).0@ == k)
                        ==> #[trigger] stem_get(self.records@, k) == stem_get(pre, k),
            decreases gn - gi,
        {
            let ghost k = grouped@[gi as int].0@;
            proof {
                lemma_stem_get_at(grouped@, gi as int);
                if exists|p: int| 0 <= p < gi && (#[trigger] grouped@[p]).0@ == k {
                    let p = choose|p: int| 0 <= p < gi && (#[trigger] grouped@[p]).0@ == k;
                    crate::bytes::lemma_lex_irrefl(k);
                }
            }
            let stem = grouped[gi].0.duplicate();
            let grec = grouped[gi].1.duplicate();
            let ghost cur0 = self.records@;
            match stem_map_find(&self.records, &grouped[gi].0) {
                Some(pos) => {
                    let ghost r0 = cur0[pos as int].1;
                    let mut bm = clone_bytes(&self.records[pos].1.bitmap);
                    or_into(&mut bm, &grec.bitmap);
                    let addr = clone_bytes(&self.records[pos].1.address);
                    let new_rec = StemRecord { address: addr, bitmap: bm };
                    let ghost gstem = stem;
                    let ghost nrec = new_rec;
                    proof {
                        assert(cur0[pos as int].1.wf());
                        assert(stem_get(pre, k) == Some(r0));
                        // the grouped record's bits are exactly the batch's
                        // bits for this stem
                        let rec = grouped@[gi as int].1;
                        assert forall|s: u8| #![trigger spec_bit_set(nrec.bitmap@, s)]
                            spec_bit_set(nrec.bitmap@, s) <==> (spec_bit_set(r0.bitmap@, s)
                                || batch_has_bit(u, k, s)) by {
                            assert(spec_bit_set(grec.bitmap@, s) == spec_bit_set(rec.bitmap@, s));
                            assert(spec_bit_set(rec.bitmap@, s) <==> batch_has_bit(u, k, s));
                        }
                    }
                    stem_map_insert(&mut self.records, stem, new_rec);
                    proof {
                        lemma_merge_step_existing(pre, u, self.records@, k, nrec, r0);
                        assert forall|q: int|
                            0 <= q < self.records@.len() implies (
                        #[trigger] self.records@[q]).1.wf() by {
                            if self.records@[q] != (gstem, nrec) {
                                assert(cur0.contains(self.records@[q]));
                                let idx = choose|idx: int|
                                    0 <= idx < cur0.len() && cur0[idx] == self.records@[q];
                            }
                        }
                    }
                },
                None => {
                    let ghost gstem = stem;
                    let ghost nrec = grec;
                    proof {
                        assert(stem_get(pre, k) == None::<StemRecord>);
                        let rec = grouped@[gi as int].1;
                        assert(rec.wf());
                        assert(batch_binds(u, k, rec.address@));
                        assert(nrec.address@ == rec.address@);
                        assert(batch_binds(u, k, nrec.address@));
                        assert forall|s: u8| #![trigger spec_bit_set(nrec.bitmap@, s)]
                            spec_bit_set(nrec.bitmap@, s) <==> batch_has_bit(u, k, s) by {
                            assert(spec_bit_set(nrec.bitmap@, s) == spec_bit_set(rec.bitmap@, s));
                            assert(spec_bit_set(rec.bitmap@, s) <==> batch_has_bit(u, k, s));
                        }
                    }
                    stem_map_insert(&mut self.records, stem, grec);
                    proof {
                        lemma_merge_step_fresh(pre, u, self.records@, k, nrec);
                        assert forall|q: int|
                            0 <= q < self.records@.len() implies (
                        #[trigger] self.records@[q]).1.wf() by {
                            if self.records@[q] != (gstem, nrec) {
                                assert(cur0.contains(self.records@[q]));
                                let idx = choose|idx: int|
                                    0 <= idx < cur0.len() && cur0[idx] == self.records@[q];
                            }
                        }
                    }
                },
            }
            proof {
                assert forall|k2: Seq<u8>|
                    (exists|p: int| 0 <= p < gi + 1 && (#[trigger] grouped@[p]).0@ == k2)
                        implies #[trigger] merged_at(pre, u, self.records@, k2) by {
                    let p = choose|p: int| 0 <= p < gi + 1 && (#[trigger] grouped@[p]).0@ == k2;
                    if p < gi {
                        assert(merged_at(pre, u, cur0, k2));
                        assert(k2 != k) by {
                            if k2 == k {
                                assert(lex_lt(grouped@[p].0@, grouped@[gi as int].0@));
                                crate::bytes::lemma_lex_irrefl(k);
                            }
                        }
                        assert(stem_get(self.records@, k2) == stem_get(cur0, k2));
                        lemma_merged_at_same_binding(pre, u, cur0, self.records@, k2);
                    }
                }
                assert forall|k2: Seq<u8>|
                    !(exists|p: int| 0 <= p < gi + 1 && (#[trigger] grouped@[p]).0@ == k2)
                        implies #[trigger] stem_get(self.records@, k2) == stem_get(pre, k2) by {
                    assert(grouped@[gi as int].0@ != k2);
                    assert(!(exists|p: int| 0 <= p < gi && (#[trigger] grouped@[p]).0@ == k2));
                    assert(stem_get(self.records@, k2) == stem_get(cur0, k2));
                }
            }
            gi = gi + 1;
        }
        proof {
            assert forall|k: Seq<u8>|
                !batch_has_stem(u, k) implies #[trigger] stem_get(self.records@, k) == stem_get(
                pre,
                k,
            ) by {
                match stem_get(grouped@, k) {
                    Some(rec) => {},
                    None => {
                        if exists|p: int| 0 <= p < gn && (#[trigger] grouped@[p]).0@ == k {
                            let p = choose|p: int|
                                0 <= p < gn && (#[trigger] grouped@[p]).0@ == k;
                            lemma_stem_get_at(grouped@, p);
                        }
                    },
                }
            }
            assert forall|k: Seq<u8>| batch_has_stem(u, k) implies #[trigger] merged_at(
                pre,
                u,
                self.records@,
                k,
            ) by {
                match stem_get(grouped@, k) {
                    Some(rec) => {
                        lemma_stem_get_some_position(grouped@, k);
                        let p = choose|p: int|
                            0 <= p < grouped@.len() && (#[trigger] grouped@[p]).0@ == k
                                && stem_get(grouped@, k) == Some(grouped@[p].1);
                    },
                    None => {},
                }
            }
        }
        Ok(new_stems)
    }
}

/// Whether update `i` is the first of its batch naming its stem.
fn is_first_occurrence_exec(updates: &Vec<(Stem, u8, Vec<u8>)>, i: usize) -> (r: bool)
    requires
        batch_wf(updates@),
        i < updates@.len(),
    ensures
        r == first_occurrence(updates@, i as int),
{
    let mut j: usize = 0;
    while j < i
        invariant
            batch_wf(updates@),
            i < updates@.len(),
            0 <= j <= i,
            forall|q: int| 0 <= q < j ==> (#[trigger] updates@[q]).0@ != updates@[i as int].0@,
        decreases i - j,
    {
        if bytes_eq(updates[j].0.as_bytes(), updates[i].0.as_bytes()) {
            return false;
        }
        j = j + 1;
    }
    true
}

/// A key whose binding did not change stays merged.
proof fn lemma_merged_at_same_binding(
    pre: Seq<(Stem, StemRecord)>,
    u: Seq<(Stem, u8, Vec<u8>)>,
    a: Seq<(Stem, StemRecord)>,
    b: Seq<(Stem, StemRecord)>,
    k2: Seq<u8>,
)
    requires
        merged_at(pre, u, a, k2),
        stem_get(b, k2) == stem_get(a, k2),
    ensures
        merged_at(pre, u, b, k2),
{
    let r1 = stem_get(a, k2)->Some_0;
    assert(stem_get(b, k2) == Some(r1));
}

/// One merge step over an already recorded stem binds it to the record with
/// the kept address and the grown bitmap.
proof fn lemma_merge_step_existing(
    pre: Seq<(Stem, StemRecord)>,
    u: Seq<(Stem, u8, Vec<u8>)>,
    cur1: Seq<(Stem, StemRecord)>,
    k: Seq<u8>,
    nrec: StemRecord,
    r0: StemRecord,
)
    requires
        nrec.wf(),
        stem_get(pre, k) == Some(r0),
        stem_get(cur1, k) == Some(nrec),
        nrec.address@ == r0.address@,
        bitmap_grown(nrec.bitmap@, r0.bitmap@, u, k),
    ensures
        merged_at(pre, u, cur1, k),
{
    let r1 = stem_get(cur1, k)->Some_0;
    assert(r1 == nrec);
}

/// One merge step over a stem seen for the first time binds it to the
/// batch's record.
proof fn lemma_merge_step_fresh(
    pre: Seq<(Stem, StemRecord)>,
    u: Seq<(Stem, u8, Vec<u8>)>,
    cur1: Seq<(Stem, StemRecord)>,
    k: Seq<u8>,
    nrec: StemRecord,
)
    requires
        nrec.wf(),
        stem_get(pre, k) == None::<StemRecord>,
        stem_get(cur1, k) == Some(nrec),
        batch_binds(u, k, nrec.address@),
        bitmap_from_batch(nrec.bitmap@, u, k),
    ensures
        merged_at(pre, u, cur1, k),
{
    let r1 = stem_get(cur1, k)->Some_0;
    assert(r1 == nrec);
    assert(batch_binds(u, k, r1.address@));
}

/// Every update carries a well-formed stem and a 20-byte address.
pub open spec fn batch_wf(u: Seq<(Stem, u8, Vec<u8>)>) -> bool {
    forall|i: int|
        0 <= i < u.len() ==> (#[trigger] u[i]).0.wf() && u[i].2@.len() == ADDRESS_LEN
}

/// Some update in the batch names stem `k`.
pub open spec fn batch_has_stem(u: Seq<(Stem, u8, Vec<u8>)>, k: Seq<u8>) -> bool {
    exists|i: int| 0 <= i < u.len() && (#[trigger] u[i]).0@ == k
}

/// Some update in the batch names stem `k` with sub-index `s`.
pub open spec fn batch_has_bit(u: Seq<(Stem, u8, Vec<u8>)>, k: Seq<u8>, s: u8) -> bool {
    exists|i: int| 0 <= i < u.len() && (#[trigger] u[i]).0@ == k && u[i].1 == s
}

/// Some update in the batch binds stem `k` to address `a`.
pub open spec fn batch_binds(u: Seq<(Stem, u8, Vec<u8>)>, k: Seq<u8>, a: Seq<u8>) -> bool {
    exists|i: int| 0 <= i < u.len() && (#[trigger] u[i]).0@ == k && u[i].2@ == a
}

/// Two updates of one batch bind one stem to two different addresses.
pub open spec fn batch_conflict(u: Seq<(Stem, u8, Vec<u8>)>) -> bool {
    exists|i: int, j: int|
        0 <= i < u.len() && 0 <= j < u.len() && (#[trigger] u[i]).0@ == (#[trigger] u[j]).0@
            && u[i].2@ != u[j].2@
}

/// Some update binds a stem to another address than the records already hold.
pub open spec fn index_conflict(
    u: Seq<(Stem, u8, Vec<u8>)>,
    records: Seq<(Stem, StemRecord)>,
) -> bool {
    exists|i: int|
        0 <= i < u.len() && match stem_get(records, (#[trigger] u[i]).0@) {
            Some(r) => r.address@ != u[i].2@,
            None => false,
        }
}

/// Position `i` is the first update naming its stem.
pub open spec fn first_occurrence(u: Seq<(Stem, u8, Vec<u8>)>, i: int) -> bool {
    forall|j: int| 0 <= j < i ==> (#[trigger] u[j]).0@ != u[i].0@
}

/// How many of the first `n` updates name a stem seen neither earlier in the
/// batch nor in the records.
pub open spec fn count_new_upto(
    u: Seq<(Stem, u8, Vec<u8>)>,
    records: Seq<(Stem, StemRecord)>,
    n: int,
) -> int
    decreases n,
{
    if n <= 0 {
        0
    } else {
        count_new_upto(u, records, n - 1) + if first_occurrence(u, n - 1) && stem_get(
            records,
            u[n - 1].0@,
        ) is None {
            1int
        } else {
            0int
        }
    }
}

/// The new bitmap holds the old bits plus exactly the batch's bits for `k`.
pub open spec fn bitmap_grown(
    nb: Seq<u8>,
    ob: Seq<u8>,
    u: Seq<(Stem, u8, Vec<u8>)>,
    k: Seq<u8>,
) -> bool {
    forall|s: u8| spec_bit_set(nb, s) <==> (spec_bit_set(ob, s) || batch_has_bit(u, k, s))
}

/// The bitmap holds exactly the batch's bits for `k`.
pub open spec fn bitmap_from_batch(nb: Seq<u8>, u: Seq<(Stem, u8, Vec<u8>)>, k: Seq<u8>) -> bool {
    forall|s: u8| spec_bit_set(nb, s) <==> batch_has_bit(u, k, s)
}

/// What the record bound to `k` looks like after a batch is merged in: the
/// address is kept (or taken from the batch for a new stem) and the bitmap
/// grows by exactly the batch's bits for `k`.
pub open spec fn merged_at(
    pre: Seq<(Stem, StemRecord)>,
    u: Seq<(Stem, u8, Vec<u8>)>,
    post: Seq<(Stem, StemRecord)>,
    k: Seq<u8>,
) -> bool {
    match stem_get(post, k) {
        Some(r1) => {
            &&& r1.wf()
            &&& match stem_get(pre, k) {
                Some(r0) => r1.address@ == r0.address@ && bitmap_grown(
                    r1.bitmap@,
                    r0.bitmap@,
                    u,
                    k,
                ),
                None => batch_binds(u, k, r1.address@) && bitmap_from_batch(r1.bitmap@, u, k),
            }
        },
        None => false,
    }
}

/// How applying a batch transforms the whole record table.
pub open spec fn apply_rel(
    pre: Seq<(Stem, StemRecord)>,
    u: Seq<(Stem, u8, Vec<u8>)>,
    post: Seq<(Stem, StemRecord)>,
) -> bool {
    &&& forall|k: Seq<u8>|
        !batch_has_stem(u, k) ==> #[trigger] stem_get(post, k) == stem_get(pre, k)
    &&& forall|k: Seq<u8>| batch_has_stem(u, k) ==> #[trigger] merged_at(pre, u, post, k)
}

/// Group a batch by stem: one record per stem named, carrying that stem's
/// address and the bitmap of its sub-indices. Fails on an address conflict
/// within the batch.
pub fn group_updates(updates: &Vec<(Stem, u8, Vec<u8>)>) -> (r: Result<
    Vec<(Stem, StemRecord)>,
    UbtError,
>)
    requires
        batch_wf(updates@),
    ensures
        match r {
            Ok(g) => {
                &&& stems_sorted(g@)
                &&& stems_wf(g@)
                &&& !batch_conflict(updates@)
                &&& forall|k: Seq<u8>|
                    match #[trigger] stem_get(g@, k) {
                        Some(rec) => {
                            &&& batch_has_stem(updates@, k)
                            &&& rec.wf()
                            &&& batch_binds(updates@, k, rec.address@)
                            &&& bitmap_from_batch(rec.bitmap@, updates@, k)
                        },
                        None => !batch_has_stem(updates@, k),
                    }
            },
            Err(e) => e == UbtError::AddressMismatch && batch_conflict(updates@),
        },
{
    let ghost u = updates@;
    let mut grouped: Vec<(Stem, StemRecord)> = Vec::new();
    let n = updates.len();
    let mut i: usize = 0;
    proof {
        assert forall|k: Seq<u8>| #[trigger] stem_get(grouped@, k) == None::<StemRecord> by {
            crate::stem_map::lemma_stem_get_absent(grouped@, k);
        }
    }
    while i < n
        invariant
            batch_wf(u),
            updates@ == u,
            n == u.len(),
            0 <= i <= n,
            stems_sorted(grouped@),
            stems_wf(grouped@),
            forall|p: int, q: int|
                0 <= p < i && 0 <= q < i && (#[trigger] u[p]).0@ == (#[trigger] u[q]).0@ ==> u[p].2@
                    == u[q].2@,
            forall|k: Seq<u8>|
                match #[trigger] stem_get(grouped@, k) {
                    Some(rec) => {
                        &&& rec.wf()
                        &&& exists|j: int| 0 <= j < i && (#[trigger] u[j]).0@ == k
                        &&& exists|j: int|
                            0 <= j < i && (#[trigger] u[j]).0@ == k && u[j].2@ == rec.address@
                        &&& forall|s: u8|
                            spec_bit_set(rec.bitmap@, s) <==> exists|j: int|
                                0 <= j < i && (#[trigger] u[j]).0@ == k && u[j].1 == s
                    },
                    None => forall|j: int| 0 <= j < i ==> (#[trigger] u[j]).0@ != k,
                },
        decreases n - i,
    {
        let stem = &updates[i].0;
        let sub = updates[i].1;
        let addr = &updates[i].2;
        let ghost k0 = stem@;
        match stem_map_find(&grouped, stem) {
            Some(pos) => {
                if !bytes_eq(&grouped[pos].1.address, addr) {
                    proof {
                        // the stored address came from an earlier update of
                        // the same stem: that pair is the conflict
                        let rec = grouped@[pos as int].1;
                        let j = choose|j: int|
                            0 <= j < i && (#[trigger] u[j]).0@ == k0 && u[j].2@ == rec.address@;
                        assert((#[trigger] u[j]).0@ == (#[trigger] u[i as int]).0@ && u[j].2@
                            != u[i as int].2@);
                    }
                    return Err(UbtError::AddressMismatch);
                }
                let mut bm = clone_bytes(&grouped[pos].1.bitmap);
                set_bit(&mut bm, sub);
                let ghost old_rec = grouped@[pos as int].1;
                let rec = StemRecord { address: clone_bytes(addr), bitmap: bm };
                let ghost g0 = grouped@;
                stem_map_insert(&mut grouped, stem.duplicate(), rec);
                proof {
                    lemma_group_step_invariant(u, g0, grouped@, i as int, old_rec);
                    // the batch stays conflict-free: every earlier update of
                    // this stem carries the stored address, which this update
                    // was just checked against
                    assert forall|p: int|
                        0 <= p < i && (#[trigger] u[p]).0@ == k0 implies u[p].2@
                        == u[i as int].2@ by {
                        let j0 = choose|j: int|
                            0 <= j < i && (#[trigger] u[j]).0@ == k0 && u[j].2@
                                == old_rec.address@;
                        assert((#[trigger] u[p]).0@ == (#[trigger] u[j0]).0@);
                    }
                }
            },
            None => {
                let mut bm = empty_bitmap();
                set_bit(&mut bm, sub);
                let rec = StemRecord { address: clone_bytes(addr), bitmap: bm };
                let ghost g0 = grouped@;
                stem_map_insert(&mut grouped, stem.duplicate(), rec);
                proof {
                    lemma_group_step_fresh_invariant(u, g0, grouped@, i as int);
                }
            },
        }
        i = i + 1;
    }
    Ok(grouped)
}

/// After merging update `i` into an existing grouped record, the grouping
/// invariant holds for the prefix one longer.
proof fn lemma_group_step_invariant(
    u: Seq<(Stem, u8, Vec<u8>)>,
    g0: Seq<(Stem, StemRecord)>,
    g1: Seq<(Stem, StemRecord)>,
    i: int,
    old_rec: StemRecord,
)
    requires
        0 <= i < u.len(),
        batch_wf(u),
        // the grouping invariant for the prefix of length i
        forall|k: Seq<u8>|
            match #[trigger] stem_get(g0, k) {
                Some(rec) => {
                    &&& rec.wf()
                    &&& exists|j: int| 0 <= j < i && (#[trigger] u[j]).0@ == k
                    &&& exists|j: int|
                        0 <= j < i && (#[trigger] u[j]).0@ == k && u[j].2@ == rec.address@
                    &&& forall|s: u8|
                        spec_bit_set(rec.bitmap@, s) <==> exists|j: int|
                            0 <= j < i && (#[trigger] u[j]).0@ == k && u[j].1 == s
                },
                None => forall|j: int| 0 <= j < i ==> (#[trigger] u[j]).0@ != k,
            },
        // what the step changed
        stem_get(g0, u[i].0@) == Some(old_rec),
        stem_get(g1, u[i].0@) matches Some(rec1) && rec1.wf() && rec1.address@ == u[i].2@ && (
        forall|s: u8|
            spec_bit_set(rec1.bitmap@, s) <==> (spec_bit_set(old_rec.bitmap@, s) || s == u[i].1)),
        forall|k: Seq<u8>| k != u[i].0@ ==> #[trigger] stem_get(g1, k) == stem_get(g0, k),
        old_rec.address@ == u[i].2@,
    ensures
        forall|k: Seq<u8>|
            match #[trigger] stem_get(g1, k) {
                Some(rec) => {
                    &&& rec.wf()
                    &&& exists|j: int| 0 <= j <= i && (#[trigger] u[j]).0@ == k
                    &&& exists|j: int|
                        0 <= j <= i && (#[trigger] u[j]).0@ == k && u[j].2@ == rec.address@
                    &&& forall|s: u8|
                        spec_bit_set(rec.bitmap@, s) <==> exists|j: int|
                            0 <= j <= i && (#[trigger] u[j]).0@ == k && u[j].1 == s
                },
                None => forall|j: int| 0 <= j <= i ==> (#[trigger] u[j]).0@ != k,
            },
{
    let k0 = u[i].0@;
    assert forall|k: Seq<u8>|
        match #[trigger] stem_get(g1, k) {
            Some(rec) => {
                &&& rec.wf()
                &&& exists|j: int| 0 <= j <= i && (#[trigger] u[j]).0@ == k
                &&& exists|j: int|
                    0 <= j <= i && (#[trigger] u[j]).0@ == k && u[j].2@ == rec.address@
                &&& forall|s: u8|
                    spec_bit_set(rec.bitmap@, s) <==> exists|j: int|
                        0 <= j <= i && (#[trigger] u[j]).0@ == k && u[j].1 == s
            },
            None => forall|j: int| 0 <= j <= i ==> (#[trigger] u[j]).0@ != k,
        } by {
        if k == k0 {
            let rec1 = stem_get(g1, k)->Some_0;
            assert((#[trigger] u[i]).0@ == k && u[i].2@ == rec1.address@);
            assert forall|s: u8|
                spec_bit_set(rec1.bitmap@, s) <==> exists|j: int|
                    0 <= j <= i && (#[trigger] u[j]).0@ == k && u[j].1 == s by {
                if spec_bit_set(rec1.bitmap@, s) {
                    if spec_bit_set(old_rec.bitmap@, s) {
                        let j = choose|j: int|
                            0 <= j < i && (#[trigger] u[j]).0@ == k && u[j].1 == s;
                        assert(0 <= j <= i && (#[trigger] u[j]).0@ == k && u[j].1 == s);
                    } else {
                        assert(s == u[i].1);
                        assert(0 <= i <= i && (#[trigger] u[i]).0@ == k && u[i].1 == s);
                    }
                } else {
                    if exists|j: int| 0 <= j <= i && (#[trigger] u[j]).0@ == k && u[j].1 == s {
                        let j = choose|j: int|
                            0 <= j <= i && (#[trigger] u[j]).0@ == k && u[j].1 == s;
                        if j < i {
                            assert(spec_bit_set(old_rec.bitmap@, s));
                        } else {
                            assert(s == u[i].1);
                        }
                        assert(false);
                    }
                }
            }
        } else {
            assert(stem_get(g1, k) == stem_get(g0, k));
            match stem_get(g0, k) {
                Some(rec) => {
                    let j = choose|j: int| 0 <= j < i && (#[trigger] u[j]).0@ == k;
                    assert(0 <= j <= i && (#[trigger] u[j]).0@ == k);
                    let j2 = choose|j2: int|
                        0 <= j2 < i && (#[trigger] u[j2]).0@ == k && u[j2].2@ == rec.address@;
                    assert(0 <= j2 <= i && (#[trigger] u[j2]).0@ == k && u[j2].2@ == rec.address@);
                    assert forall|s: u8|
                        spec_bit_set(rec.bitmap@, s) <==> exists|j3: int|
                            0 <= j3 <= i && (#[trigger] u[j3]).0@ == k && u[j3].1 == s by {
                        if spec_bit_set(rec.bitmap@, s) {
                            let j3 = choose|j3: int|
                                0 <= j3 < i && (#[trigger] u[j3]).0@ == k && u[j3].1 == s;
                            assert(0 <= j3 <= i && (#[trigger] u[j3]).0@ == k && u[j3].1 == s);
                        } else {
                            if exists|j3: int|
                                0 <= j3 <= i && (#[trigger] u[j3]).0@ == k && u[j3].1 == s {
                                let j3 = choose|j3: int|
                                    0 <= j3 <= i && (#[trigger] u[j3]).0@ == k && u[j3].1 == s;
                                assert(j3 < i);
                                assert(false);
                            }
                        }
                    }
                },
                None => {
                    assert forall|j: int| 0 <= j <= i implies (#[trigger] u[j]).0@ != k by {
                        if j == i {
                            assert(u[i].0@ == k0);
                        }
                    }
                },
            }
        }
    }
}

/// After inserting a fresh grouped record for update `i`, the grouping
/// invariant holds for the prefix one longer.
proof fn lemma_group_step_fresh_invariant(
    u: Seq<(Stem, u8, Vec<u8>)>,
    g0: Seq<(Stem, StemRecord)>,
    g1: Seq<(Stem, StemRecord)>,
    i: int,
)
    requires
        0 <= i < u.len(),
        batch_wf(u),
        forall|k: Seq<u8>|
            match #[trigger] stem_get(g0, k) {
                Some(rec) => {
                    &&& rec.wf()
                    &&& exists|j: int| 0 <= j < i && (#[trigger] u[j]).0@ == k
                    &&& exists|j: int|
                        0 <= j < i && (#[trigger] u[j]).0@ == k && u[j].2@ == rec.address@
                    &&& forall|s: u8|
                        spec_bit_set(rec.bitmap@, s) <==> exists|j: int|
                            0 <= j < i && (#[trigger] u[j]).0@ == k && u[j].1 == s
                },
                None => forall|j: int| 0 <= j < i ==> (#[trigger] u[j]).0@ != k,
            },
        stem_get(g0, u[i].0@) == None::<StemRecord>,
        stem_get(g1, u[i].0@) matches Some(rec1) && rec1.wf() && rec1.address@ == u[i].2@ && (
        forall|s: u8| spec_bit_set(rec1.bitmap@, s) <==> s == u[i].1),
        forall|k: Seq<u8>| k != u[i].0@ ==> #[trigger] stem_get(g1, k) == stem_get(g0, k),
    ensures
        forall|k: Seq<u8>|
            match #[trigger] stem_get(g1, k) {
                Some(rec) => {
                    &&& rec.wf()
                    &&& exists|j: int| 0 <= j <= i && (#[trigger] u[j]).0@ == k
                    &&& exists|j: int|
                        0 <= j <= i && (#[trigger] u[j]).0@ == k && u[j].2@ == rec.address@
                    &&& forall|s: u8|
                        spec_bit_set(rec.bitmap@, s) <==> exists|j: int|
                            0 <= j <= i && (#[trigger] u[j]).0@ == k && u[j].1 == s
                },
                None => forall|j: int| 0 <= j <= i ==> (#[trigger] u[j]).0@ != k,
            },
{
    let k0 = u[i].0@;
    assert forall|k: Seq<u8>|
        match #[trigger] stem_get(g1, k) {
            Some(rec) => {
                &&& rec.wf()
                &&& exists|j: int| 0 <= j <= i && (#[trigger] u[j]).0@ == k
                &&& exists|j: int|
                    0 <= j <= i && (#[trigger] u[j]).0@ == k && u[j].2@ == rec.address@
                &&& forall|s: u8|
                    spec_bit_set(rec.bitmap@, s) <==> exists|j: int|
                        0 <= j <= i && (#[trigger] u[j]).0@ == k && u[j].1 == s
            },
            None => forall|j: int| 0 <= j <= i ==> (#[trigger] u[j]).0@ != k,
        } by {
        if k == k0 {
            let rec1 = stem_get(g1, k)->Some_0;
            assert((#[trigger] u[i]).0@ == k && u[i].2@ == rec1.address@);
            assert forall|s: u8|
                spec_bit_set(rec1.bitmap@, s) <==> exists|j: int|
                    0 <= j <= i && (#[trigger] u[j]).0@ == k && u[j].1 == s by {
                if spec_bit_set(rec1.bitmap@, s) {
                    assert(s == u[i].1);
                    assert(0 <= i <= i && (#[trigger] u[i]).0@ == k && u[i].1 == s);
                } else {
                    if exists|j: int| 0 <= j <= i && (#[trigger] u[j]).0@ == k && u[j].1 == s {
                        let j = choose|j: int|
                            0 <= j <= i && (#[trigger] u[j]).0@ == k && u[j].1 == s;
                        if j < i {
                            assert((#[trigger] u[j]).0@ != k);
                        } else {
                            assert(s == u[i].1);
                        }
                        assert(false);
                    }
                }
            }
        } else {
            assert(stem_get(g1, k) == stem_get(g0, k));
            match stem_get(g0, k) {
                Some(rec) => {
                    let j = choose|j: int| 0 <= j < i && (#[trigger] u[j]).0@ == k;
                    assert(0 <= j <= i && (#[trigger] u[j]).0@ == k);
                    let j2 = choose|j2: int|
                        0 <= j2 < i && (#[trigger] u[j2]).0@ == k && u[j2].2@ == rec.address@;
                    assert(0 <= j2 <= i && (#[trigger] u[j2]).0@ == k && u[j2].2@ == rec.address@);
                    assert forall|s: u8|
                        spec_bit_set(rec.bitmap@, s) <==> exists|j3: int|
                            0 <= j3 <= i && (#[trigger] u[j3]).0@ == k && u[j3].1 == s by {
                        if spec_bit_set(rec.bitmap@, s) {
                            let j3 = choose|j3: int|
                                0 <= j3 < i && (#[trigger] u[j3]).0@ == k && u[j3].1 == s;
                            assert(0 <= j3 <= i && (#[trigger] u[j3]).0@ == k && u[j3].1 == s);
                        } else {
                            if exists|j3: int|
                                0 <= j3 <= i && (#[trigger] u[j3]).0@ == k && u[j3].1 == s {
                                let j3 = choose|j3: int|
                                    0 <= j3 <= i && (#[trigger] u[j3]).0@ == k && u[j3].1 == s;
                                assert(j3 < i);
                                assert(false);
                            }
                        }
                    }
                },
                None => {
                    assert forall|j: int| 0 <= j <= i implies (#[trigger] u[j]).0@ != k by {
                        if j == i {
                            assert(u[i].0@ == k0);
                        }
                    }
                },
            }
        }
    }
}

/// Two record tables bind the same stems to the same addresses and bitmaps.
pub open spec fn records_equivalent(a: Seq<(Stem, StemRecord)>, b: Seq<(Stem, StemRecord)>) -> bool {
    forall|k: Seq<u8>|
        match (#[trigger] stem_get(a, k), stem_get(b, k)) {
            (Some(ra), Some(rb)) => ra.address@ == rb.address@ && ra.bitmap@ == rb.bitmap@,
            (None, None) => true,
            _ => false,
        }
}

/// A batch whose stems are all recorded brings no new stem.
proof fn lemma_count_new_zero(
    u: Seq<(Stem, u8, Vec<u8>)>,
    records: Seq<(Stem, StemRecord)>,
    n: int,
)
    requires
        0 <= n <= u.len(),
        forall|i: int| 0 <= i < n ==> stem_get(records, (#[trigger] u[i]).0@) is Some,
    ensures
        count_new_upto(u, records, n) == 0,
    decreases n,
{
    if n > 0 {
        lemma_count_new_zero(u, records, n - 1);
    }
}

/// Law: applying one batch a second time changes no record — addresses and
/// bitmaps come out as after the first application — and sees no new stem.
pub proof fn lemma_apply_updates_idempotent(
    u: Seq<(Stem, u8, Vec<u8>)>,
    pre: Seq<(Stem, StemRecord)>,
    post1: Seq<(Stem, StemRecord)>,
    post2: Seq<(Stem, StemRecord)>,
)
    requires
        apply_rel(pre, u, post1),
        apply_rel(post1, u, post2),
    ensures
        records_equivalent(post2, post1),
        count_new_upto(u, post1, u.len() as int) == 0,
{
    assert forall|k: Seq<u8>|
        match (#[trigger] stem_get(post2, k), stem_get(post1, k)) {
            (Some(ra), Some(rb)) => ra.address@ == rb.address@ && ra.bitmap@ == rb.bitmap@,
            (None, None) => true,
            _ => false,
        } by {
        if batch_has_stem(u, k) {
            assert(merged_at(pre, u, post1, k));
            assert(merged_at(post1, u, post2, k));
            let r1 = stem_get(post1, k)->Some_0;
            let r2 = stem_get(post2, k)->Some_0;
            // the first application already set every batch bit, so the
            // second one grows nothing
            assert forall|s: u8| spec_bit_set(r2.bitmap@, s) == spec_bit_set(r1.bitmap@, s) by {
                assert(spec_bit_set(r2.bitmap@, s) <==> (spec_bit_set(r1.bitmap@, s)
                    || batch_has_bit(u, k, s)));
                match stem_get(pre, k) {
                    Some(r0) => {
                        assert(spec_bit_set(r1.bitmap@, s) <==> (spec_bit_set(r0.bitmap@, s)
                            || batch_has_bit(u, k, s)));
                    },
                    None => {
                        assert(spec_bit_set(r1.bitmap@, s) <==> batch_has_bit(u, k, s));
                    },
                }
            }
            crate::bitmap::lemma_bitmap_ext(r2.bitmap@, r1.bitmap@);
        } else {
            assert(stem_get(post1, k) == stem_get(pre, k));
            assert(stem_get(post2, k) == stem_get(post1, k));
            match stem_get(post1, k) {
                Some(r) => {},
                None => {},
            }
        }
    }
    assert forall|i: int| 0 <= i < u.len() implies stem_get(post1, (#[trigger] u[i]).0@)
        is Some by {
        let k = u[i].0@;
        assert(batch_has_stem(u, k));
        assert(merged_at(pre, u, post1, k));
    }
    lemma_count_new_zero(u, post1, u.len() as int);
}

/// Law: two updates binding one stem to two different addresses are a
/// conflict in whichever order they stand.
pub proof fn lemma_conflict_detected(a: (Stem, u8, Vec<u8>), b: (Stem, u8, Vec<u8>))
    requires
        a.0@ == b.0@,
        a.2@ != b.2@,
    ensures
        batch_conflict(seq![a, b]),
        batch_conflict(seq![b, a]),
{
    let u1 = seq![a, b];
    assert((#[trigger] u1[0]).0@ == (#[trigger] u1[1]).0@ && u1[0].2@ != u1[1].2@);
    let u2 = seq![b, a];
    assert((#[trigger] u2[0]).0@ == (#[trigger] u2[1]).0@ && u2[0].2@ != u2[1].2@);
}

/// Law: an update binding a recorded stem to another address conflicts with
/// the index, whatever else the batch holds.
pub proof fn lemma_cross_batch_conflict(
    u: Seq<(Stem, u8, Vec<u8>)>,
    records: Seq<(Stem, StemRecord)>,
    i: int,
    r: StemRecord,
)
    requires
        0 <= i < u.len(),
        stem_get(records, u[i].0@) == Some(r),
        r.address@ != u[i].2@,
    ensures
        index_conflict(u, records),
{
    assert(0 <= i < u.len() && match stem_get(records, (#[trigger] u[i]).0@) {
        Some(rec) => rec.address@ != u[i].2@,
        None => false,
    });
}

} // verus!
