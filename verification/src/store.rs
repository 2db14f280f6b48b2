//! The primary store: per stem the set of populated (sub-index, value) pairs
//! and the owning address, per-block delta logs kept for reorg safety, and
//! the single head record. Stems are held in ascending byte order, the
//! store-native key order, so that repeated exports of unchanged state are
//! byte-identical.

use vstd::prelude::*;
use vstd::pervasive::VecAdditionalExecFns;

use crate::bytes::clone_bytes;
use crate::key_index::HeadRecord;
use crate::stem_map::{stem_get, stem_map_find, stem_map_insert, stems_sorted, stems_wf};
use crate::types::{Stem, StemNode, TreeKey, ADDRESS_LEN, VALUE_LEN};

verus! {

/// One recorded pre-image: the stem, the sub-index, and the 32-byte value
/// the leaf held before the block wrote it.
pub type DeltaEntry = (Stem, u8, Vec<u8>);

/// Delta entries are well-formed: 31-byte stems and 32-byte values.
pub open spec fn deltas_wf(es: Seq<DeltaEntry>) -> bool {
    forall|i: int| 0 <= i < es.len() ==> (#[trigger] es[i]).0.wf() && es[i].2@.len() == VALUE_LEN
}

/// The node bound by the last batch entry naming stem `k`, if any: later
/// entries of one batch override earlier ones.
pub open spec fn last_node_of(us: Seq<(Stem, StemNode)>, k: Seq<u8>) -> Option<StemNode>
    decreases us.len(),
{
    if us.len() == 0 {
        None
    } else if us.last().0@ == k {
        Some(us.last().1)
    } else {
        last_node_of(us.drop_last(), k)
    }
}

/// The in-memory primary store.
#[derive(Debug)]
pub struct UbtStore {
    pub stems: Vec<(Stem, StemNode)>,
    pub addresses: Vec<(Stem, Vec<u8>)>,
    pub deltas: Vec<(u64, Vec<DeltaEntry>)>,
    pub head: Option<HeadRecord>,
}

/// The delta entries recorded for one block, if any.
pub open spec fn delta_get(ds: Seq<(u64, Vec<DeltaEntry>)>, block: u64) -> Option<Vec<DeltaEntry>>
    decreases ds.len(),
{
    if ds.len() == 0 {
        None
    } else if ds[0].0 == block {
        Some(ds[0].1)
    } else {
        delta_get(ds.drop_first(), block)
    }
}

proof fn lemma_delta_get_absent(ds: Seq<(u64, Vec<DeltaEntry>)>, block: u64)
    requires
        forall|i: int| 0 <= i < ds.len() ==> (#[trigger] ds[i]).0 != block,
    ensures
        delta_get(ds, block) == None::<Vec<DeltaEntry>>,
    decreases ds.len(),
{
    if ds.len() > 0 {
        lemma_delta_get_absent(ds.drop_first(), block);
    }
}

proof fn lemma_delta_get_at(ds: Seq<(u64, Vec<DeltaEntry>)>, i: int)
    requires
        0 <= i < ds.len(),
        forall|p: int, q: int| 0 <= p < q < ds.len() ==> (#[trigger] ds[p]).0 != (#[trigger] ds[q]).0,
    ensures
        delta_get(ds, ds[i].0) == Some(ds[i].1),
    decreases ds.len(),
{
    if i > 0 {
        assert(ds[0].0 != ds[i].0);
        lemma_delta_get_at(ds.drop_first(), i - 1);
    }
}

impl UbtStore {
    pub open spec fn wf(self) -> bool {
        &&& stems_sorted(self.stems@)
        &&& stems_wf(self.stems@)
        &&& forall|i: int| 0 <= i < self.stems@.len() ==> (#[trigger] self.stems@[i]).1.wf()
        &&& stems_sorted(self.addresses@)
        &&& stems_wf(self.addresses@)
        &&& forall|i: int|
            0 <= i < self.addresses@.len() ==> (#[trigger] self.addresses@[i]).1@.len()
                == ADDRESS_LEN
        &&& forall|p: int, q: int|
            0 <= p < q < self.deltas@.len() ==> (#[trigger] self.deltas@[p]).0 != (
            #[trigger] self.deltas@[q]).0
        &&& forall|i: int| 0 <= i < self.deltas@.len() ==> deltas_wf((#[trigger] self.deltas@[i]).1@)
        &&& match self.head {
            Some(h) => h.wf(),
            None => true,
        }
    }

    /// The node stored for stem `k`, if any.
    pub open spec fn node_of(self, k: Seq<u8>) -> Option<StemNode> {
        stem_get(self.stems@, k)
    }

    /// The address recorded for stem `k`, if any.
    pub open spec fn address_of(self, k: Seq<u8>) -> Option<Vec<u8>> {
        stem_get(self.addresses@, k)
    }

    /// The value the store holds for one leaf, if any.
    pub open spec fn spec_load_value(self, stem: Seq<u8>, subindex: u8) -> Option<Seq<u8>> {
        match stem_get(self.stems@, stem) {
            Some(node) => node.value_of(subindex),
            None => None,
        }
    }

    pub fn new() -> (r: UbtStore)
        ensures
            r.wf(),
            r.head is None,
            r.stems@.len() == 0,
            r.addresses@.len() == 0,
            r.deltas@.len() == 0,
            forall|k: Seq<u8>| #[trigger] r.node_of(k) == None::<StemNode>,
            forall|k: Seq<u8>| #[trigger] r.address_of(k) == None::<Vec<u8>>,
            forall|b: u64| #[trigger] delta_get(r.deltas@, b) == None::<Vec<DeltaEntry>>,
    {
        let r = UbtStore { stems: Vec::new(), addresses: Vec::new(), deltas: Vec::new(), head: None };
        proof {
            assert forall|k: Seq<u8>| #[trigger] r.node_of(k) == None::<StemNode> by {
                crate::stem_map::lemma_stem_get_absent(r.stems@, k);
            }
            assert forall|k: Seq<u8>| #[trigger] r.address_of(k) == None::<Vec<u8>> by {
                crate::stem_map::lemma_stem_get_absent(r.addresses@, k);
            }
            assert forall|b: u64| #[trigger] delta_get(r.deltas@, b) == None::<Vec<DeltaEntry>> by {
                lemma_delta_get_absent(r.deltas@, b);
            }
        }
        r
    }

    /// Write a batch of stem states in one step: later entries for a repeated
    /// stem override earlier ones. Every other stem keeps its state; nothing
    /// else of the store moves.
    pub fn batch_update_stems(&mut self, updates: Vec<(Stem, StemNode)>)
        requires
            old(self).wf(),
            forall|i: int|
                0 <= i < updates@.len() ==> (#[trigger] updates@[i]).0.wf() && updates@[i].1.wf(),
        ensures
            final(self).wf(),
            forall|k: Seq<u8>|
                #[trigger] final(self).node_of(k) == match last_node_of(updates@, k) {
                    Some(node) => Some(node),
                    None => old(self).node_of(k),
                },
            final(self).addresses@ == old(self).addresses@,
            final(self).deltas@ == old(self).deltas@,
            final(self).head == old(self).head,
    {
        let ghost us = updates@;
        let n = updates.len();
        let mut updates = updates;
        let mut i: usize = 0;
        proof {
            assert(us.take(0).len() == 0);
        }
        // consume the batch front to back so that later entries win
        while i < n
            invariant
                n == us.len(),
                0 <= i <= n,
                updates@ == us.skip(i as int),
                forall|j: int|
                    0 <= j < us.len() ==> (#[trigger] us[j]).0.wf() && us[j].1.wf(),
                stems_sorted(self.stems@),
                stems_wf(self.stems@),
                forall|p: int| 0 <= p < self.stems@.len() ==> (#[trigger] self.stems@[p]).1.wf(),
                self.addresses@ == old(self).addresses@,
                self.deltas@ == old(self).deltas@,
                self.head == old(self).head,
                old(self).wf(),
                forall|k: Seq<u8>|
                    #[trigger] stem_get(self.stems@, k) == match last_node_of(
                        us.take(i as int),
                        k,
                    ) {
                        Some(node) => Some(node),
                        None => stem_get(old(self).stems@, k),
                    },
            decreases n - i,
        {
            let ghost s0 = self.stems@;
            let pair = remove_front(&mut updates);
            proof {
                assert(us.skip(i as int)[0] == us[i as int]);
                assert(us.skip(i as int).drop_first() =~= us.skip(i + 1));
            }
            let ghost gstem = pair.0;
            let ghost gnode = pair.1;
            stem_map_insert(&mut self.stems, pair.0, pair.1);
            proof {
                assert forall|q: int|
                    0 <= q < self.stems@.len() implies (#[trigger] self.stems@[q]).1.wf() by {
                    if self.stems@[q] != (gstem, gnode) {
                        assert(s0.contains(self.stems@[q]));
                        let idx = choose|idx: int|
                            0 <= idx < s0.len() && s0[idx] == self.stems@[q];
                    }
                }
                assert(us.take(i + 1).drop_last() =~= us.take(i as int));
                assert(us.take(i + 1).last() == us[i as int]);
                assert forall|k: Seq<u8>|
                    #[trigger] stem_get(self.stems@, k) == match last_node_of(
                        us.take(i + 1),
                        k,
                    ) {
                        Some(node) => Some(node),
                        None => stem_get(old(self).stems@, k),
                    } by {
                    if k != gstem@ {
                        assert(stem_get(self.stems@, k) == stem_get(s0, k));
                    }
                }
            }
            i = i + 1;
        }
        proof {
            assert(us.take(n as int) =~= us);
        }
    }

    /// Point lookup of one leaf's value. Reports nothing if the stem or the
    /// sub-index is absent.
    pub fn load_value(&self, key: &TreeKey) -> (r: Option<&Vec<u8>>)
        requires
            self.wf(),
            key.wf(),
        ensures
            match r {
                Some(v) => self.spec_load_value(key.stem@, key.subindex) == Some(v@),
                None => self.spec_load_value(key.stem@, key.subindex) == None::<Seq<u8>>,
            },
    {
        match stem_map_find(&self.stems, &key.stem) {
            Some(i) => self.stems[i].1.get(key.subindex),
            None => None,
        }
    }

    /// Record the owning address of a stem.
    pub fn save_stem_address(&mut self, stem: Stem, address: Vec<u8>)
        requires
            old(self).wf(),
            stem.wf(),
            address@.len() == ADDRESS_LEN,
        ensures
            final(self).wf(),
            final(self).address_of(stem@) == Some(address),
            forall|k: Seq<u8>|
                k != stem@ ==> #[trigger] final(self).address_of(k) == old(self).address_of(k),
            final(self).stems@ == old(self).stems@,
            final(self).deltas@ == old(self).deltas@,
            final(self).head == old(self).head,
    {
        let ghost a0 = self.addresses@;
        let ghost gstem = stem;
        let ghost gaddr = address;
        stem_map_insert(&mut self.addresses, stem, address);
        proof {
            assert forall|q: int|
                0 <= q < self.addresses@.len() implies (#[trigger] self.addresses@[q]).1@.len()
                == ADDRESS_LEN by {
                if self.addresses@[q] != (gstem, gaddr) {
                    assert(a0.contains(self.addresses@[q]));
                    let idx = choose|idx: int| 0 <= idx < a0.len() && a0[idx] == self.addresses@[q];
                }
            }
        }
    }

    /// The owning address recorded for a stem, if any.
    pub fn load_stem_address(&self, stem: &Stem) -> (r: Option<Vec<u8>>)
        requires
            self.wf(),
            stem.wf(),
        ensures
            match r {
                Some(a) => {
                    &&& self.address_of(stem@) matches Some(b) && a@ == b@
                    &&& a@.len() == ADDRESS_LEN
                },
                None => self.address_of(stem@) == None::<Vec<u8>>,
            },
    {
        match stem_map_find(&self.addresses, stem) {
            Some(i) => Some(clone_bytes(&self.addresses[i].1)),
            None => None,
        }
    }

    /// All stems and their nodes, in store-native ascending order.
    pub fn iter_stems(&self) -> (r: &Vec<(Stem, StemNode)>)
        ensures
            r@ == self.stems@,
    {
        &self.stems
    }

    /// Overwrite the single head record.
    pub fn save_head(&mut self, block_number: u64, block_hash: Vec<u8>, root: Vec<u8>, stem_count: u64)
        requires
            old(self).wf(),
            block_hash@.len() == VALUE_LEN,
            root@.len() == VALUE_LEN,
        ensures
            final(self).wf(),
            final(self).stems@ == old(self).stems@,
            final(self).addresses@ == old(self).addresses@,
            final(self).deltas@ == old(self).deltas@,
            match final(self).head {
                Some(h) => {
                    &&& h.block_number == block_number
                    &&& h.block_hash@ == block_hash@
                    &&& h.root@ == root@
                    &&& h.stem_count == stem_count
                },
                None => false,
            },
    {
        self.head = Some(HeadRecord { block_number, block_hash, root, stem_count });
    }

    /// The head record, if one was ever saved.
    pub fn load_head(&self) -> (r: Option<HeadRecord>)
        requires
            self.wf(),
        ensures
            match r {
                Some(h) => {
                    &&& self.head matches Some(g) && h.block_number == g.block_number
                        && h.block_hash@ == g.block_hash@ && h.root@ == g.root@ && h.stem_count
                        == g.stem_count
                    &&& h.wf()
                },
                None => self.head is None,
            },
    {
        match &self.head {
            Some(h) => Some(h.duplicate()),
            None => None,
        }
    }

    /// Record the pre-image writes of one block, replacing anything recorded
    /// for that block before.
    pub fn record_block_deltas(&mut self, block: u64, entries: Vec<DeltaEntry>)
        requires
            old(self).wf(),
            deltas_wf(entries@),
        ensures
            final(self).wf(),
            delta_get(final(self).deltas@, block) == Some(entries),
            forall|b: u64|
                b != block ==> #[trigger] delta_get(final(self).deltas@, b) == delta_get(
                    old(self).deltas@,
                    b,
                ),
            final(self).stems@ == old(self).stems@,
            final(self).addresses@ == old(self).addresses@,
            final(self).head == old(self).head,
    {
        let ghost d0 = self.deltas@;
        let n = self.deltas.len();
        let mut i: usize = 0;
        while i < n && self.deltas[i].0 != block
            invariant
                *self == *old(self),
                self.deltas@ == d0,
                n == d0.len(),
                0 <= i <= n,
                forall|j: int| 0 <= j < i ==> (#[trigger] d0[j]).0 != block,
            decreases n - i,
        {
            i = i + 1;
        }
        if i < n {
            // recorded before: replace in place
            let ghost gentries = entries;
            self.deltas.set(i, (block, entries));
            proof {
                let d1 = self.deltas@;
                assert forall|p: int, q: int|
                    0 <= p < q < d1.len() implies (#[trigger] d1[p]).0 != (#[trigger] d1[q]).0 by {
                    assert(d0[p].0 == d1[p].0 && d0[q].0 == d1[q].0);
                }
                lemma_delta_get_at(d1, i as int);
                assert forall|b: u64|
                    b != block implies #[trigger] delta_get(d1, b) == delta_get(d0, b) by {
                    lemma_delta_get_update_other(d0, d1, b, i as int);
                }
            }
        } else {
            let ghost gentries = entries;
            self.deltas.push((block, entries));
            proof {
                let d1 = self.deltas@;
                assert forall|p: int, q: int|
                    0 <= p < q < d1.len() implies (#[trigger] d1[p]).0 != (#[trigger] d1[q]).0 by {
                    if q == d1.len() - 1 {
                        assert(d0[p].0 != block);
                    } else {
                        assert(d0[p].0 == d1[p].0 && d0[q].0 == d1[q].0);
                    }
                }
                lemma_delta_get_at(d1, d1.len() - 1);
                assert forall|b: u64|
                    b != block implies #[trigger] delta_get(d1, b) == delta_get(d0, b) by {
                    lemma_delta_get_push_other(d0, d1, b);
                }
            }
        }
    }

    /// The recorded pre-image writes of one block; empty if none were
    /// recorded or they were pruned.
    pub fn load_block_deltas(&self, block: u64) -> (r: Vec<DeltaEntry>)
        requires
            self.wf(),
        ensures
            deltas_wf(r@),
            match delta_get(self.deltas@, block) {
                Some(es) => r@.len() == es@.len() && (forall|i: int|
                    0 <= i < r@.len() ==> {
                        &&& (#[trigger] r@[i]).0@ == es@[i].0@
                        &&& r@[i].1 == es@[i].1
                        &&& r@[i].2@ == es@[i].2@
                    }),
                None => r@.len() == 0,
            },
    {
        let n = self.deltas.len();
        let mut i: usize = 0;
        while i < n
            invariant
                self.wf(),
                n == self.deltas@.len(),
                0 <= i <= n,
                forall|j: int| 0 <= j < i ==> (#[trigger] self.deltas@[j]).0 != block,
            decreases n - i,
        {
            if self.deltas[i].0 == block {
                proof {
                    lemma_delta_get_at(self.deltas@, i as int);
                    assert(deltas_wf(self.deltas@[i as int].1@));
                }
                return clone_delta_entries(&self.deltas[i].1);
            }
            i = i + 1;
        }
        proof {
            lemma_delta_get_absent(self.deltas@, block);
        }
        Vec::new()
    }
}

/// The pre-image the entry list leaves for one leaf: the value of the last
/// entry naming it, if any — later entries of one list override earlier ones.
pub open spec fn preimage_of(es: Seq<DeltaEntry>, k: Seq<u8>, sub: u8) -> Option<Seq<u8>>
    decreases es.len(),
{
    if es.len() == 0 {
        None
    } else if es.last().0@ == k && es.last().1 == sub {
        Some(es.last().2@)
    } else {
        preimage_of(es.drop_last(), k, sub)
    }
}

/// Two entry lists equal view for view leave the same pre-images.
proof fn lemma_preimage_of_pointwise(a: Seq<DeltaEntry>, b: Seq<DeltaEntry>, k: Seq<u8>, sub: u8)
    requires
        a.len() == b.len(),
        forall|j: int|
            0 <= j < a.len() ==> {
                &&& (#[trigger] a[j]).0@ == b[j].0@
                &&& a[j].1 == b[j].1
                &&& a[j].2@ == b[j].2@
            },
    ensures
        preimage_of(a, k, sub) == preimage_of(b, k, sub),
    decreases a.len(),
{
    if a.len() > 0 {
        assert(a[a.len() - 1].0@ == b[a.len() - 1].0@ && a[a.len() - 1].1 == b[a.len() - 1].1
            && a[a.len() - 1].2@ == b[a.len() - 1].2@);
        if !(a.last().0@ == k && a.last().1 == sub) {
            assert forall|j: int|
                0 <= j < a.drop_last().len() implies {
                &&& (#[trigger] a.drop_last()[j]).0@ == b.drop_last()[j].0@
                &&& a.drop_last()[j].1 == b.drop_last()[j].1
                &&& a.drop_last()[j].2@ == b.drop_last()[j].2@
            } by {
                assert(a[j].0@ == b[j].0@ && a[j].1 == b[j].1 && a[j].2@ == b[j].2@);
            }
            lemma_preimage_of_pointwise(a.drop_last(), b.drop_last(), k, sub);
        }
    }
}

/// The pre-image a revert over blocks `(lo, hi]` restores for one leaf: the
/// one from the lowest block in range that recorded it, since the revert
/// replays blocks in descending order and the last write wins.
pub open spec fn revert_preimage(
    ds: Seq<(u64, Vec<DeltaEntry>)>,
    lo: int,
    hi: int,
    k: Seq<u8>,
    sub: u8,
) -> Option<Seq<u8>>
    decreases hi - lo,
{
    if hi <= lo || lo < 0 || hi > u64::MAX {
        None
    } else {
        match (match delta_get(ds, (lo + 1) as u64) {
            Some(es) => preimage_of(es@, k, sub),
            None => None,
        }) {
            Some(v) => Some(v),
            None => revert_preimage(ds, lo + 1, hi, k, sub),
        }
    }
}

impl UbtStore {
    /// Write back one block's recorded pre-images, in order: each leaf named
    /// takes the value of the last entry naming it.
    pub fn apply_preimages(&mut self, entries: &Vec<DeltaEntry>)
        requires
            old(self).wf(),
            deltas_wf(entries@),
        ensures
            final(self).wf(),
            forall|k: Seq<u8>, sub: u8|
                #![trigger final(self).spec_load_value(k, sub)]
                final(self).spec_load_value(k, sub) == match preimage_of(entries@, k, sub) {
                    Some(v) => Some(v),
                    None => old(self).spec_load_value(k, sub),
                },
            final(self).addresses@ == old(self).addresses@,
            final(self).deltas@ == old(self).deltas@,
            final(self).head == old(self).head,
    {
        let ghost es = entries@;
        let n = entries.len();
        let mut i: usize = 0;
        proof {
            assert forall|k: Seq<u8>, sub: u8|
                #![trigger preimage_of(es.take(0), k, sub)]
                preimage_of(es.take(0), k, sub) == None::<Seq<u8>> by {
                assert(es.take(0).len() == 0);
            }
        }
        while i < n
            invariant
                n == es.len(),
                0 <= i <= n,
                entries@ == es,
                deltas_wf(es),
                old(self).wf(),
                stems_sorted(self.stems@),
                stems_wf(self.stems@),
                forall|p: int| 0 <= p < self.stems@.len() ==> (#[trigger] self.stems@[p]).1.wf(),
                self.addresses@ == old(self).addresses@,
                self.deltas@ == old(self).deltas@,
                self.head == old(self).head,
                forall|k: Seq<u8>, sub: u8|
                    #![trigger self.spec_load_value(k, sub)]
                    self.spec_load_value(k, sub) == match preimage_of(es.take(i as int), k, sub) {
                        Some(v) => Some(v),
                        None => old(self).spec_load_value(k, sub),
                    },
            decreases n - i,
        {
            let ghost pre_self = *self;
            let stem = &entries[i].0;
            let sub = entries[i].1;
            let ghost k0 = stem@;
            let mut node = match stem_map_find(&self.stems, stem) {
                Some(pos) => self.stems[pos].1.duplicate(),
                None => StemNode::new(),
            };
            node.set_value(sub, clone_bytes(&entries[i].2));
            let ghost gnode = node;
            let ghost s0 = self.stems@;
            stem_map_insert(&mut self.stems, stem.duplicate(), node);
            proof {
                assert forall|q: int|
                    0 <= q < self.stems@.len() implies (#[trigger] self.stems@[q]).1.wf() by {
                    if self.stems@[q].1 != gnode {
                        assert(s0.contains(self.stems@[q]));
                        let idx = choose|idx: int|
                            0 <= idx < s0.len() && s0[idx] == self.stems@[q];
                    }
                }
                assert(es.take(i + 1).drop_last() =~= es.take(i as int));
                assert(es.take(i + 1).last() == es[i as int]);
                assert forall|k: Seq<u8>, s: u8|
                    #![trigger self.spec_load_value(k, s)]
                    self.spec_load_value(k, s) == match preimage_of(es.take(i + 1), k, s) {
                        Some(v) => Some(v),
                        None => old(self).spec_load_value(k, s),
                    } by {
                    assert(pre_self.spec_load_value(k, s) == (match preimage_of(
                        es.take(i as int),
                        k,
                        s,
                    ) {
                        Some(v) => Some(v),
                        None => old(self).spec_load_value(k, s),
                    }));
                    assert(pre_self.stems@ == s0);
                    if k == k0 {
                        assert(stem_get(self.stems@, k) == Some(gnode));
                        if s != sub {
                            assert(gnode.value_of(s) == (match stem_get(s0, k0) {
                                Some(old_node) => old_node.value_of(s),
                                None => None::<Seq<u8>>,
                            }));
                        }
                    } else {
                        assert(stem_get(self.stems@, k) == stem_get(s0, k));
                    }
                }
            }
            i = i + 1;
        }
        proof {
            assert(es.take(n as int) =~= es);
        }
    }

    /// Undo the writes of every block above `target_block`: replay the
    /// recorded pre-images from the head down to the target's successor, in
    /// descending block order. A leaf touched in range comes out holding the
    /// pre-image of the lowest such block — the value it held before that
    /// block — and every other leaf keeps its value. Running the same revert
    /// again changes nothing.
    pub fn revert_to(&mut self, target_block: u64)
        requires
            old(self).wf(),
            old(self).head is Some,
        ensures
            final(self).wf(),
            forall|k: Seq<u8>, sub: u8|
                #![trigger final(self).spec_load_value(k, sub)]
                final(self).spec_load_value(k, sub) == match revert_preimage(
                    old(self).deltas@,
                    target_block as int,
                    old(self).head->Some_0.block_number as int,
                    k,
                    sub,
                ) {
                    Some(v) => Some(v),
                    None => old(self).spec_load_value(k, sub),
                },
            final(self).addresses@ == old(self).addresses@,
            final(self).deltas@ == old(self).deltas@,
            final(self).head == old(self).head,
    {
        let head_block = match self.load_head() {
            Some(h) => h.block_number,
            None => {
                proof {
                    assert(false);
                }
                return ;
            },
        };
        let ghost hb = head_block as int;
        let mut b = head_block;
        while b > target_block
            invariant
                old(self).wf(),
                old(self).head matches Some(h) && h.block_number == hb,
                target_block <= b <= hb || b == hb,
                stems_sorted(self.stems@),
                stems_wf(self.stems@),
                forall|p: int| 0 <= p < self.stems@.len() ==> (#[trigger] self.stems@[p]).1.wf(),
                self.addresses@ == old(self).addresses@,
                self.deltas@ == old(self).deltas@,
                self.head == old(self).head,
                forall|k: Seq<u8>, sub: u8|
                    #![trigger self.spec_load_value(k, sub)]
                    self.spec_load_value(k, sub) == match revert_preimage(
                        old(self).deltas@,
                        b as int,
                        hb,
                        k,
                        sub,
                    ) {
                        Some(v) => Some(v),
                        None => old(self).spec_load_value(k, sub),
                    },
            decreases b,
        {
            let entries = self.load_block_deltas(b);
            let ghost before = *self;
            let ghost esv = entries@;
            self.apply_preimages(&entries);
            proof {
                assert forall|k: Seq<u8>, sub: u8|
                    #![trigger self.spec_load_value(k, sub)]
                    self.spec_load_value(k, sub) == match revert_preimage(
                        old(self).deltas@,
                        b as int - 1,
                        hb,
                        k,
                        sub,
                    ) {
                        Some(v) => Some(v),
                        None => old(self).spec_load_value(k, sub),
                    } by {
                    assert(before.spec_load_value(k, sub) == (match revert_preimage(
                        old(self).deltas@,
                        b as int,
                        hb,
                        k,
                        sub,
                    ) {
                        Some(v) => Some(v),
                        None => old(self).spec_load_value(k, sub),
                    }));
                    assert(self.spec_load_value(k, sub) == (match preimage_of(esv, k, sub) {
                        Some(v) => Some(v),
                        None => before.spec_load_value(k, sub),
                    }));
                    match delta_get(old(self).deltas@, b) {
                        Some(ds) => {
                            lemma_preimage_of_pointwise(esv, ds@, k, sub);
                        },
                        None => {
                            assert(esv.len() == 0);
                        },
                    }
                }
            }
            b = b - 1;
        }
        proof {
            assert(b == target_block || b == hb);
        }
    }
}

/// Law: a revert is idempotent — replaying the same range a second time
/// leaves every leaf as the first replay left it.
pub proof fn lemma_revert_idempotent(
    pre: UbtStore,
    post1: UbtStore,
    post2: UbtStore,
    target_block: u64,
    head_block: u64,
    k: Seq<u8>,
    sub: u8,
)
    requires
        post1.deltas@ == pre.deltas@,
        post1.spec_load_value(k, sub) == (match revert_preimage(
            pre.deltas@,
            target_block as int,
            head_block as int,
            k,
            sub,
        ) {
            Some(v) => Some(v),
            None => pre.spec_load_value(k, sub),
        }),
        post2.spec_load_value(k, sub) == (match revert_preimage(
            post1.deltas@,
            target_block as int,
            head_block as int,
            k,
            sub,
        ) {
            Some(v) => Some(v),
            None => post1.spec_load_value(k, sub),
        }),
    ensures
        post2.spec_load_value(k, sub) == post1.spec_load_value(k, sub),
{
}

/// A value the store holds is 32 bytes.
pub proof fn lemma_loaded_value_len(store: UbtStore, k: Seq<u8>, s: u8)
    requires
        store.wf(),
        store.spec_load_value(k, s) is Some,
    ensures
        store.spec_load_value(k, s)->Some_0.len() == VALUE_LEN,
{
    crate::stem_map::lemma_stem_get_some_position(store.stems@, k);
    let i = choose|i: int|
        0 <= i < store.stems@.len() && (#[trigger] store.stems@[i]).0@ == k && stem_get(
            store.stems@,
            k,
        ) == Some(store.stems@[i].1);
    let node = store.stems@[i].1;
    crate::types::lemma_sub_get_some_position(node.values@, s);
    let j = choose|j: int|
        0 <= j < node.values@.len() && (#[trigger] node.values@[j]).0 == s && crate::types::sub_get(
            node.values@,
            s,
        ) == Some(node.values@[j].1@);
}

/// Replacing the entries at one position, block unchanged, leaves every other
/// block's deltas unchanged.
proof fn lemma_delta_get_update_other(
    d0: Seq<(u64, Vec<DeltaEntry>)>,
    d1: Seq<(u64, Vec<DeltaEntry>)>,
    b: u64,
    i: int,
)
    requires
        0 <= i < d0.len(),
        d1.len() == d0.len(),
        forall|j: int| 0 <= j < d0.len() && j != i ==> d0[j] == d1[j],
        d0[i].0 == d1[i].0,
        d0[i].0 != b,
    ensures
        delta_get(d1, b) == delta_get(d0, b),
    decreases d0.len(),
{
    if i == 0 {
        assert(d0.drop_first() =~= d1.drop_first());
    } else if d0[0].0 != b {
        lemma_delta_get_update_other(d0.drop_first(), d1.drop_first(), b, i - 1);
    }
}

/// Appending a record for a new block leaves every other block's deltas
/// unchanged.
proof fn lemma_delta_get_push_other(
    d0: Seq<(u64, Vec<DeltaEntry>)>,
    d1: Seq<(u64, Vec<DeltaEntry>)>,
    b: u64,
)
    requires
        d1.len() == d0.len() + 1,
        forall|j: int| 0 <= j < d0.len() ==> d0[j] == d1[j],
        d1[d1.len() - 1].0 != b,
    ensures
        delta_get(d1, b) == delta_get(d0, b),
    decreases d0.len(),
{
    if d0.len() == 0 {
        assert(d1[0].0 != b);
        assert(d1.drop_first() =~= Seq::<(u64, Vec<DeltaEntry>)>::empty());
    } else {
        assert(d0[0] == d1[0]);
        if d0[0].0 != b {
            assert(d1.drop_first().len() == d0.drop_first().len() + 1);
            assert forall|j: int|
                0 <= j < d0.drop_first().len() implies d0.drop_first()[j] == d1.drop_first()[j] by {
                assert(d0[j + 1] == d1[j + 1]);
            }
            lemma_delta_get_push_other(d0.drop_first(), d1.drop_first(), b);
        }
    }
}

/// Copy a list of delta entries.
fn clone_delta_entries(es: &Vec<DeltaEntry>) -> (r: Vec<DeltaEntry>)
    ensures
        r@.len() == es@.len(),
        forall|i: int|
            0 <= i < r@.len() ==> {
                &&& (#[trigger] r@[i]).0@ == es@[i].0@
                &&& r@[i].1 == es@[i].1
                &&& r@[i].2@ == es@[i].2@
            },
{
    let n = es.len();
    let mut r: Vec<DeltaEntry> = Vec::new();
    let mut i: usize = 0;
    while i < n
        invariant
            n == es@.len(),
            0 <= i <= n,
            r@.len() == i,
            forall|j: int|
                0 <= j < i ==> {
                    &&& (#[trigger] r@[j]).0@ == es@[j].0@
                    &&& r@[j].1 == es@[j].1
                    &&& r@[j].2@ == es@[j].2@
                },
        decreases n - i,
    {
        let stem = es[i].0.duplicate();
        let sub = es[i].1;
        let value = clone_bytes(&es[i].2);
        r.push((stem, sub, value));
        i = i + 1;
    }
    r
}

/// Take the element at the front of a batch, in order.
fn remove_front(v: &mut Vec<(Stem, StemNode)>) -> (r: (Stem, StemNode))
    requires
        old(v)@.len() > 0,
    ensures
        r == old(v)@[0],
        final(v)@ == old(v)@.drop_first(),
{
    let r = v.remove(0);
    proof {
        assert(v@ =~= old(v)@.drop_first());
    }
    r
}

} // verus!