//! Snapshot exports: full-state and per-contract snapshots read from the
//! primary store, plus the entry collection that index-sourced exports and
//! delta exports share. An export is produced as the exact bytes of the two
//! files — the state file and its companion stem index — ready to stream.

use vstd::prelude::*;
use vstd::bytes::{lemma_auto_spec_u64_to_from_le_bytes, spec_u64_to_le_bytes, u64_to_le_bytes};

use crate::bytes::{
    bytes_eq,
    clone_bytes,
    lemma_lex_push_eq,
    lemma_lex_push_lt,
    lex_lt,
};
use crate::codec::{
    stem_index_record_bytes,
    tree_index_from_key,
    StateHeader,
    StorageEntry,
    STATE_ENTRY_SIZE,
    STATE_HEADER_SIZE,
    STEM_INDEX_ENTRY_SIZE,
};
use crate::error::UbtError;
use crate::stem_map::lemma_stem_get_at;
use crate::store::UbtStore;
use crate::types::{lemma_sub_get_at, Stem, StemNode, ADDRESS_LEN};

verus! {

/// Whether an address passes an export's contract filter.
pub open spec fn filter_pass(filter: Option<Seq<u8>>, addr: Seq<u8>) -> bool {
    match filter {
        Some(f) => addr == f,
        None => true,
    }
}

/// The filter an optional contract address denotes.
pub open spec fn filter_of(filter: Option<&Vec<u8>>) -> Option<Seq<u8>> {
    match filter {
        Some(f) => Some(f@),
        None => None,
    }
}

/// An export entry agrees with the store: its tree index names a leaf the
/// store holds with exactly this value, under a stem whose recorded address
/// is the entry's address and passes the filter.
pub open spec fn entry_matches_store(
    store: UbtStore,
    filter: Option<Seq<u8>>,
    e: StorageEntry,
) -> bool {
    &&& e.wf()
    &&& store.spec_load_value(e.tree_index@.subrange(0, 31), e.tree_index@[31]) == Some(e.value@)
    &&& match store.address_of(e.tree_index@.subrange(0, 31)) {
        Some(a) => a@ == e.address@ && filter_pass(filter, a@),
        None => false,
    }
}

/// Entries strictly ascending by tree index.
pub open spec fn entries_sorted(es: Seq<StorageEntry>) -> bool {
    forall|p: int, q: int|
        0 <= p < q < es.len() ==> lex_lt(
            (#[trigger] es[p]).tree_index@,
            (#[trigger] es[q]).tree_index@,
        )
}

/// The concatenated encodings of the first `n` entries.
pub open spec fn entries_bytes(es: Seq<StorageEntry>, n: int) -> Seq<u8>
    decreases n,
{
    if n <= 0 {
        Seq::empty()
    } else {
        entries_bytes(es, n - 1) + es[n - 1].spec_bytes()
    }
}

/// The concatenated encodings of the first `n` stem index records.
pub open spec fn offsets_bytes(os: Seq<(Stem, u64)>, n: int) -> Seq<u8>
    decreases n,
{
    if n <= 0 {
        Seq::empty()
    } else {
        offsets_bytes(os, n - 1) + os[n - 1].0@ + spec_u64_to_le_bytes(os[n - 1].1)
    }
}

/// How many of the first `n` stems lack a recorded address.
pub open spec fn missing_count(store: UbtStore, n: int) -> int
    decreases n,
{
    if n <= 0 {
        0
    } else {
        missing_count(store, n - 1) + if store.address_of(store.stems@[n - 1].0@) is None {
            1int
        } else {
            0int
        }
    }
}

proof fn lemma_missing_zero(store: UbtStore, n: int)
    requires
        0 <= n <= store.stems@.len(),
        missing_count(store, n) == 0,
    ensures
        forall|j: int|
            0 <= j < n ==> store.address_of((#[trigger] store.stems@[j]).0@) is Some,
    decreases n,
{
    if n > 0 {
        assert(missing_count(store, n - 1) >= 0) by {
            lemma_missing_nonneg(store, n - 1);
        }
        lemma_missing_zero(store, n - 1);
    }
}

proof fn lemma_missing_nonneg(store: UbtStore, n: int)
    ensures
        missing_count(store, n) >= 0,
    decreases n,
{
    if n > 0 {
        lemma_missing_nonneg(store, n - 1);
    }
}

proof fn lemma_missing_nonzero(store: UbtStore, n: int)
    requires
        0 <= n <= store.stems@.len(),
        missing_count(store, n) > 0,
    ensures
        exists|j: int|
            0 <= j < n && store.address_of((#[trigger] store.stems@[j]).0@) is None,
    decreases n,
{
    if n > 0 {
        if store.address_of(store.stems@[n - 1].0@) is None {
            assert(store.address_of((#[trigger] store.stems@[n - 1]).0@) is None);
        } else {
            lemma_missing_nonzero(store, n - 1);
        }
    }
}

/// A store whose every stem has an address misses none.
proof fn lemma_missing_zero_inverse(store: UbtStore, n: int)
    requires
        0 <= n <= store.stems@.len(),
        forall|j: int| 0 <= j < n ==> store.address_of((#[trigger] store.stems@[j]).0@) is Some,
    ensures
        missing_count(store, n) == 0,
    decreases n,
{
    if n > 0 {
        lemma_missing_zero_inverse(store, n - 1);
    }
}

/// A 32-byte tree index is its 31-byte stem followed by its sub-index.
proof fn lemma_tree_index_split(t: Seq<u8>)
    requires
        t.len() == 32,
    ensures
        t == t.subrange(0, 31).push(t[31]),
{
    assert(t =~= t.subrange(0, 31).push(t[31]));
}

/// Append one stem's entries: one per populated sub-index, ascending, each
/// carrying the stem's address. Keeps the whole list strictly sorted, given
/// that every earlier entry belongs to a smaller stem.
fn push_stem_entries(
    entries: &mut Vec<StorageEntry>,
    stem: &Stem,
    addr: &Vec<u8>,
    node: &StemNode,
)
    requires
        stem.wf(),
        addr@.len() == ADDRESS_LEN,
        node.wf(),
        forall|p: int| 0 <= p < old(entries)@.len() ==> (#[trigger] old(entries)@[p]).wf(),
        entries_sorted(old(entries)@),
        forall|p: int|
            0 <= p < old(entries)@.len() ==> lex_lt(
                (#[trigger] old(entries)@[p]).tree_index@.subrange(0, 31),
                stem@,
            ),
    ensures
        final(entries)@.len() == old(entries)@.len() + node.values@.len(),
        forall|p: int|
            0 <= p < old(entries)@.len() ==> (#[trigger] final(entries)@[p]) == old(entries)@[p],
        forall|q: int|
            0 <= q < node.values@.len() ==> {
                let e = #[trigger] final(entries)@[old(entries)@.len() + q];
                &&& e.wf()
                &&& e.address@ == addr@
                &&& e.tree_index@ == stem@.push(node.values@[q].0)
                &&& e.value@ == node.values@[q].1@
            },
        entries_sorted(final(entries)@),
        forall|p: int| 0 <= p < final(entries)@.len() ==> (#[trigger] final(entries)@[p]).wf(),
{
    let ghost e0 = entries@;
    let m = node.values.len();
    let mut j: usize = 0;
    while j < m
        invariant
            stem.wf(),
            addr@.len() == ADDRESS_LEN,
            node.wf(),
            m == node.values@.len(),
            0 <= j <= m,
            forall|p: int| 0 <= p < e0.len() ==> (#[trigger] e0[p]).wf(),
            entries_sorted(e0),
            forall|p: int|
                0 <= p < e0.len() ==> lex_lt(
                    (#[trigger] e0[p]).tree_index@.subrange(0, 31),
                    stem@,
                ),
            entries@.len() == e0.len() + j,
            forall|p: int| 0 <= p < e0.len() ==> (#[trigger] entries@[p]) == e0[p],
            forall|q: int|
                0 <= q < j ==> {
                    let e = #[trigger] entries@[e0.len() + q];
                    &&& e.wf()
                    &&& e.address@ == addr@
                    &&& e.tree_index@ == stem@.push(node.values@[q].0)
                    &&& e.value@ == node.values@[q].1@
                },
            entries_sorted(entries@),
            forall|p: int| 0 <= p < entries@.len() ==> (#[trigger] entries@[p]).wf(),
        decreases m - j,
    {
        let sub = node.values[j].0;
        let e = StorageEntry {
            address: clone_bytes(addr),
            tree_index: tree_index_from_key(stem, sub),
            value: clone_bytes(&node.values[j].1),
        };
        let ghost before = entries@;
        entries.push(e);
        proof {
            let cur = entries@;
            let new_t = stem@.push(sub);
            assert forall|p: int, q: int| 0 <= p < q < cur.len() implies lex_lt(
                (#[trigger] cur[p]).tree_index@,
                (#[trigger] cur[q]).tree_index@,
            ) by {
                if q == cur.len() - 1 {
                    if p < e0.len() {
                        lemma_tree_index_split(cur[p].tree_index@);
                        lemma_lex_push_lt(
                            cur[p].tree_index@.subrange(0, 31),
                            stem@,
                            cur[p].tree_index@[31],
                            sub,
                        );
                    } else {
                        let q0 = p - e0.len();
                        assert(cur[p] == before[p]);
                        assert((#[trigger] before[e0.len() + q0]).tree_index@ == stem@.push(
                            node.values@[q0].0,
                        ));
                        assert(node.values@[q0].0 < node.values@[j as int].0);
                        lemma_lex_push_eq(stem@, node.values@[q0].0, sub);
                    }
                } else {
                    assert(cur[p] == before[p] && cur[q] == before[q]);
                }
            }
        }
        j = j + 1;
    }
}
/// Some processed stem has this view.
pub open spec fn stem_seen(store: UbtStore, k: Seq<u8>, i: int) -> bool {
    exists|j: int| #![trigger store.stems@[j]] 0 <= j < i && k == store.stems@[j].0@
}

/// Some collected entry carries this tree index.
pub open spec fn entry_emitted(entries: Seq<StorageEntry>, t: Seq<u8>) -> bool {
    exists|p: int| #![trigger entries[p]] 0 <= p < entries.len() && entries[p].tree_index@ == t
}

/// Some offset record names this stem.
pub open spec fn stem_offset_listed(offsets: Seq<(Stem, u64)>, k: Seq<u8>) -> bool {
    exists|jo: int| #![trigger offsets[jo]] 0 <= jo < offsets.len() && offsets[jo].0@ == k
}

proof fn lemma_stem_seen_mono(store: UbtStore, k: Seq<u8>, i1: int, i2: int)
    requires
        stem_seen(store, k, i1),
        i1 <= i2,
    ensures
        stem_seen(store, k, i2),
{
    let j = choose|j: int| #![trigger store.stems@[j]] 0 <= j < i1 && k == store.stems@[j].0@;
    assert(0 <= j < i2 && k == store.stems@[j].0@);
}

/// Entries collected from the first `i` stems: strictly sorted, agreeing
/// with the store, complete for the processed stems, and each belonging to
/// a processed stem.
pub open spec fn collect_inv_entries(
    store: UbtStore,
    fv: Option<Seq<u8>>,
    entries: Seq<StorageEntry>,
    i: int,
) -> bool {
    &&& entries_sorted(entries)
    &&& forall|p: int| 0 <= p < entries.len() ==> (#[trigger] entries[p]).wf()
    &&& forall|p: int|
        0 <= p < entries.len() ==> entry_matches_store(store, fv, #[trigger] entries[p])
    &&& forall|p: int|
        0 <= p < entries.len() ==> stem_seen(
            store,
            (#[trigger] entries[p]).tree_index@.subrange(0, 31),
            i,
        )
    &&& forall|j: int, sub: u8|
        #![trigger store.stems@[j].1.value_of(sub)]
        (0 <= j < i && store.stems@[j].1.value_of(sub) is Some && (store.address_of(
            store.stems@[j].0@,
        ) matches Some(a) && filter_pass(fv, a@))) ==> entry_emitted(
            entries,
            store.stems@[j].0@.push(sub),
        )
}

/// The offsets collected from the first `i` stems: ascending by stem, each
/// naming its stem's first entry, covering every entry's stem.
pub open spec fn collect_inv_offsets(
    store: UbtStore,
    entries: Seq<StorageEntry>,
    offsets: Seq<(Stem, u64)>,
    i: int,
) -> bool {
    &&& forall|jo: int|
        0 <= jo < offsets.len() ==> (#[trigger] offsets[jo]).0.wf() && offsets[jo].1
            < entries.len()
    &&& forall|j1: int, j2: int|
        0 <= j1 < j2 < offsets.len() ==> lex_lt(
            (#[trigger] offsets[j1]).0@,
            (#[trigger] offsets[j2]).0@,
        )
    &&& forall|jo: int|
        0 <= jo < offsets.len() ==> {
            let off = (#[trigger] offsets[jo]).1 as int;
            &&& entries[off].tree_index@.subrange(0, 31) == offsets[jo].0@
            &&& (off == 0 || entries[off - 1].tree_index@.subrange(0, 31) != offsets[jo].0@)
        }
    &&& forall|p: int|
        0 <= p < entries.len() ==> stem_offset_listed(
            offsets,
            (#[trigger] entries[p]).tree_index@.subrange(0, 31),
        )
    &&& forall|jo: int|
        0 <= jo < offsets.len() ==> stem_seen(store, (#[trigger] offsets[jo]).0@, i)
}

/// The running shape of an export collection after the first `i` stems.
pub open spec fn collect_inv(
    store: UbtStore,
    fv: Option<Seq<u8>>,
    entries: Seq<StorageEntry>,
    offsets: Seq<(Stem, u64)>,
    i: int,
) -> bool {
    &&& collect_inv_entries(store, fv, entries, i)
    &&& collect_inv_offsets(store, entries, offsets, i)
}

/// Process one stem of a collection: emit its entries and offset record if
/// its address is recorded, passes the filter and the node is populated.
/// Reports whether the stem's address was missing.
#[verifier::rlimit(100)]
fn collect_step(
    store: &UbtStore,
    filter: Option<&Vec<u8>>,
    entries: &mut Vec<StorageEntry>,
    offsets: &mut Vec<(Stem, u64)>,
    i: usize,
) -> (was_missing: bool)
    requires
        store.wf(),
        i < store.stems@.len(),
        collect_inv(*store, filter_of(filter), old(entries)@, old(offsets)@, i as int),
    ensures
        collect_inv(*store, filter_of(filter), final(entries)@, final(offsets)@, i + 1),
        was_missing == (store.address_of(store.stems@[i as int].0@) is None),
{
    let ghost fv = filter_of(filter);
    let stem = &store.iter_stems()[i].0;
    let node = &store.iter_stems()[i].1;
    proof {
        lemma_stem_get_at(store.stems@, i as int);
    }
    match store.load_stem_address(stem) {
        None => {
            proof {
                lemma_collect_inv_skip(*store, fv, entries@, offsets@, i as int);
            }
            true
        },
        Some(addr) => {
            let passes = match filter {
                Some(f) => bytes_eq(&addr, f),
                None => true,
            };
            if !passes {
                proof {
                    // the stem's address fails the filter, so nothing is
                    // owed for it
                    assert(match store.address_of(store.stems@[i as int].0@) {
                        Some(a) => !filter_pass(fv, a@),
                        None => false,
                    });
                    lemma_collect_inv_skip(*store, fv, entries@, offsets@, i as int);
                }
            } else if node.values.len() == 0 {
                proof {
                    // an empty node holds no leaf
                    assert forall|sub: u8| !(store.stems@[i as int].1.value_of(sub) is Some) by {
                        if store.stems@[i as int].1.value_of(sub) is Some {
                            crate::types::lemma_sub_get_some_position(
                                store.stems@[i as int].1.values@,
                                sub,
                            );
                        }
                    }
                    lemma_collect_inv_skip(*store, fv, entries@, offsets@, i as int);
                }
            } else {
                let ghost e0 = entries@;
                let ghost o0 = offsets@;
                let start = entries.len();
                offsets.push((stem.duplicate(), start as u64));
                proof {
                    // every existing entry belongs to a smaller stem
                    assert forall|p: int|
                        0 <= p < entries@.len() implies lex_lt(
                        (#[trigger] entries@[p]).tree_index@.subrange(0, 31),
                        stem@,
                    ) by {
                        let j = choose|j: int|
                            #![trigger store.stems@[j]]
                            0 <= j < i && entries@[p].tree_index@.subrange(0, 31)
                                == store.stems@[j].0@;
                        assert(lex_lt(store.stems@[j].0@, store.stems@[i as int].0@));
                    }
                }
                push_stem_entries(entries, stem, &addr, node);
                proof {
                    lemma_collect_inv_extend_entries(*store, fv, e0, entries@, i as int, addr@);
                    assert(emit_step_shape(*store, e0, entries@, o0, offsets@, i as int));
                    lemma_collect_inv_extend_offsets(
                        *store,
                        fv,
                        e0,
                        entries@,
                        o0,
                        offsets@,
                        i as int,
                    );
                }
            }
            false
        },
    }
}

/// Skipping a stem that owes no entries keeps the collection invariant.
proof fn lemma_collect_inv_skip(
    store: UbtStore,
    fv: Option<Seq<u8>>,
    entries: Seq<StorageEntry>,
    offsets: Seq<(Stem, u64)>,
    i: int,
)
    requires
        store.wf(),
        0 <= i < store.stems@.len(),
        collect_inv(store, fv, entries, offsets, i),
        match store.address_of(store.stems@[i].0@) {
            Some(a) => !filter_pass(fv, a@) || (forall|sub: u8|
                !(store.stems@[i].1.value_of(sub) is Some)),
            None => true,
        },
    ensures
        collect_inv(store, fv, entries, offsets, i + 1),
{
    assert forall|p: int|
        0 <= p < entries.len() implies stem_seen(
        store,
        (#[trigger] entries[p]).tree_index@.subrange(0, 31),
        i + 1,
    ) by {
        lemma_stem_seen_mono(store, entries[p].tree_index@.subrange(0, 31), i, i + 1);
    }
    assert forall|j: int, sub: u8|
        #![trigger store.stems@[j].1.value_of(sub)]
        (0 <= j < i + 1 && store.stems@[j].1.value_of(sub) is Some && (store.address_of(
            store.stems@[j].0@,
        ) matches Some(a) && filter_pass(fv, a@))) implies entry_emitted(
        entries,
        store.stems@[j].0@.push(sub),
    ) by {
        if j == i {
            // the skipped stem owes nothing: its address is missing, fails
            // the filter, or its node is empty
            match store.address_of(store.stems@[i].0@) {
                Some(a) => {
                    assert(!filter_pass(fv, a@) || !(store.stems@[i].1.value_of(sub) is Some));
                },
                None => {},
            }
        }
    }
    assert forall|jo: int|
        0 <= jo < offsets.len() implies stem_seen(store, (#[trigger] offsets[jo]).0@, i + 1) by {
        lemma_stem_seen_mono(store, offsets[jo].0@, i, i + 1);
    }
}

/// Emitting one populated stem's entries extends the entries invariant by
/// one stem.
#[verifier::rlimit(100)]
proof fn lemma_collect_inv_extend_entries(
    store: UbtStore,
    fv: Option<Seq<u8>>,
    e0: Seq<StorageEntry>,
    cur: Seq<StorageEntry>,
    i: int,
    addr: Seq<u8>,
)
    requires
        store.wf(),
        0 <= i < store.stems@.len(),
        collect_inv_entries(store, fv, e0, i),
        store.address_of(store.stems@[i].0@) matches Some(a) && a@ == addr,
        filter_pass(fv, addr),
        addr.len() == ADDRESS_LEN,
        cur.len() == e0.len() + store.stems@[i].1.values@.len(),
        forall|p: int| 0 <= p < e0.len() ==> (#[trigger] cur[p]) == e0[p],
        forall|q: int|
            0 <= q < store.stems@[i].1.values@.len() ==> {
                let e = #[trigger] cur[e0.len() + q];
                &&& e.wf()
                &&& e.address@ == addr
                &&& e.tree_index@ == store.stems@[i].0@.push(store.stems@[i].1.values@[q].0)
                &&& e.value@ == store.stems@[i].1.values@[q].1@
            },
        entries_sorted(cur),
    ensures
        collect_inv_entries(store, fv, cur, i + 1),
{
    let k = store.stems@[i].0@;
    let node = store.stems@[i].1;
    lemma_stem_get_at(store.stems@, i);
    assert forall|p: int| 0 <= p < cur.len() implies (#[trigger] cur[p]).wf() by {
        if p < e0.len() {
            assert(cur[p] == e0[p]);
        } else {
            let q = p - e0.len();
            assert((#[trigger] cur[e0.len() + q]).wf());
        }
    }
    // the new entries agree with the store
    assert forall|p: int|
        0 <= p < cur.len() implies entry_matches_store(store, fv, #[trigger] cur[p]) by {
        if p < e0.len() {
            assert(cur[p] == e0[p]);
            assert(entry_matches_store(store, fv, e0[p]));
        } else {
            let q = p - e0.len();
            assert((#[trigger] cur[e0.len() + q]).tree_index@ == k.push(node.values@[q].0));
            lemma_sub_get_at(node.values@, q);
            assert(cur[p].tree_index@.subrange(0, 31) =~= k);
            assert(cur[p].tree_index@[31] == node.values@[q].0);
        }
    }
    // provenance: each entry's stem is a processed stem
    assert forall|p: int|
        0 <= p < cur.len() implies stem_seen(
        store,
        (#[trigger] cur[p]).tree_index@.subrange(0, 31),
        i + 1,
    ) by {
        if p < e0.len() {
            assert(cur[p] == e0[p]);
            assert(stem_seen(store, e0[p].tree_index@.subrange(0, 31), i));
            lemma_stem_seen_mono(store, e0[p].tree_index@.subrange(0, 31), i, i + 1);
        } else {
            let q = p - e0.len();
            assert((#[trigger] cur[e0.len() + q]).tree_index@ == k.push(node.values@[q].0));
            assert(cur[p].tree_index@.subrange(0, 31) =~= k);
            assert(0 <= i < i + 1 && cur[p].tree_index@.subrange(0, 31) == store.stems@[i].0@);
        }
    }
    // completeness up to and including this stem
    assert forall|j: int, sub: u8|
        #![trigger store.stems@[j].1.value_of(sub)]
        (0 <= j < i + 1 && store.stems@[j].1.value_of(sub) is Some && (store.address_of(
            store.stems@[j].0@,
        ) matches Some(a) && filter_pass(fv, a@))) implies entry_emitted(
        cur,
        store.stems@[j].0@.push(sub),
    ) by {
        if j < i {
            assert(entry_emitted(e0, store.stems@[j].0@.push(sub)));
            let p = choose|p: int|
                #![trigger e0[p]]
                0 <= p < e0.len() && e0[p].tree_index@ == store.stems@[j].0@.push(sub);
            assert(cur[p] == e0[p]);
            assert(0 <= p < cur.len() && cur[p].tree_index@ == store.stems@[j].0@.push(sub));
        } else {
            crate::types::lemma_sub_get_some_position(node.values@, sub);
            let q = choose|q: int|
                0 <= q < node.values@.len() && (#[trigger] node.values@[q]).0 == sub
                    && crate::types::sub_get(node.values@, sub) == Some(node.values@[q].1@);
            assert((#[trigger] cur[e0.len() + q]).tree_index@ == k.push(node.values@[q].0));
            assert(0 <= e0.len() + q < cur.len() && cur[e0.len() + q].tree_index@
                == store.stems@[j].0@.push(sub));
        }
    }
}

/// The facts one emit step leaves behind, shared by the offset lemmas:
/// the step appended one offset naming the new stem and the new stem's
/// entries after the old ones.
pub open spec fn emit_step_shape(
    store: UbtStore,
    e0: Seq<StorageEntry>,
    cur: Seq<StorageEntry>,
    o0: Seq<(Stem, u64)>,
    offsets: Seq<(Stem, u64)>,
    i: int,
) -> bool {
    &&& 0 <= i < store.stems@.len()
    &&& store.stems@[i].1.values@.len() > 0
    &&& offsets.len() == o0.len() + 1
    &&& forall|jo: int| 0 <= jo < o0.len() ==> (#[trigger] offsets[jo]) == o0[jo]
    &&& offsets[o0.len() as int].0@ == store.stems@[i].0@
    &&& offsets[o0.len() as int].0.wf()
    &&& offsets[o0.len() as int].1 == e0.len()
    &&& cur.len() == e0.len() + store.stems@[i].1.values@.len()
    &&& forall|p: int| 0 <= p < e0.len() ==> (#[trigger] cur[p]) == e0[p]
    &&& forall|q: int|
        0 <= q < store.stems@[i].1.values@.len() ==> (#[trigger] cur[e0.len() + q]).tree_index@
            == store.stems@[i].0@.push(store.stems@[i].1.values@[q].0)
}

proof fn lemma_offsets_step_first_entries(
    store: UbtStore,
    e0: Seq<StorageEntry>,
    cur: Seq<StorageEntry>,
    o0: Seq<(Stem, u64)>,
    offsets: Seq<(Stem, u64)>,
    i: int,
)
    requires
        store.wf(),
        emit_step_shape(store, e0, cur, o0, offsets, i),
        0 <= i,
        forall|p: int|
            0 <= p < e0.len() ==> stem_seen(
                store,
                (#[trigger] e0[p]).tree_index@.subrange(0, 31),
                i,
            ),
        forall|jo: int|
            0 <= jo < o0.len() ==> (#[trigger] o0[jo]).0.wf() && o0[jo].1 < e0.len(),
        forall|jo: int|
            0 <= jo < o0.len() ==> {
                let off = (#[trigger] o0[jo]).1 as int;
                &&& e0[off].tree_index@.subrange(0, 31) == o0[jo].0@
                &&& (off == 0 || e0[off - 1].tree_index@.subrange(0, 31) != o0[jo].0@)
            },
    ensures
        forall|jo: int|
            0 <= jo < offsets.len() ==> (#[trigger] offsets[jo]).0.wf() && offsets[jo].1
                < cur.len(),
        forall|jo: int|
            0 <= jo < offsets.len() ==> {
                let off = (#[trigger] offsets[jo]).1 as int;
                &&& cur[off].tree_index@.subrange(0, 31) == offsets[jo].0@
                &&& (off == 0 || cur[off - 1].tree_index@.subrange(0, 31) != offsets[jo].0@)
            },
{
    let k = store.stems@[i].0@;
    let node = store.stems@[i].1;
    assert((#[trigger] cur[e0.len() as int + 0]).tree_index@ == k.push(node.values@[0].0));
    assert(cur[e0.len() as int].tree_index@.subrange(0, 31) =~= k);
    if e0.len() > 0 {
        assert(stem_seen(store, e0[e0.len() - 1].tree_index@.subrange(0, 31), i));
        let j = choose|j: int|
            #![trigger store.stems@[j]]
            0 <= j < i && e0[e0.len() - 1].tree_index@.subrange(0, 31) == store.stems@[j].0@;
        assert(lex_lt(store.stems@[j].0@, k));
        assert(cur[e0.len() - 1] == e0[e0.len() - 1]);
        assert(cur[e0.len() - 1].tree_index@.subrange(0, 31) != k) by {
            if store.stems@[j].0@ == k {
                crate::bytes::lemma_lex_irrefl(k);
            }
        }
    }
    assert forall|jo: int|
        0 <= jo < offsets.len() implies {
        let off = (#[trigger] offsets[jo]).1 as int;
        &&& offsets[jo].0.wf()
        &&& off < cur.len()
        &&& cur[off].tree_index@.subrange(0, 31) == offsets[jo].0@
        &&& (off == 0 || cur[off - 1].tree_index@.subrange(0, 31) != offsets[jo].0@)
    } by {
        if jo < o0.len() {
            assert(offsets[jo] == o0[jo]);
            let off = o0[jo].1 as int;
            assert(cur[off] == e0[off]);
            if off > 0 {
                assert(cur[off - 1] == e0[off - 1]);
            }
        }
    }
}

proof fn lemma_offsets_step_ascending(
    store: UbtStore,
    e0: Seq<StorageEntry>,
    cur: Seq<StorageEntry>,
    o0: Seq<(Stem, u64)>,
    offsets: Seq<(Stem, u64)>,
    i: int,
)
    requires
        store.wf(),
        emit_step_shape(store, e0, cur, o0, offsets, i),
        0 <= i,
        forall|j1: int, j2: int|
            0 <= j1 < j2 < o0.len() ==> lex_lt((#[trigger] o0[j1]).0@, (#[trigger] o0[j2]).0@),
        forall|jo: int| 0 <= jo < o0.len() ==> stem_seen(store, (#[trigger] o0[jo]).0@, i),
    ensures
        forall|j1: int, j2: int|
            0 <= j1 < j2 < offsets.len() ==> lex_lt(
                (#[trigger] offsets[j1]).0@,
                (#[trigger] offsets[j2]).0@,
            ),
        forall|jo: int|
            0 <= jo < offsets.len() ==> stem_seen(store, (#[trigger] offsets[jo]).0@, i + 1),
{
    assert forall|j1: int, j2: int|
        0 <= j1 < j2 < offsets.len() implies lex_lt(
        (#[trigger] offsets[j1]).0@,
        (#[trigger] offsets[j2]).0@,
    ) by {
        if j2 == o0.len() {
            assert(offsets[j1] == o0[j1]);
            assert(stem_seen(store, o0[j1].0@, i));
            let j = choose|j: int|
                #![trigger store.stems@[j]]
                0 <= j < i && o0[j1].0@ == store.stems@[j].0@;
            assert(lex_lt(store.stems@[j].0@, store.stems@[i].0@));
        } else {
            assert(offsets[j1] == o0[j1] && offsets[j2] == o0[j2]);
        }
    }
    assert forall|jo: int|
        0 <= jo < offsets.len() implies stem_seen(store, (#[trigger] offsets[jo]).0@, i + 1) by {
        if jo < o0.len() {
            assert(offsets[jo] == o0[jo]);
            assert(stem_seen(store, o0[jo].0@, i));
            lemma_stem_seen_mono(store, o0[jo].0@, i, i + 1);
        } else {
            assert(0 <= i < i + 1 && offsets[jo].0@ == store.stems@[i].0@);
        }
    }
}

proof fn lemma_offsets_step_cover(
    store: UbtStore,
    e0: Seq<StorageEntry>,
    cur: Seq<StorageEntry>,
    o0: Seq<(Stem, u64)>,
    offsets: Seq<(Stem, u64)>,
    i: int,
)
    requires
        store.wf(),
        emit_step_shape(store, e0, cur, o0, offsets, i),
        forall|p: int|
            0 <= p < e0.len() ==> stem_offset_listed(
                o0,
                (#[trigger] e0[p]).tree_index@.subrange(0, 31),
            ),
    ensures
        forall|p: int|
            0 <= p < cur.len() ==> stem_offset_listed(
                offsets,
                (#[trigger] cur[p]).tree_index@.subrange(0, 31),
            ),
{
    let k = store.stems@[i].0@;
    let node = store.stems@[i].1;
    assert forall|p: int|
        0 <= p < cur.len() implies stem_offset_listed(
        offsets,
        (#[trigger] cur[p]).tree_index@.subrange(0, 31),
    ) by {
        if p < e0.len() {
            assert(cur[p] == e0[p]);
            assert(stem_offset_listed(o0, e0[p].tree_index@.subrange(0, 31)));
            let jo = choose|jo: int|
                #![trigger o0[jo]]
                0 <= jo < o0.len() && o0[jo].0@ == e0[p].tree_index@.subrange(0, 31);
            assert(offsets[jo] == o0[jo]);
            assert(0 <= jo < offsets.len() && offsets[jo].0@ == cur[p].tree_index@.subrange(
                0,
                31,
            ));
        } else {
            let q = p - e0.len();
            assert((#[trigger] cur[e0.len() + q]).tree_index@ == k.push(node.values@[q].0));
            assert(cur[p].tree_index@.subrange(0, 31) =~= k);
            let jo = o0.len() as int;
            assert(0 <= jo < offsets.len() && offsets[jo].0@ == cur[p].tree_index@.subrange(
                0,
                31,
            ));
        }
    }
}

/// Emitting one populated stem's offset record extends the offsets
/// invariant by one stem.
proof fn lemma_collect_inv_extend_offsets(
    store: UbtStore,
    fv: Option<Seq<u8>>,
    e0: Seq<StorageEntry>,
    cur: Seq<StorageEntry>,
    o0: Seq<(Stem, u64)>,
    offsets: Seq<(Stem, u64)>,
    i: int,
)
    requires
        store.wf(),
        collect_inv_entries(store, fv, e0, i),
        collect_inv_offsets(store, e0, o0, i),
        emit_step_shape(store, e0, cur, o0, offsets, i),
    ensures
        collect_inv_offsets(store, cur, offsets, i + 1),
{
    lemma_offsets_step_first_entries(store, e0, cur, o0, offsets, i);
    lemma_offsets_step_ascending(store, e0, cur, o0, offsets, i);
    lemma_offsets_step_cover(store, e0, cur, o0, offsets, i);
}

/// Collect the entries of a full or per-contract export from the primary
/// store: one entry per populated leaf whose stem's address passes the
/// filter, strictly ascending by tree index, together with the offset of
/// each stem's first entry. Fails, naming the count, if any stem lacks an
/// address mapping.
pub fn collect_store_entries(store: &UbtStore, filter: Option<&Vec<u8>>) -> (r: Result<
    (Vec<StorageEntry>, Vec<(Stem, u64)>),
    UbtError,
>)
    requires
        store.wf(),
    ensures
        match r {
            Ok((entries, offsets)) => {
                &&& forall|j: int|
                    0 <= j < store.stems@.len() ==> store.address_of(
                        (#[trigger] store.stems@[j]).0@,
                    ) is Some
                &&& collect_inv(
                    *store,
                    filter_of(filter),
                    entries@,
                    offsets@,
                    store.stems@.len() as int,
                )
            },
            Err(e) => {
                &&& e matches UbtError::MissingAddresses { count } && count as int
                    == missing_count(*store, store.stems@.len() as int) && count > 0
                &&& exists|j: int|
                    0 <= j < store.stems@.len() && store.address_of(
                        (#[trigger] store.stems@[j]).0@,
                    ) is None
            },
        },
{
    let ghost fv = filter_of(filter);
    let mut entries: Vec<StorageEntry> = Vec::new();
    let mut offsets: Vec<(Stem, u64)> = Vec::new();
    let mut missing: u64 = 0;
    let ns = store.iter_stems().len();
    let mut i: usize = 0;
    while i < ns
        invariant
            store.wf(),
            fv == filter_of(filter),
            ns == store.stems@.len(),
            0 <= i <= ns,
            missing as int == missing_count(*store, i as int),
            missing <= i,
            collect_inv(*store, fv, entries@, offsets@, i as int),
        decreases ns - i,
    {
        let was_missing = collect_step(store, filter, &mut entries, &mut offsets, i);
        if was_missing {
            missing = missing + 1;
        }
        i = i + 1;
    }
    if missing > 0 {
        proof {
            lemma_missing_nonzero(*store, ns as int);
        }
        return Err(UbtError::MissingAddresses { count: missing });
    }
    proof {
        lemma_missing_zero(*store, ns as int);
    }
    Ok((entries, offsets))
}

/// The state file body: the header, then the entries in order.
pub fn serialize_state(header: &StateHeader, entries: &Vec<StorageEntry>) -> (r: Vec<u8>)
    requires
        header.wf(),
        forall|p: int| 0 <= p < entries@.len() ==> (#[trigger] entries@[p]).wf(),
    ensures
        r@ == header.spec_bytes() + entries_bytes(entries@, entries@.len() as int),
        r@.len() == STATE_HEADER_SIZE + STATE_ENTRY_SIZE * entries@.len(),
{
    let mut r = header.to_bytes();
    let n = entries.len();
    let mut i: usize = 0;
    while i < n
        invariant
            header.wf(),
            forall|p: int| 0 <= p < entries@.len() ==> (#[trigger] entries@[p]).wf(),
            n == entries@.len(),
            0 <= i <= n,
            r@ == header.spec_bytes() + entries_bytes(entries@, i as int),
            r@.len() == STATE_HEADER_SIZE + STATE_ENTRY_SIZE * i,
        decreases n - i,
    {
        let mut e = entries[i].to_bytes();
        r.append(&mut e);
        proof {
            assert(r@ =~= header.spec_bytes() + entries_bytes(entries@, i + 1));
        }
        i = i + 1;
    }
    r
}

/// The stem index file body: the stem count, then the 39-byte records.
pub fn serialize_stem_index(offsets: &Vec<(Stem, u64)>) -> (r: Vec<u8>)
    requires
        forall|j: int| 0 <= j < offsets@.len() ==> (#[trigger] offsets@[j]).0.wf(),
    ensures
        r@ == spec_u64_to_le_bytes(offsets@.len() as u64) + offsets_bytes(
            offsets@,
            offsets@.len() as int,
        ),
        r@.len() == 8 + STEM_INDEX_ENTRY_SIZE * offsets@.len(),
{
    proof {
        lemma_auto_spec_u64_to_from_le_bytes();
    }
    let n = offsets.len();
    let mut r = u64_to_le_bytes(n as u64);
    let mut i: usize = 0;
    while i < n
        invariant
            forall|j: int| 0 <= j < offsets@.len() ==> (#[trigger] offsets@[j]).0.wf(),
            n == offsets@.len(),
            0 <= i <= n,
            r@ == spec_u64_to_le_bytes(n as u64) + offsets_bytes(offsets@, i as int),
            r@.len() == 8 + STEM_INDEX_ENTRY_SIZE * i,
        decreases n - i,
    {
        let mut rec = stem_index_record_bytes(&offsets[i].0, offsets[i].1);
        r.append(&mut rec);
        proof {
            assert(r@ =~= spec_u64_to_le_bytes(n as u64) + offsets_bytes(offsets@, i + 1));
        }
        i = i + 1;
    }
    r
}

/// The exact bytes of a state file header with the canonical magic, version
/// and entry size.
pub open spec fn spec_header_bytes(
    entry_count: u64,
    block_number: u64,
    chain_id: u64,
    block_hash: Seq<u8>,
) -> Seq<u8> {
    crate::codec::spec_magic() + vstd::bytes::spec_u16_to_le_bytes(crate::codec::STATE_VERSION)
        + vstd::bytes::spec_u16_to_le_bytes(STATE_ENTRY_SIZE as u16) + spec_u64_to_le_bytes(
        entry_count,
    ) + spec_u64_to_le_bytes(block_number) + spec_u64_to_le_bytes(chain_id) + block_hash
}

/// What an export run reports: the head it snapshotted, how much it wrote,
/// and the names of the two files within the output directory.
#[derive(Debug)]
pub struct ExportResult {
    pub block_number: u64,
    pub block_hash: Vec<u8>,
    pub root: Vec<u8>,
    pub entry_count: u64,
    pub stem_count: u64,
    pub state_file: String,
    pub stem_index_file: String,
}

/// An export, ready to stream: the report and the exact bytes of the state
/// file and its companion stem index file.
#[derive(Debug)]
pub struct ExportBundle {
    pub result: ExportResult,
    pub state_bytes: Vec<u8>,
    pub stem_index_bytes: Vec<u8>,
}

/// The bytes of `b` are a well-formed snapshot of `store` under `fv`: the
/// state file is the header followed by the collected entries, the stem
/// index is the count followed by the offset records.
pub open spec fn bundle_matches(
    b: ExportBundle,
    store: UbtStore,
    fv: Option<Seq<u8>>,
    chain_id: u64,
) -> bool {
    exists|entries: Seq<StorageEntry>, offsets: Seq<(Stem, u64)>|
        {
            &&& #[trigger] collect_inv(store, fv, entries, offsets, store.stems@.len() as int)
            &&& b.result.entry_count == entries.len()
            &&& b.result.stem_count == offsets.len()
            &&& b.state_bytes@ == spec_header_bytes(
                b.result.entry_count,
                b.result.block_number,
                chain_id,
                b.result.block_hash@,
            ) + entries_bytes(entries, entries.len() as int)
            &&& b.state_bytes@.len() == STATE_HEADER_SIZE + STATE_ENTRY_SIZE * entries.len()
            &&& b.stem_index_bytes@ == spec_u64_to_le_bytes(b.result.stem_count) + offsets_bytes(
                offsets,
                offsets.len() as int,
            )
            &&& b.stem_index_bytes@.len() == 8 + STEM_INDEX_ENTRY_SIZE * offsets.len()
        }
}

/// Build the two files of an export from a head, a chain id and collected
/// entries and offsets.
fn build_bundle(
    head: crate::key_index::HeadRecord,
    chain_id: u64,
    entries: Vec<StorageEntry>,
    offsets: Vec<(Stem, u64)>,
    state_file: String,
    stem_index_file: String,
) -> (b: ExportBundle)
    requires
        head.wf(),
        forall|p: int| 0 <= p < entries@.len() ==> (#[trigger] entries@[p]).wf(),
        forall|jo: int| 0 <= jo < offsets@.len() ==> (#[trigger] offsets@[jo]).0.wf(),
    ensures
        b.result.block_number == head.block_number,
        b.result.block_hash@ == head.block_hash@,
        b.result.root@ == head.root@,
        b.result.entry_count == entries@.len(),
        b.result.stem_count == offsets@.len(),
        b.result.state_file@ == state_file@,
        b.result.stem_index_file@ == stem_index_file@,
        b.state_bytes@ == spec_header_bytes(
            entries@.len() as u64,
            head.block_number,
            chain_id,
            head.block_hash@,
        ) + entries_bytes(entries@, entries@.len() as int),
        b.state_bytes@.len() == STATE_HEADER_SIZE + STATE_ENTRY_SIZE * entries@.len(),
        b.stem_index_bytes@ == spec_u64_to_le_bytes(offsets@.len() as u64) + offsets_bytes(
            offsets@,
            offsets@.len() as int,
        ),
        b.stem_index_bytes@.len() == 8 + STEM_INDEX_ENTRY_SIZE * offsets@.len(),
{
    let entry_count = entries.len() as u64;
    let stem_count = offsets.len() as u64;
    let header = StateHeader::new(
        entry_count,
        head.block_number,
        chain_id,
        crate::bytes::clone_bytes(&head.block_hash),
    );
    let state_bytes = serialize_state(&header, &entries);
    proof {
        assert(header.spec_bytes() =~= spec_header_bytes(
            entry_count,
            head.block_number,
            chain_id,
            head.block_hash@,
        ));
    }
    let stem_index_bytes = serialize_stem_index(&offsets);
    ExportBundle {
        result: ExportResult {
            block_number: head.block_number,
            block_hash: head.block_hash,
            root: head.root,
            entry_count,
            stem_count,
            state_file,
            stem_index_file,
        },
        state_bytes,
        stem_index_bytes,
    }
}

/// Export the full state of the primary store as a snapshot named
/// `state.bin` with its `stem-index.bin` companion. Fails if no head exists
/// yet or any stem lacks an address mapping.
pub fn export_full_state(store: &UbtStore, chain_id: u64) -> (r: Result<ExportBundle, UbtError>)
    requires
        store.wf(),
    ensures
        match r {
            Ok(b) => {
                &&& store.head matches Some(h) && b.result.block_number == h.block_number
                    && b.result.block_hash@ == h.block_hash@ && b.result.root@ == h.root@
                &&& b.result.state_file@ == "state.bin"@
                &&& b.result.stem_index_file@ == "stem-index.bin"@
                &&& missing_count(*store, store.stems@.len() as int) == 0
                &&& bundle_matches(b, *store, None::<Seq<u8>>, chain_id)
            },
            Err(e) => match e {
                UbtError::NoCanonicalState => store.head is None,
                UbtError::MissingAddresses { count } => store.head is Some && count as int
                    == missing_count(*store, store.stems@.len() as int) && count > 0,
                _ => false,
            },
        },
{
    let head = match store.load_head() {
        Some(h) => h,
        None => {
            return Err(UbtError::NoCanonicalState);
        },
    };
    let (entries, offsets) = match collect_store_entries(store, None) {
        Ok(pair) => pair,
        Err(e) => {
            return Err(e);
        },
    };
    let ghost ge = entries@;
    let ghost go = offsets@;
    let b = build_bundle(
        head,
        chain_id,
        entries,
        offsets,
        crate::names::state_file_name(),
        crate::names::stem_index_file_name(),
    );
    proof {
        assert(collect_inv(*store, None::<Seq<u8>>, ge, go, store.stems@.len() as int));
        assert(bundle_matches(b, *store, None::<Seq<u8>>, chain_id));
        lemma_missing_zero_inverse(*store, store.stems@.len() as int);
    }
    Ok(b)
}

/// Export one contract's state as a snapshot named after its checksummed
/// address. Fails if no head exists yet or any stem lacks an address
/// mapping.
pub fn export_contract_state(store: &UbtStore, contract: &Vec<u8>, chain_id: u64) -> (r: Result<
    ExportBundle,
    UbtError,
>)
    requires
        store.wf(),
        contract@.len() == ADDRESS_LEN,
    ensures
        match r {
            Ok(b) => {
                &&& store.head matches Some(h) && b.result.block_number == h.block_number
                    && b.result.block_hash@ == h.block_hash@ && b.result.root@ == h.root@
                &&& b.result.state_file@ == "contract-"@ + crate::names::checksum_display_of(
                    contract@,
                ) + ".bin"@
                &&& b.result.stem_index_file@ == "contract-"@ + crate::names::checksum_display_of(
                    contract@,
                ) + "-stem-index.bin"@
                &&& missing_count(*store, store.stems@.len() as int) == 0
                &&& bundle_matches(b, *store, Some(contract@), chain_id)
            },
            Err(e) => match e {
                UbtError::NoCanonicalState => store.head is None,
                UbtError::MissingAddresses { count } => store.head is Some && count as int
                    == missing_count(*store, store.stems@.len() as int) && count > 0,
                _ => false,
            },
        },
{
    let head = match store.load_head() {
        Some(h) => h,
        None => {
            return Err(UbtError::NoCanonicalState);
        },
    };
    let (entries, offsets) = match collect_store_entries(store, Some(contract)) {
        Ok(pair) => pair,
        Err(e) => {
            return Err(e);
        },
    };
    let ghost ge = entries@;
    let ghost go = offsets@;
    let b = build_bundle(
        head,
        chain_id,
        entries,
        offsets,
        crate::names::contract_file_name(contract),
        crate::names::contract_stem_index_file_name(contract),
    );
    proof {
        assert(collect_inv(*store, Some(contract@), ge, go, store.stems@.len() as int));
        assert(bundle_matches(b, *store, Some(contract@), chain_id));
        lemma_missing_zero_inverse(*store, store.stems@.len() as int);
    }
    Ok(b)
}

/// Law: in a sorted export, each stem's entries are contiguous — any entry
/// standing between two entries of one stem belongs to that stem too.
pub proof fn lemma_sorted_entries_contiguous(es: Seq<StorageEntry>, p: int, q: int, r: int)
    requires
        entries_sorted(es),
        forall|t: int| 0 <= t < es.len() ==> (#[trigger] es[t]).wf(),
        0 <= p < q < r < es.len(),
        es[p].tree_index@.subrange(0, 31) == es[r].tree_index@.subrange(0, 31),
    ensures
        es[q].tree_index@.subrange(0, 31) == es[p].tree_index@.subrange(0, 31),
{
    let a = es[p].tree_index@;
    let b = es[q].tree_index@;
    let c = es[r].tree_index@;
    assert(a.take(31) =~= a.subrange(0, 31));
    assert(b.take(31) =~= b.subrange(0, 31));
    assert(c.take(31) =~= c.subrange(0, 31));
    crate::bytes::lemma_lex_take(a, b, 31);
    crate::bytes::lemma_lex_take(b, c, 31);
    if a.take(31) != b.take(31) {
        assert(lex_lt(a.take(31), b.take(31)));
        if b.take(31) == c.take(31) {
            assert(lex_lt(a.take(31), a.take(31)));
            crate::bytes::lemma_lex_irrefl(a.take(31));
        } else {
            assert(lex_lt(b.take(31), c.take(31)));
            crate::bytes::lemma_lex_trans(a.take(31), b.take(31), c.take(31));
            crate::bytes::lemma_lex_irrefl(a.take(31));
        }
    }
}

} // verus!
