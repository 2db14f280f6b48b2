//! Incremental delta exports: the set of leaves touched over a closed block
//! range, deduplicated and sorted, each resolved to its current value, in
//! the same file format as a full snapshot.

use vstd::prelude::*;
use crate::bytes::{bytes_eq, bytes_lt, clone_bytes, lemma_lex_push_cases, lex_lt};
use crate::codec::{tree_index_from_key, StateHeader, StorageEntry, STATE_ENTRY_SIZE, STATE_HEADER_SIZE};
use crate::error::UbtError;
use crate::export::{entries_bytes, entries_sorted, serialize_state, spec_header_bytes};
use crate::names::{delta_file_name, spec_decimal};
use crate::store::{delta_get, DeltaEntry, UbtStore};
use crate::types::{Stem, TreeKey};

verus! {

/// The 32-byte tree index a touched key denotes.
pub open spec fn tkey_view(t: (Stem, u8)) -> Seq<u8> {
    t.0@.push(t.1)
}

/// Touched keys strictly ascending by tree index.
pub open spec fn tkeys_sorted(s: Seq<(Stem, u8)>) -> bool {
    forall|p: int, q: int|
        0 <= p < q < s.len() ==> lex_lt(tkey_view(#[trigger] s[p]), tkey_view(#[trigger] s[q]))
}

pub open spec fn tkeys_wf(s: Seq<(Stem, u8)>) -> bool {
    forall|p: int| 0 <= p < s.len() ==> (#[trigger] s[p]).0.wf()
}

/// The key list holds (k, s).
pub open spec fn tkey_listed(s: Seq<(Stem, u8)>, k: Seq<u8>, sub: u8) -> bool {
    exists|p: int| #![trigger s[p]] 0 <= p < s.len() && s[p].0@ == k && s[p].1 == sub
}

/// Some recorded pre-image of this list names leaf (k, sub).
pub open spec fn delta_names(es: Seq<DeltaEntry>, k: Seq<u8>, sub: u8) -> bool {
    exists|i: int| #![trigger es[i]] 0 <= i < es.len() && es[i].0@ == k && es[i].1 == sub
}

/// Some block in `[lo, hi]` recorded a pre-image for leaf (k, sub).
pub open spec fn touched_range(store: UbtStore, lo: int, hi: int, k: Seq<u8>, sub: u8) -> bool {
    exists|b: u64|
        #![trigger delta_get(store.deltas@, b)]
        lo <= b <= hi && match delta_get(store.deltas@, b) {
            Some(es) => delta_names(es@, k, sub),
            None => false,
        }
}

/// The all-zero 32-byte value, substituted for leaves no longer present.
pub open spec fn zero_value() -> Seq<u8> {
    Seq::new(32, |i: int| 0u8)
}

pub fn zero_value_vec() -> (r: Vec<u8>)
    ensures
        r@ == zero_value(),
{
    let mut r: Vec<u8> = Vec::new();
    let mut i: usize = 0;
    while i < 32
        invariant
            0 <= i <= 32,
            r@.len() == i,
            forall|j: int| 0 <= j < i ==> r@[j] == 0u8,
        decreases 32 - i,
    {
        r.push(0);
        i = i + 1;
    }
    proof {
        assert(r@ =~= zero_value());
    }
    r
}

/// Whether one touched key sorts before another.
fn tkey_lt(a_stem: &Stem, a_sub: u8, b_stem: &Stem, b_sub: u8) -> (r: bool)
    requires
        a_stem.wf(),
        b_stem.wf(),
    ensures
        r == lex_lt(a_stem@.push(a_sub), b_stem@.push(b_sub)),
{
    proof {
        lemma_lex_push_cases(a_stem@, b_stem@, a_sub, b_sub);
    }
    if bytes_lt(a_stem.as_bytes(), b_stem.as_bytes()) {
        true
    } else if bytes_eq(a_stem.as_bytes(), b_stem.as_bytes()) {
        a_sub < b_sub
    } else {
        false
    }
}

/// Insert a touched key, keeping the list sorted and duplicate-free.
fn tkey_insert(keys: &mut Vec<(Stem, u8)>, stem: &Stem, sub: u8)
    requires
        tkeys_sorted(old(keys)@),
        tkeys_wf(old(keys)@),
        stem.wf(),
    ensures
        tkeys_sorted(final(keys)@),
        tkeys_wf(final(keys)@),
        forall|k: Seq<u8>, s: u8|
            #![trigger tkey_listed(final(keys)@, k, s)]
            tkey_listed(final(keys)@, k, s) <==> (tkey_listed(old(keys)@, k, s) || (k == stem@ && s
                == sub)),
{
    let ghost s0 = keys@;
    let ghost newv = stem@.push(sub);
    let n = keys.len();
    let mut i: usize = 0;
    while i < n && tkey_lt(&keys[i].0, keys[i].1, stem, sub)
        invariant
            tkeys_sorted(keys@),
            tkeys_wf(keys@),
            keys@ == s0,
            stem.wf(),
            newv == stem@.push(sub),
            n == keys@.len(),
            0 <= i <= n,
            forall|j: int| 0 <= j < i ==> lex_lt(tkey_view(#[trigger] keys@[j]), newv),
        decreases n - i,
    {
        i = i + 1;
    }
    if i < n && bytes_eq(keys[i].0.as_bytes(), stem.as_bytes()) && keys[i].1 == sub {
        // already listed
        proof {
            assert(s0[i as int].0@ == stem@ && s0[i as int].1 == sub);
            assert forall|k: Seq<u8>, s: u8|
                #![trigger tkey_listed(keys@, k, s)]
                tkey_listed(keys@, k, s) <==> (tkey_listed(s0, k, s) || (k == stem@ && s
                    == sub)) by {
                if k == stem@ && s == sub {
                    assert(s0[i as int].0@ == k && s0[i as int].1 == s);
                    assert(tkey_listed(s0, k, s));
                }
            }
        }
        return ;
    }
    proof {
        // everything at or after position i is larger than the new key
        assert forall|j: int| i <= j < s0.len() implies lex_lt(newv, tkey_view(#[trigger] s0[j]))
            by {
            let cv = tkey_view(s0[i as int]);
            lemma_lex_push_cases(s0[i as int].0@, stem@, s0[i as int].1, sub);
            lemma_lex_push_cases(stem@, s0[i as int].0@, sub, s0[i as int].1);
            crate::bytes::lemma_lex_trichotomy(s0[i as int].0@, stem@);
            assert(lex_lt(newv, cv));
            if j > i {
                crate::bytes::lemma_lex_trans(newv, cv, tkey_view(s0[j]));
            }
        }
    }
    let new_pair = (stem.duplicate(), sub);
    let ghost gpair = new_pair;
    keys.insert(i, new_pair);
    proof {
        let s1 = keys@;
        assert(tkey_view(gpair) == newv);
        assert forall|p: int, q: int|
            0 <= p < q < s1.len() implies lex_lt(
            tkey_view(#[trigger] s1[p]),
            tkey_view(#[trigger] s1[q]),
        ) by {
            if p < i && q > i {
                assert(s1[p] == s0[p] && s1[q] == s0[q - 1]);
            } else if q == i {
                assert(s1[p] == s0[p]);
            } else if p == i && q > i {
                assert(s1[q] == s0[q - 1]);
            } else if p > i {
                assert(s1[p] == s0[p - 1] && s1[q] == s0[q - 1]);
            }
        }
        assert forall|p: int| 0 <= p < s1.len() implies (#[trigger] s1[p]).0.wf() by {
            if p < i {
                assert(s1[p] == s0[p]);
            } else if p > i {
                assert(s1[p] == s0[p - 1]);
            }
        }
        assert forall|k: Seq<u8>, s: u8|
            #![trigger tkey_listed(s1, k, s)]
            tkey_listed(s1, k, s) <==> (tkey_listed(s0, k, s) || (k == stem@ && s == sub)) by {
            if tkey_listed(s1, k, s) {
                let p = choose|p: int| #![trigger s1[p]] 0 <= p < s1.len() && s1[p].0@ == k
                    && s1[p].1 == s;
                if p < i {
                    assert(s0[p] == s1[p]);
                    assert(tkey_listed(s0, k, s));
                } else if p > i {
                    assert(s0[p - 1] == s1[p]);
                    assert(tkey_listed(s0, k, s));
                }
            }
            if tkey_listed(s0, k, s) {
                let p = choose|p: int| #![trigger s0[p]] 0 <= p < s0.len() && s0[p].0@ == k
                    && s0[p].1 == s;
                if p < i {
                    assert(s1[p] == s0[p]);
                    assert(tkey_listed(s1, k, s));
                } else {
                    assert(s1[p + 1] == s0[p]);
                    assert(tkey_listed(s1, k, s));
                }
            }
            if k == stem@ && s == sub {
                assert(s1[i as int] == gpair);
                assert(tkey_listed(s1, k, s));
            }
        }
    }
}

/// Extending the processed range by one block touches exactly the leaves
/// named by that block's recorded pre-images.
proof fn lemma_touched_extend(store: UbtStore, lo: int, b: u64, k: Seq<u8>, sub: u8)
    requires
        lo <= b as int,
    ensures
        touched_range(store, lo, b as int, k, sub) <==> (touched_range(
            store,
            lo,
            b as int - 1,
            k,
            sub,
        ) || match delta_get(store.deltas@, b) {
            Some(es) => delta_names(es@, k, sub),
            None => false,
        }),
{
    if touched_range(store, lo, b as int, k, sub) {
        let bb = choose|bb: u64|
            #![trigger delta_get(store.deltas@, bb)]
            lo <= bb <= b as int && match delta_get(store.deltas@, bb) {
                Some(es) => delta_names(es@, k, sub),
                None => false,
            };
        if bb < b {
            assert(touched_range(store, lo, b as int - 1, k, sub));
        }
    }
    if touched_range(store, lo, b as int - 1, k, sub) {
        let bb = choose|bb: u64|
            #![trigger delta_get(store.deltas@, bb)]
            lo <= bb <= b as int - 1 && match delta_get(store.deltas@, bb) {
                Some(es) => delta_names(es@, k, sub),
                None => false,
            };
        assert(lo <= bb <= b as int);
        assert(touched_range(store, lo, b as int, k, sub));
    }
    match delta_get(store.deltas@, b) {
        Some(es) => {
            if delta_names(es@, k, sub) {
                assert(lo <= b <= b as int);
                assert(touched_range(store, lo, b as int, k, sub));
            }
        },
        None => {},
    }
}

/// Merge one block's recorded pre-images into the touched key list.
fn collect_block_keys(store: &UbtStore, keys: &mut Vec<(Stem, u8)>, from_block: u64, b: u64)
    requires
        store.wf(),
        from_block <= b,
        tkeys_sorted(old(keys)@),
        tkeys_wf(old(keys)@),
        forall|k: Seq<u8>, s: u8|
            #![trigger tkey_listed(old(keys)@, k, s)]
            tkey_listed(old(keys)@, k, s) <==> touched_range(
                *store,
                from_block as int,
                b as int - 1,
                k,
                s,
            ),
    ensures
        tkeys_sorted(final(keys)@),
        tkeys_wf(final(keys)@),
        forall|k: Seq<u8>, s: u8|
            #![trigger tkey_listed(final(keys)@, k, s)]
            tkey_listed(final(keys)@, k, s) <==> touched_range(
                *store,
                from_block as int,
                b as int,
                k,
                s,
            ),
{
    let es = store.load_block_deltas(b);
    let ghost esv = es@;
    let m = es.len();
    let mut idx: usize = 0;
    while idx < m
        invariant
            store.wf(),
            from_block <= b,
            es@ == esv,
            m == esv.len(),
            0 <= idx <= m,
            tkeys_sorted(keys@),
            tkeys_wf(keys@),
            forall|p: int| 0 <= p < esv.len() ==> (#[trigger] esv[p]).0.wf(),
            forall|k: Seq<u8>, s: u8|
                #![trigger tkey_listed(keys@, k, s)]
                tkey_listed(keys@, k, s) <==> (touched_range(
                    *store,
                    from_block as int,
                    b as int - 1,
                    k,
                    s,
                ) || exists|p: int|
                    #![trigger esv[p]]
                    0 <= p < idx && esv[p].0@ == k && esv[p].1 == s),
        decreases m - idx,
    {
        let stem_ref = &es[idx].0;
        let sub = es[idx].1;
        let ghost k0 = keys@;
        tkey_insert(keys, stem_ref, sub);
        proof {
            assert forall|k: Seq<u8>, s: u8|
                #![trigger tkey_listed(keys@, k, s)]
                tkey_listed(keys@, k, s) <==> (touched_range(
                    *store,
                    from_block as int,
                    b as int - 1,
                    k,
                    s,
                ) || exists|p: int|
                    #![trigger esv[p]]
                    0 <= p < idx + 1 && esv[p].0@ == k && esv[p].1 == s) by {
                if tkey_listed(keys@, k, s) {
                    if !(k == esv[idx as int].0@ && s == esv[idx as int].1) {
                        assert(tkey_listed(k0, k, s));
                    } else {
                        assert(esv[idx as int].0@ == k && esv[idx as int].1 == s);
                    }
                }
                if exists|p: int| #![trigger esv[p]] 0 <= p < idx + 1 && esv[p].0@ == k && esv[p].1
                    == s {
                    let p = choose|p: int|
                        #![trigger esv[p]]
                        0 <= p < idx + 1 && esv[p].0@ == k && esv[p].1 == s;
                    if p < idx {
                        assert(tkey_listed(k0, k, s));
                    }
                }
            }
        }
        idx = idx + 1;
    }
    proof {
        // the loop processed exactly this block's pre-images
        assert forall|k: Seq<u8>, s: u8|
            #![trigger tkey_listed(keys@, k, s)]
            tkey_listed(keys@, k, s) <==> touched_range(
            *store,
            from_block as int,
            b as int,
            k,
            s,
        ) by {
            lemma_touched_extend(*store, from_block as int, b, k, s);
            // the cloned entries name the same leaves as the recorded ones
            if exists|p: int| #![trigger esv[p]] 0 <= p < idx && esv[p].0@ == k && esv[p].1 == s {
                let p = choose|p: int|
                    #![trigger esv[p]]
                    0 <= p < idx && esv[p].0@ == k && esv[p].1 == s;
                match delta_get(store.deltas@, b) {
                    Some(ds) => {
                        assert((#[trigger] ds@[p]).0@ == k && ds@[p].1 == s);
                        assert(delta_names(ds@, k, s));
                    },
                    None => {
                        assert(esv.len() == 0);
                    },
                }
            }
            match delta_get(store.deltas@, b) {
                Some(ds) => {
                    if delta_names(ds@, k, s) {
                        let p = choose|p: int|
                            #![trigger ds@[p]]
                            0 <= p < ds@.len() && ds@[p].0@ == k && ds@[p].1 == s;
                        assert((#[trigger] esv[p]).0@ == k && esv[p].1 == s);
                        assert(0 <= p < idx && esv[p].0@ == k && esv[p].1 == s);
                    }
                },
                None => {},
            }
        }
    }
}

/// Collect, deduplicated and sorted, every leaf touched by blocks in
/// `[from_block, to_block]`.
fn collect_touched_keys(store: &UbtStore, from_block: u64, to_block: u64) -> (keys: Vec<
    (Stem, u8),
>)
    requires
        store.wf(),
        from_block <= to_block,
    ensures
        tkeys_sorted(keys@),
        tkeys_wf(keys@),
        forall|k: Seq<u8>, s: u8|
            #![trigger tkey_listed(keys@, k, s)]
            tkey_listed(keys@, k, s) <==> touched_range(
                *store,
                from_block as int,
                to_block as int,
                k,
                s,
            ),
{
    let mut keys: Vec<(Stem, u8)> = Vec::new();
    proof {
        assert forall|k: Seq<u8>, s: u8|
            #![trigger tkey_listed(keys@, k, s)]
            tkey_listed(keys@, k, s) <==> touched_range(
            *store,
            from_block as int,
            from_block as int - 1,
            k,
            s,
        ) by {
            if tkey_listed(keys@, k, s) {
                let p = choose|p: int|
                    #![trigger keys@[p]]
                    0 <= p < keys@.len() && keys@[p].0@ == k && keys@[p].1 == s;
            }
            if touched_range(*store, from_block as int, from_block as int - 1, k, s) {
                let bb = choose|bb: u64|
                    #![trigger delta_get(store.deltas@, bb)]
                    from_block as int <= bb <= from_block as int - 1 && match delta_get(
                        store.deltas@,
                        bb,
                    ) {
                        Some(es) => delta_names(es@, k, s),
                        None => false,
                    };
            }
        }
    }
    let mut b = from_block;
    while b < to_block
        invariant
            store.wf(),
            from_block <= b <= to_block,
            tkeys_sorted(keys@),
            tkeys_wf(keys@),
            forall|k: Seq<u8>, s: u8|
                #![trigger tkey_listed(keys@, k, s)]
                tkey_listed(keys@, k, s) <==> touched_range(
                    *store,
                    from_block as int,
                    b as int - 1,
                    k,
                    s,
                ),
        decreases to_block - b,
    {
        collect_block_keys(store, &mut keys, from_block, b);
        b = b + 1;
    }
    collect_block_keys(store, &mut keys, from_block, to_block);
    keys
}

/// Resolve each touched key to its current value — all-zero if the leaf is
/// gone — and its stem's address. Fails, naming the count, if any touched
/// stem lacks an address mapping.
fn resolve_delta_entries(store: &UbtStore, keys: &Vec<(Stem, u8)>) -> (r: Result<
    Vec<StorageEntry>,
    UbtError,
>)
    requires
        store.wf(),
        tkeys_wf(keys@),
    ensures
        match r {
            Ok(entries) => {
                &&& entries@.len() == keys@.len()
                &&& forall|p: int|
                    0 <= p < entries@.len() ==> {
                        let e = #[trigger] entries@[p];
                        &&& e.wf()
                        &&& e.tree_index@ == tkey_view(keys@[p])
                        &&& e.value@ == (match store.spec_load_value(keys@[p].0@, keys@[p].1) {
                            Some(v) => v,
                            None => zero_value(),
                        })
                        &&& store.address_of(keys@[p].0@) matches Some(a) && a@ == e.address@
                    }
                &&& forall|p: int|
                    0 <= p < keys@.len() ==> store.address_of((#[trigger] keys@[p]).0@) is Some
            },
            Err(e) => {
                &&& e matches UbtError::MissingAddresses { count } && count > 0 && count as int
                    == missing_key_count(*store, keys@, keys@.len() as int)
                &&& exists|p: int|
                    0 <= p < keys@.len() && store.address_of((#[trigger] keys@[p]).0@) is None
            },
        },
{
    let mut entries: Vec<StorageEntry> = Vec::new();
    let mut missing: u64 = 0;
    let n = keys.len();
    let mut i: usize = 0;
    while i < n
        invariant
            store.wf(),
            tkeys_wf(keys@),
            n == keys@.len(),
            0 <= i <= n,
            missing <= i,
            missing as int == missing_key_count(*store, keys@, i as int),
            missing == 0 ==> {
                &&& entries@.len() == i
                &&& forall|p: int|
                    0 <= p < i ==> {
                        let e = #[trigger] entries@[p];
                        &&& e.wf()
                        &&& e.tree_index@ == tkey_view(keys@[p])
                        &&& e.value@ == (match store.spec_load_value(keys@[p].0@, keys@[p].1) {
                            Some(v) => v,
                            None => zero_value(),
                        })
                        &&& store.address_of(keys@[p].0@) matches Some(a) && a@ == e.address@
                    }
                &&& forall|p: int|
                    0 <= p < i ==> store.address_of((#[trigger] keys@[p]).0@) is Some
            },
            missing > 0 ==> exists|p: int|
                0 <= p < i && store.address_of((#[trigger] keys@[p]).0@) is None,
        decreases n - i,
    {
        match store.load_stem_address(&keys[i].0) {
            None => {
                missing = missing + 1;
                proof {
                    assert(store.address_of((#[trigger] keys@[i as int]).0@) is None);
                }
            },
            Some(addr) => {
                let tk = TreeKey::new(keys[i].0.duplicate(), keys[i].1);
                let value = match store.load_value(&tk) {
                    Some(v) => clone_bytes(v),
                    None => zero_value_vec(),
                };
                proof {
                    if store.spec_load_value(keys@[i as int].0@, keys@[i as int].1) is Some {
                        crate::store::lemma_loaded_value_len(
                            *store,
                            keys@[i as int].0@,
                            keys@[i as int].1,
                        );
                    }
                }
                let entry = StorageEntry {
                    address: addr,
                    tree_index: tree_index_from_key(&keys[i].0, keys[i].1),
                    value,
                };
                let ghost ents0 = entries@;
                entries.push(entry);
                proof {
                    if missing == 0 {
                        assert forall|p: int|
                            0 <= p < i + 1 implies {
                            let e = #[trigger] entries@[p];
                            &&& e.wf()
                            &&& e.tree_index@ == tkey_view(keys@[p])
                            &&& e.value@ == (match store.spec_load_value(
                                keys@[p].0@,
                                keys@[p].1,
                            ) {
                                Some(v) => v,
                                None => zero_value(),
                            })
                            &&& store.address_of(keys@[p].0@) matches Some(a) && a@ == e.address@
                        } by {
                            if p < i {
                                assert(entries@[p] == ents0[p]);
                            } else {
                                assert(entries@[p].tree_index@ == keys@[i as int].0@.push(
                                    keys@[i as int].1,
                                ));
                                assert(tkey_view(keys@[i as int]) == keys@[i as int].0@.push(
                                    keys@[i as int].1,
                                ));
                            }
                        }
                    }
                }
            },
        }
        i = i + 1;
    }
    if missing > 0 {
        return Err(UbtError::MissingAddresses { count: missing });
    }
    Ok(entries)
}

/// The lowest block a delta request may start from: the head minus the
/// retention window, clamped at the genesis block.
pub open spec fn spec_min_block(head_block: u64, delta_retention: u64) -> u64 {
    if head_block >= delta_retention {
        (head_block - delta_retention) as u64
    } else {
        0u64
    }
}

/// What a delta export reports: the range served, the head it was computed
/// at, the entry count, and the delta file's name.
#[derive(Debug)]
pub struct StateDeltaResult {
    pub from_block: u64,
    pub to_block: u64,
    pub head_block: u64,
    pub entry_count: u64,
    pub delta_file: String,
}

/// A delta export, ready to stream: the report and the exact file bytes.
#[derive(Debug)]
pub struct DeltaBundle {
    pub result: StateDeltaResult,
    pub delta_bytes: Vec<u8>,
}

/// How many of the first `n` touched keys name a stem with no recorded
/// address.
pub open spec fn missing_key_count(store: UbtStore, keys: Seq<(Stem, u8)>, n: int) -> int
    decreases n,
{
    if n <= 0 {
        0
    } else {
        missing_key_count(store, keys, n - 1) + if store.address_of(keys[n - 1].0@) is None {
            1int
        } else {
            0int
        }
    }
}

/// `keys` is the deduplicated, sorted list of exactly the leaves touched by
/// blocks in `[from_block, to_block]`.
pub open spec fn touched_keys_match(
    store: UbtStore,
    from_block: u64,
    to_block: u64,
    keys: Seq<(Stem, u8)>,
) -> bool {
    &&& tkeys_sorted(keys)
    &&& forall|k: Seq<u8>, s: u8|
        #![trigger tkey_listed(keys, k, s)]
        tkey_listed(keys, k, s) <==> touched_range(store, from_block as int, to_block as int, k, s)
}

/// The entries of a valid delta export for `[from_block, to_block]`: one per
/// touched leaf in `keys`, sorted, carrying the leaf's current value and its
/// stem's address.
pub open spec fn delta_entries_match(
    store: UbtStore,
    from_block: u64,
    to_block: u64,
    keys: Seq<(Stem, u8)>,
    entries: Seq<StorageEntry>,
) -> bool {
    &&& touched_keys_match(store, from_block, to_block, keys)
    &&& entries.len() == keys.len()
    &&& forall|p: int|
        0 <= p < entries.len() ==> {
            let e = #[trigger] entries[p];
            &&& e.wf()
            &&& e.tree_index@ == tkey_view(keys[p])
            &&& e.value@ == (match store.spec_load_value(keys[p].0@, keys[p].1) {
                Some(v) => v,
                None => zero_value(),
            })
            &&& store.address_of(keys[p].0@) matches Some(a) && a@ == e.address@
        }
    &&& entries_sorted(entries)
}

/// Compute an incremental delta export over the closed block range
/// `[from_block, to_block]`: reject ranges that are inverted, reach past the
/// head, or start before the retained delta window; collect the distinct
/// leaves touched in range; resolve each to its current value; and lay the
/// result out as a snapshot named `delta-<from>-<to>.bin`.
pub fn get_state_delta(
    store: &UbtStore,
    from_block: u64,
    to_block: u64,
    chain_id: u64,
    delta_retention: u64,
) -> (r: Result<DeltaBundle, UbtError>)
    requires
        store.wf(),
    ensures
        match r {
            Ok(b) => store.head matches Some(hd) && {
                &&& from_block <= to_block <= hd.block_number
                &&& from_block >= spec_min_block(hd.block_number, delta_retention)
                &&& b.result.from_block == from_block
                &&& b.result.to_block == to_block
                &&& b.result.head_block == hd.block_number
                &&& b.result.delta_file@ == "delta-"@ + spec_decimal(from_block as nat) + "-"@
                    + spec_decimal(to_block as nat) + ".bin"@
                &&& exists|keys: Seq<(Stem, u8)>, entries: Seq<StorageEntry>|
                    {
                        &&& #[trigger] delta_entries_match(
                            *store,
                            from_block,
                            to_block,
                            keys,
                            entries,
                        )
                        &&& b.result.entry_count == entries.len()
                        &&& b.delta_bytes@ == spec_header_bytes(
                            b.result.entry_count,
                            hd.block_number,
                            chain_id,
                            hd.block_hash@,
                        ) + entries_bytes(entries, entries.len() as int)
                        &&& b.delta_bytes@.len() == STATE_HEADER_SIZE + STATE_ENTRY_SIZE
                            * entries.len()
                    }
            },
            Err(e) => match e {
                UbtError::NoCanonicalState => store.head is None,
                UbtError::InvalidRange { from_block: f, to_block: t } => {
                    &&& store.head is Some
                    &&& f == from_block && t == to_block
                    &&& from_block > to_block
                },
                UbtError::RangeAheadOfHead { to_block: t, head } => store.head matches Some(hd)
                    && {
                    &&& from_block <= to_block
                    &&& to_block > hd.block_number
                    &&& t == to_block && head == hd.block_number
                },
                UbtError::RangeBeforeRetention { from_block: f, min_block } => store.head
                    matches Some(hd) && {
                    &&& from_block <= to_block <= hd.block_number
                    &&& from_block < spec_min_block(hd.block_number, delta_retention)
                    &&& f == from_block && min_block == spec_min_block(
                        hd.block_number,
                        delta_retention,
                    )
                },
                UbtError::MissingAddresses { count } => store.head matches Some(hd) && {
                    &&& from_block <= to_block <= hd.block_number
                    &&& from_block >= spec_min_block(hd.block_number, delta_retention)
                    &&& count > 0
                    &&& exists|keys: Seq<(Stem, u8)>|
                        #![trigger touched_keys_match(*store, from_block, to_block, keys)]
                        touched_keys_match(*store, from_block, to_block, keys) && count as int
                            == missing_key_count(*store, keys, keys.len() as int)
                    &&& exists|k: Seq<u8>, s: u8|
                        #![trigger touched_range(*store, from_block as int, to_block as int, k, s)]
                        touched_range(*store, from_block as int, to_block as int, k, s)
                            && store.address_of(k) is None
                },
                _ => false,
            },
        },
{
    let head = match store.load_head() {
        Some(h) => h,
        None => {
            return Err(UbtError::NoCanonicalState);
        },
    };
    if from_block > to_block {
        return Err(UbtError::InvalidRange { from_block, to_block });
    }
    if to_block > head.block_number {
        return Err(UbtError::RangeAheadOfHead { to_block, head: head.block_number });
    }
    let min_block: u64 = if head.block_number >= delta_retention {
        head.block_number - delta_retention
    } else {
        0
    };
    if from_block < min_block {
        return Err(UbtError::RangeBeforeRetention { from_block, min_block });
    }
    let keys = collect_touched_keys(store, from_block, to_block);
    let entries = match resolve_delta_entries(store, &keys) {
        Ok(es) => es,
        Err(e) => {
            proof {
                assert(touched_keys_match(*store, from_block, to_block, keys@));
                let p = choose|p: int|
                    0 <= p < keys@.len() && store.address_of((#[trigger] keys@[p]).0@) is None;
                let k = keys@[p].0@;
                let s = keys@[p].1;
                assert(tkey_listed(keys@, k, s));
                assert(touched_range(*store, from_block as int, to_block as int, k, s)
                    && store.address_of(k) is None);
            }
            return Err(e);
        },
    };
    let ghost gkeys = keys@;
    let ghost gentries = entries@;
    proof {
        // sorted keys give sorted entries
        assert forall|p: int, q: int|
            0 <= p < q < gentries.len() implies lex_lt(
            (#[trigger] gentries[p]).tree_index@,
            (#[trigger] gentries[q]).tree_index@,
        ) by {
            assert(lex_lt(tkey_view(gkeys[p]), tkey_view(gkeys[q])));
        }
    }
    let entry_count = entries.len() as u64;
    let header = StateHeader::new(
        entry_count,
        head.block_number,
        chain_id,
        clone_bytes(&head.block_hash),
    );
    let delta_bytes = serialize_state(&header, &entries);
    proof {
        assert(header.spec_bytes() =~= spec_header_bytes(
            entry_count,
            head.block_number,
            chain_id,
            head.block_hash@,
        ));
    }
    let b = DeltaBundle {
        result: StateDeltaResult {
            from_block,
            to_block,
            head_block: head.block_number,
            entry_count,
            delta_file: delta_file_name(from_block, to_block),
        },
        delta_bytes,
    };
    proof {
        assert(delta_entries_match(*store, from_block, to_block, gkeys, gentries));
    }
    Ok(b)
}

} // verus!
