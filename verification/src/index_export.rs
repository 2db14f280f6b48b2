//! Exports sourced from the secondary index: the index enumerates which
//! leaves exist — per stem, an address and a bitmap of populated sub-indices
//! — while the values themselves are read from the external authenticated
//! trie engine. The library computes the expected keys and, once the caller
//! has resolved each key against the engine, lays the result out as a
//! snapshot; a resolved value of the wrong width is rejected and an absent
//! value is written as all-zero.

use vstd::prelude::*;
use vstd::bytes::spec_u64_to_le_bytes;

use crate::bitmap::{iter_bitmap_subindices, spec_bit_set};
use crate::bytes::{
    bytes_eq,
    clone_bytes,
    lemma_lex_push_lt,
    lemma_lex_take,
    lemma_lex_trans,
    lex_lt,
};
use crate::codec::{
    tree_index_from_key,
    StateHeader,
    StorageEntry,
    STATE_ENTRY_SIZE,
    STATE_HEADER_SIZE,
    STEM_INDEX_ENTRY_SIZE,
};
use crate::delta::zero_value;
use crate::error::UbtError;
use crate::export::{
    entries_bytes,
    entries_sorted,
    filter_of,
    filter_pass,
    offsets_bytes,
    serialize_state,
    serialize_stem_index,
    spec_header_bytes,
    ExportBundle,
    ExportResult,
};
use crate::key_index::{HeadRecord, KeyIndex};
use crate::stem_map::lemma_stem_get_at;
use crate::types::{Stem, ADDRESS_LEN, VALUE_LEN};

verus! {

/// One expected leaf of an index-sourced export: the stem, its owning
/// address, and one populated sub-index.
pub type IndexKey = (Stem, Vec<u8>, u8);

/// The 32-byte tree index an expected leaf denotes.
pub open spec fn ikey_view(t: IndexKey) -> Seq<u8> {
    t.0@.push(t.2)
}

pub open spec fn ikeys_sorted(s: Seq<IndexKey>) -> bool {
    forall|p: int, q: int|
        0 <= p < q < s.len() ==> lex_lt(ikey_view(#[trigger] s[p]), ikey_view(#[trigger] s[q]))
}

pub open spec fn ikeys_wf(s: Seq<IndexKey>) -> bool {
    forall|p: int|
        0 <= p < s.len() ==> (#[trigger] s[p]).0.wf() && s[p].1@.len() == ADDRESS_LEN
}

/// The expected key list holds leaf (k, sub).
pub open spec fn ikey_listed(s: Seq<IndexKey>, k: Seq<u8>, sub: u8) -> bool {
    exists|p: int| #![trigger s[p]] 0 <= p < s.len() && s[p].0@ == k && s[p].2 == sub
}

/// One expected key agrees with the index: its stem is recorded with this
/// address, which passes the filter, and its sub-index bit is set.
pub open spec fn ikey_matches_index(index: KeyIndex, fv: Option<Seq<u8>>, t: IndexKey) -> bool {
    match index.record_of(t.0@) {
        Some(rec) => {
            &&& rec.address@ == t.1@
            &&& filter_pass(fv, rec.address@)
            &&& spec_bit_set(rec.bitmap@, t.2)
        },
        None => false,
    }
}

/// The keys an index-sourced export must read from the engine: one per set
/// bit of each stem record whose address passes the filter, in ascending
/// tree index order, complete over the index.
pub fn index_export_keys(index: &KeyIndex, filter: Option<&Vec<u8>>) -> (keys: Vec<IndexKey>)
    requires
        index.wf(),
    ensures
        ikeys_sorted(keys@),
        ikeys_wf(keys@),
        forall|p: int|
            0 <= p < keys@.len() ==> ikey_matches_index(
                *index,
                filter_of(filter),
                #[trigger] keys@[p],
            ),
        forall|j: int, sub: u8|
            #![trigger index.records@[j].1.bitmap@, spec_bit_set(index.records@[j].1.bitmap@, sub)]
            (0 <= j < index.records@.len() && spec_bit_set(index.records@[j].1.bitmap@, sub)
                && filter_pass(filter_of(filter), index.records@[j].1.address@)) ==> ikey_listed(
                keys@,
                index.records@[j].0@,
                sub,
            ),
{
    let ghost fv = filter_of(filter);
    let mut keys: Vec<IndexKey> = Vec::new();
    let records = index.stem_records();
    let n = records.len();
    let mut i: usize = 0;
    while i < n
        invariant
            index.wf(),
            fv == filter_of(filter),
            records@ == index.records@,
            n == index.records@.len(),
            0 <= i <= n,
            ikeys_sorted(keys@),
            ikeys_wf(keys@),
            forall|p: int|
                0 <= p < keys@.len() ==> ikey_matches_index(*index, fv, #[trigger] keys@[p]),
            forall|p: int|
                0 <= p < keys@.len() ==> exists|j: int|
                    #![trigger index.records@[j]]
                    0 <= j < i && (#[trigger] keys@[p]).0@ == index.records@[j].0@,
            forall|j: int, sub: u8|
                #![trigger index.records@[j].1.bitmap@, spec_bit_set(index.records@[j].1.bitmap@, sub)]
                (0 <= j < i && spec_bit_set(index.records@[j].1.bitmap@, sub) && filter_pass(
                    fv,
                    index.records@[j].1.address@,
                )) ==> ikey_listed(keys@, index.records@[j].0@, sub),
        decreases n - i,
    {
        let stem = &records[i].0;
        let rec = &records[i].1;
        proof {
            lemma_stem_get_at(index.records@, i as int);
        }
        let passes = match filter {
            Some(f) => bytes_eq(&rec.address, f),
            None => true,
        };
        if passes {
            let subs = iter_bitmap_subindices(&rec.bitmap);
            let ghost k0 = keys@;
            let m = subs.len();
            let mut q: usize = 0;
            proof {
                // every existing key belongs to a smaller stem
                assert forall|p: int|
                    0 <= p < keys@.len() implies lex_lt((#[trigger] keys@[p]).0@, stem@) by {
                    let j = choose|j: int|
                        #![trigger index.records@[j]]
                        0 <= j < i && keys@[p].0@ == index.records@[j].0@;
                    assert(lex_lt(index.records@[j].0@, index.records@[i as int].0@));
                }
            }
            while q < m
                invariant
                    index.wf(),
                    fv == filter_of(filter),
                    n == index.records@.len(),
                    0 <= i < n,
                    stem.wf(),
                    stem@ == index.records@[i as int].0@,
                    *rec == index.records@[i as int].1,
                    rec.wf(),
                    index.record_of(stem@) == Some(index.records@[i as int].1),
                    filter_pass(fv, rec.address@),
                    m == subs@.len(),
                    0 <= q <= m,
                    forall|p1: int, p2: int| 0 <= p1 < p2 < subs@.len() ==> subs@[p1] < subs@[p2],
                    forall|p: int|
                        0 <= p < subs@.len() ==> spec_bit_set(rec.bitmap@, #[trigger] subs@[p]),
                    forall|s: u8| subs@.contains(s) <==> spec_bit_set(rec.bitmap@, s),
                    keys@.len() == k0.len() + q,
                    forall|p: int| 0 <= p < k0.len() ==> (#[trigger] keys@[p]) == k0[p],
                    forall|p: int| 0 <= p < k0.len() ==> lex_lt((#[trigger] k0[p]).0@, stem@),
                    forall|t: int|
                        0 <= t < q ==> {
                            let kk = #[trigger] keys@[k0.len() + t];
                            &&& kk.0@ == stem@
                            &&& kk.1@ == rec.address@
                            &&& kk.2 == subs@[t]
                        },
                    ikeys_sorted(keys@),
                    ikeys_wf(keys@),
                decreases m - q,
            {
                let key = (stem.duplicate(), clone_bytes(&rec.address), subs[q]);
                let ghost kb = keys@;
                keys.push(key);
                proof {
                    let cur = keys@;
                    assert forall|p1: int, p2: int|
                        0 <= p1 < p2 < cur.len() implies lex_lt(
                        ikey_view(#[trigger] cur[p1]),
                        ikey_view(#[trigger] cur[p2]),
                    ) by {
                        if p2 == cur.len() - 1 {
                            if p1 < k0.len() {
                                assert(cur[p1] == k0[p1]);
                                lemma_lex_push_lt(k0[p1].0@, stem@, k0[p1].2, subs@[q as int]);
                            } else {
                                let t = p1 - k0.len();
                                assert(cur[p1] == kb[p1]);
                                assert((#[trigger] kb[k0.len() + t]).2 == subs@[t]);
                                assert(subs@[t] < subs@[q as int]);
                                crate::bytes::lemma_lex_push_eq(
                                    stem@,
                                    subs@[t],
                                    subs@[q as int],
                                );
                            }
                        } else {
                            assert(cur[p1] == kb[p1] && cur[p2] == kb[p2]);
                        }
                    }
                }
                q = q + 1;
            }
            proof {
                let cur = keys@;
                // provenance and per-key agreement for the new keys
                assert forall|p: int|
                    0 <= p < cur.len() implies ikey_matches_index(*index, fv, #[trigger] cur[p])
                        && exists|j: int|
                        #![trigger index.records@[j]]
                        0 <= j < i + 1 && cur[p].0@ == index.records@[j].0@ by {
                    if p < k0.len() {
                        assert(cur[p] == k0[p]);
                        assert(ikey_matches_index(*index, fv, k0[p]));
                        let j = choose|j: int|
                            #![trigger index.records@[j]]
                            0 <= j < i && k0[p].0@ == index.records@[j].0@;
                        assert(0 <= j < i + 1 && cur[p].0@ == index.records@[j].0@);
                    } else {
                        let t = p - k0.len();
                        assert((#[trigger] cur[k0.len() + t]).0@ == stem@);
                        assert(subs@.contains(subs@[t]));
                        assert(spec_bit_set(rec.bitmap@, cur[p].2));
                        assert(0 <= i < i + 1 && cur[p].0@ == index.records@[i as int].0@);
                    }
                }
                // completeness through this record
                assert forall|j: int, sub: u8|
                    #![trigger index.records@[j].1.bitmap@, spec_bit_set(index.records@[j].1.bitmap@, sub)]
                    (0 <= j < i + 1 && spec_bit_set(index.records@[j].1.bitmap@, sub)
                        && filter_pass(fv, index.records@[j].1.address@)) implies ikey_listed(
                    cur,
                    index.records@[j].0@,
                    sub,
                ) by {
                    if j < i {
                        assert(ikey_listed(k0, index.records@[j].0@, sub));
                        let p = choose|p: int|
                            #![trigger k0[p]]
                            0 <= p < k0.len() && k0[p].0@ == index.records@[j].0@ && k0[p].2
                                == sub;
                        assert(cur[p] == k0[p]);
                        assert((#[trigger] cur[p]).0@ == index.records@[j].0@ && cur[p].2 == sub);
                    } else {
                        assert(subs@.contains(sub));
                        let t = choose|t: int|
                            0 <= t < subs@.len() && (#[trigger] subs@[t]) == sub;
                        assert((#[trigger] cur[k0.len() + t]).0@ == stem@ && cur[k0.len() + t].2
                            == sub);
                    }
                }
            }
        } else {
            proof {
                assert forall|p: int|
                    0 <= p < keys@.len() implies exists|j: int|
                    #![trigger index.records@[j]]
                    0 <= j < i + 1 && (#[trigger] keys@[p]).0@ == index.records@[j].0@ by {
                    let j = choose|j: int|
                        #![trigger index.records@[j]]
                        0 <= j < i && keys@[p].0@ == index.records@[j].0@;
                    assert(0 <= j < i + 1 && keys@[p].0@ == index.records@[j].0@);
                }
                assert forall|j: int, sub: u8|
                    #![trigger index.records@[j].1.bitmap@, spec_bit_set(index.records@[j].1.bitmap@, sub)]
                    (0 <= j < i + 1 && spec_bit_set(index.records@[j].1.bitmap@, sub)
                        && filter_pass(fv, index.records@[j].1.address@)) implies ikey_listed(
                    keys@,
                    index.records@[j].0@,
                    sub,
                ) by {
                    if j == i {
                        assert(!filter_pass(fv, index.records@[i as int].1.address@));
                    }
                }
            }
        }
        i = i + 1;
    }
    keys
}

/// The 32 bytes a resolved engine read contributes: the value itself, or
/// all-zero where the engine reported none.
pub open spec fn resolved_value(v: Option<Vec<u8>>) -> Seq<u8> {
    match v {
        Some(x) => x@,
        None => zero_value(),
    }
}

/// The concatenated encodings of the first `n` entries an index-sourced
/// export writes: address, tree index, resolved value.
pub open spec fn index_entry_bytes(
    keys: Seq<IndexKey>,
    values: Seq<Option<Vec<u8>>>,
    n: int,
) -> Seq<u8>
    decreases n,
{
    if n <= 0 {
        Seq::empty()
    } else {
        index_entry_bytes(keys, values, n - 1) + keys[n - 1].1@ + ikey_view(keys[n - 1])
            + resolved_value(values[n - 1])
    }
}

/// The offsets of an index-sourced export name each stem's first key.
pub open spec fn index_offsets_valid(keys: Seq<IndexKey>, offsets: Seq<(Stem, u64)>) -> bool {
    &&& forall|jo: int|
        0 <= jo < offsets.len() ==> {
            let off = (#[trigger] offsets[jo]).1 as int;
            &&& offsets[jo].0.wf()
            &&& off < keys.len()
            &&& offsets[jo].0@ == keys[off].0@
            &&& (off == 0 || keys[off - 1].0@ != offsets[jo].0@)
        }
    &&& forall|j1: int, j2: int|
        0 <= j1 < j2 < offsets.len() ==> lex_lt(
            (#[trigger] offsets[j1]).0@,
            (#[trigger] offsets[j2]).0@,
        )
    &&& forall|p: int|
        0 <= p < keys.len() ==> crate::export::stem_offset_listed(
            offsets,
            (#[trigger] keys[p]).0@,
        )
}

/// Lay out the resolved leaves of an index-sourced export: one entry per
/// expected key, and one offset record per stem. Fails if a resolved value
/// is not 32 bytes.
fn build_resolved_entries(keys: &Vec<IndexKey>, values: &Vec<Option<Vec<u8>>>) -> (r: Result<
    (Vec<StorageEntry>, Vec<(Stem, u64)>),
    UbtError,
>)
    requires
        ikeys_sorted(keys@),
        ikeys_wf(keys@),
        values@.len() == keys@.len(),
    ensures
        match r {
            Ok((entries, offsets)) => {
                &&& entries@.len() == keys@.len()
                &&& forall|p: int| 0 <= p < entries@.len() ==> (#[trigger] entries@[p]).wf()
                &&& forall|p: int|
                    0 <= p < entries@.len() ==> {
                        let e = #[trigger] entries@[p];
                        &&& e.address@ == keys@[p].1@
                        &&& e.tree_index@ == ikey_view(keys@[p])
                        &&& e.value@ == resolved_value(values@[p])
                    }
                &&& forall|p: int|
                    0 <= p < values@.len() ==> (match #[trigger] values@[p] {
                        Some(v) => v@.len() == VALUE_LEN,
                        None => true,
                    })
                &&& entries_sorted(entries@)
                &&& index_offsets_valid(keys@, offsets@)
                &&& forall|jo: int| 0 <= jo < offsets@.len() ==> (#[trigger] offsets@[jo]).0.wf()
            },
            Err(e) => {
                &&& e == UbtError::InvalidValueLength
                &&& exists|p: int|
                    0 <= p < values@.len() && ((#[trigger] values@[p]) matches Some(v) && v@.len()
                        != VALUE_LEN)
            },
        },
{
    let mut entries: Vec<StorageEntry> = Vec::new();
    let mut offsets: Vec<(Stem, u64)> = Vec::new();
    let n = keys.len();
    let mut p: usize = 0;
    while p < n
        invariant
            ikeys_sorted(keys@),
            ikeys_wf(keys@),
            values@.len() == keys@.len(),
            n == keys@.len(),
            0 <= p <= n,
            entries@.len() == p,
            forall|t: int| 0 <= t < p ==> (#[trigger] entries@[t]).wf(),
            forall|t: int|
                0 <= t < p ==> {
                    let e = #[trigger] entries@[t];
                    &&& e.address@ == keys@[t].1@
                    &&& e.tree_index@ == ikey_view(keys@[t])
                    &&& e.value@ == resolved_value(values@[t])
                },
            forall|t: int|
                0 <= t < p ==> (match #[trigger] values@[t] {
                    Some(v) => v@.len() == VALUE_LEN,
                    None => true,
                }),
            entries_sorted(entries@),
            forall|jo: int|
                0 <= jo < offsets@.len() ==> {
                    let off = (#[trigger] offsets@[jo]).1 as int;
                    &&& offsets@[jo].0.wf()
                    &&& off < p
                    &&& offsets@[jo].0@ == keys@[off].0@
                    &&& (off == 0 || keys@[off - 1].0@ != offsets@[jo].0@)
                },
            forall|j1: int, j2: int|
                0 <= j1 < j2 < offsets@.len() ==> lex_lt(
                    (#[trigger] offsets@[j1]).0@,
                    (#[trigger] offsets@[j2]).0@,
                ),
            forall|t: int|
                0 <= t < p ==> crate::export::stem_offset_listed(
                    offsets@,
                    (#[trigger] keys@[t]).0@,
                ),
            (p > 0 ==> offsets@.len() > 0 && offsets@[offsets@.len() - 1].0@ == keys@[p - 1].0@),
            (p == 0 ==> offsets@.len() == 0),
        decreases n - p,
    {
        let value = match &values[p] {
            Some(v) => {
                if v.len() != VALUE_LEN {
                    proof {
                        assert(((#[trigger] values@[p as int]) matches Some(vv) && vv@.len()
                            != VALUE_LEN));
                    }
                    return Err(UbtError::InvalidValueLength);
                }
                clone_bytes(v)
            },
            None => crate::delta::zero_value_vec(),
        };
        let is_new_stem = if p == 0 {
            true
        } else {
            !bytes_eq(keys[p - 1].0.as_bytes(), keys[p].0.as_bytes())
        };
        let ghost o0 = offsets@;
        if is_new_stem {
            offsets.push((keys[p].0.duplicate(), p as u64));
            proof {
                assert forall|j1: int, j2: int|
                    0 <= j1 < j2 < offsets@.len() implies lex_lt(
                    (#[trigger] offsets@[j1]).0@,
                    (#[trigger] offsets@[j2]).0@,
                ) by {
                    if j2 == o0.len() {
                        assert(offsets@[j1] == o0[j1]);
                        if p > 0 {
                            // the previous stem is strictly smaller
                            assert(lex_lt(ikey_view(keys@[p - 1]), ikey_view(keys@[p as int])));
                            lemma_lex_take(ikey_view(keys@[p - 1]), ikey_view(keys@[p as int]), 31);
                            assert(ikey_view(keys@[p - 1]).take(31) =~= keys@[p - 1].0@);
                            assert(ikey_view(keys@[p as int]).take(31) =~= keys@[p as int].0@);
                            assert(lex_lt(keys@[p - 1].0@, keys@[p as int].0@));
                            if j1 < o0.len() - 1 {
                                lemma_lex_trans(
                                    o0[j1].0@,
                                    o0[o0.len() - 1].0@,
                                    keys@[p as int].0@,
                                );
                            }
                        }
                    } else {
                        assert(offsets@[j1] == o0[j1] && offsets@[j2] == o0[j2]);
                    }
                }
            }
        }
        let entry = StorageEntry {
            address: clone_bytes(&keys[p].1),
            tree_index: tree_index_from_key(&keys[p].0, keys[p].2),
            value,
        };
        let ghost e0 = entries@;
        entries.push(entry);
        proof {
            let cur = entries@;
            assert forall|p1: int, p2: int|
                0 <= p1 < p2 < cur.len() implies lex_lt(
                (#[trigger] cur[p1]).tree_index@,
                (#[trigger] cur[p2]).tree_index@,
            ) by {
                if p2 == cur.len() - 1 {
                    assert(cur[p1] == e0[p1]);
                    assert(cur[p1].tree_index@ == ikey_view(keys@[p1]));
                    assert(lex_lt(ikey_view(keys@[p1]), ikey_view(keys@[p as int])));
                } else {
                    assert(cur[p1] == e0[p1] && cur[p2] == e0[p2]);
                }
            }
            assert forall|t: int|
                0 <= t < p + 1 implies crate::export::stem_offset_listed(
                offsets@,
                (#[trigger] keys@[t]).0@,
            ) by {
                if t < p {
                    assert(crate::export::stem_offset_listed(o0, keys@[t].0@) || (is_new_stem
                        && crate::export::stem_offset_listed(offsets@, keys@[t].0@)));
                    if crate::export::stem_offset_listed(o0, keys@[t].0@) {
                        let jo = choose|jo: int|
                            #![trigger o0[jo]]
                            0 <= jo < o0.len() && o0[jo].0@ == keys@[t].0@;
                        assert(offsets@[jo] == o0[jo]);
                        assert((#[trigger] offsets@[jo]).0@ == keys@[t].0@);
                    }
                } else {
                    if is_new_stem {
                        assert((#[trigger] offsets@[o0.len() as int]).0@ == keys@[p as int].0@);
                    } else {
                        assert(offsets@[offsets@.len() - 1].0@ == keys@[p - 1].0@);
                        assert(keys@[p - 1].0@ == keys@[p as int].0@);
                        assert((#[trigger] offsets@[offsets@.len() - 1]).0@ == keys@[p as int].0@);
                    }
                }
            }
        }
        p = p + 1;
    }
    Ok((entries, offsets))
}

/// The entry bytes of an index-sourced export are determined pointwise by
/// the keys and the resolved values.
proof fn lemma_entries_bytes_from_keys(
    entries: Seq<StorageEntry>,
    keys: Seq<IndexKey>,
    values: Seq<Option<Vec<u8>>>,
    n: int,
)
    requires
        entries.len() == keys.len(),
        values.len() == keys.len(),
        0 <= n <= entries.len(),
        forall|p: int|
            0 <= p < entries.len() ==> {
                let e = #[trigger] entries[p];
                &&& e.address@ == keys[p].1@
                &&& e.tree_index@ == ikey_view(keys[p])
                &&& e.value@ == resolved_value(values[p])
            },
    ensures
        entries_bytes(entries, n) == index_entry_bytes(keys, values, n),
    decreases n,
{
    if n > 0 {
        lemma_entries_bytes_from_keys(entries, keys, values, n - 1);
        assert(entries[n - 1].spec_bytes() =~= keys[n - 1].1@ + ikey_view(keys[n - 1])
            + resolved_value(values[n - 1]));
        assert(entries_bytes(entries, n) =~= index_entry_bytes(keys, values, n));
    }
}

/// The bytes of `b` are a well-formed index-sourced snapshot of `keys` and
/// `values`: the state file is the header followed by one entry per key, in
/// order, and the stem index names each stem's first entry.
pub open spec fn index_bundle_matches(
    b: ExportBundle,
    keys: Seq<IndexKey>,
    values: Seq<Option<Vec<u8>>>,
    chain_id: u64,
) -> bool {
    &&& b.result.entry_count == keys.len()
    &&& b.state_bytes@ == spec_header_bytes(
        b.result.entry_count,
        b.result.block_number,
        chain_id,
        b.result.block_hash@,
    ) + index_entry_bytes(keys, values, keys.len() as int)
    &&& b.state_bytes@.len() == STATE_HEADER_SIZE + STATE_ENTRY_SIZE * keys.len()
    &&& forall|p: int|
        0 <= p < values.len() ==> (match #[trigger] values[p] {
            Some(v) => v@.len() == VALUE_LEN,
            None => true,
        })
    &&& exists|offsets: Seq<(Stem, u64)>|
        {
            &&& #[trigger] index_offsets_valid(keys, offsets)
            &&& b.result.stem_count == offsets.len()
            &&& b.stem_index_bytes@ == spec_u64_to_le_bytes(b.result.stem_count) + offsets_bytes(
                offsets,
                offsets.len() as int,
            )
            &&& b.stem_index_bytes@.len() == 8 + STEM_INDEX_ENTRY_SIZE * offsets.len()
        }
}

/// Assemble an index-sourced export from the expected keys and the values
/// the caller resolved against the engine.
fn build_index_bundle(
    head: &HeadRecord,
    chain_id: u64,
    keys: &Vec<IndexKey>,
    values: &Vec<Option<Vec<u8>>>,
    state_file: String,
    stem_index_file: String,
) -> (r: Result<ExportBundle, UbtError>)
    requires
        head.wf(),
        ikeys_sorted(keys@),
        ikeys_wf(keys@),
        values@.len() == keys@.len(),
    ensures
        match r {
            Ok(b) => {
                &&& b.result.block_number == head.block_number
                &&& b.result.block_hash@ == head.block_hash@
                &&& b.result.root@ == head.root@
                &&& b.result.state_file@ == state_file@
                &&& b.result.stem_index_file@ == stem_index_file@
                &&& index_bundle_matches(b, keys@, values@, chain_id)
            },
            Err(e) => {
                &&& e == UbtError::InvalidValueLength
                &&& exists|p: int|
                    0 <= p < values@.len() && ((#[trigger] values@[p]) matches Some(v) && v@.len()
                        != VALUE_LEN)
            },
        },
{
    let (entries, offsets) = match build_resolved_entries(keys, values) {
        Ok(pair) => pair,
        Err(e) => {
            return Err(e);
        },
    };
    let ghost ge = entries@;
    let ghost go = offsets@;
    let entry_count = entries.len() as u64;
    let stem_count = offsets.len() as u64;
    let header = StateHeader::new(
        entry_count,
        head.block_number,
        chain_id,
        clone_bytes(&head.block_hash),
    );
    let state_bytes = serialize_state(&header, &entries);
    proof {
        assert(header.spec_bytes() =~= spec_header_bytes(
            entry_count,
            head.block_number,
            chain_id,
            head.block_hash@,
        ));
        lemma_entries_bytes_from_keys(ge, keys@, values@, ge.len() as int);
    }
    let stem_index_bytes = serialize_stem_index(&offsets);
    let b = ExportBundle {
        result: ExportResult {
            block_number: head.block_number,
            block_hash: clone_bytes(&head.block_hash),
            root: clone_bytes(&head.root),
            entry_count,
            stem_count,
            state_file,
            stem_index_file,
        },
        state_bytes,
        stem_index_bytes,
    };
    proof {
        assert(index_offsets_valid(keys@, go));
        assert(index_bundle_matches(b, keys@, values@, chain_id));
    }
    Ok(b)
}

/// Lay out a full-state export whose leaves were enumerated by the secondary
/// index and resolved against the external trie engine. The keys must come
/// from an unfiltered enumeration; the values are the caller's engine reads,
/// one per key, in order. Fails if a resolved value is not 32 bytes, and —
/// since the index's head claims stems exist — if nothing at all came back.
pub fn export_full_state_from_index(
    head: &HeadRecord,
    chain_id: u64,
    keys: &Vec<IndexKey>,
    values: &Vec<Option<Vec<u8>>>,
) -> (r: Result<ExportBundle, UbtError>)
    requires
        head.wf(),
        ikeys_sorted(keys@),
        ikeys_wf(keys@),
        values@.len() == keys@.len(),
    ensures
        match r {
            Ok(b) => {
                &&& b.result.block_number == head.block_number
                &&& b.result.block_hash@ == head.block_hash@
                &&& b.result.root@ == head.root@
                &&& b.result.state_file@ == "state.bin"@
                &&& b.result.stem_index_file@ == "stem-index.bin"@
                &&& index_bundle_matches(b, keys@, values@, chain_id)
                &&& (keys@.len() > 0 || head.stem_count == 0)
            },
            Err(e) => match e {
                UbtError::InvalidValueLength => exists|p: int|
                    0 <= p < values@.len() && ((#[trigger] values@[p]) matches Some(v) && v@.len()
                        != VALUE_LEN),
                UbtError::EmptyIndexWithStems => keys@.len() == 0 && head.stem_count > 0,
                _ => false,
            },
        },
{
    if keys.len() == 0 && head.stem_count > 0 {
        return Err(UbtError::EmptyIndexWithStems);
    }
    build_index_bundle(
        head,
        chain_id,
        keys,
        values,
        crate::names::state_file_name(),
        crate::names::stem_index_file_name(),
    )
}

/// Lay out one contract's export whose leaves were enumerated by the
/// secondary index — filtered to the contract — and resolved against the
/// external trie engine. Fails if a resolved value is not 32 bytes.
pub fn export_contract_state_from_index(
    head: &HeadRecord,
    contract: &Vec<u8>,
    chain_id: u64,
    keys: &Vec<IndexKey>,
    values: &Vec<Option<Vec<u8>>>,
) -> (r: Result<ExportBundle, UbtError>)
    requires
        head.wf(),
        contract@.len() == ADDRESS_LEN,
        ikeys_sorted(keys@),
        ikeys_wf(keys@),
        values@.len() == keys@.len(),
    ensures
        match r {
            Ok(b) => {
                &&& b.result.block_number == head.block_number
                &&& b.result.block_hash@ == head.block_hash@
                &&& b.result.root@ == head.root@
                &&& b.result.state_file@ == "contract-"@ + crate::names::checksum_display_of(
                    contract@,
                ) + ".bin"@
                &&& b.result.stem_index_file@ == "contract-"@ + crate::names::checksum_display_of(
                    contract@,
                ) + "-stem-index.bin"@
                &&& index_bundle_matches(b, keys@, values@, chain_id)
            },
            Err(e) => match e {
                UbtError::InvalidValueLength => exists|p: int|
                    0 <= p < values@.len() && ((#[trigger] values@[p]) matches Some(v) && v@.len()
                        != VALUE_LEN),
                _ => false,
            },
        },
{
    build_index_bundle(
        head,
        chain_id,
        keys,
        values,
        crate::names::contract_file_name(contract),
        crate::names::contract_stem_index_file_name(contract),
    )
}

} // verus!
