//! Association lists keyed by stems, kept in ascending byte order: the
//! store-native key order both embedded stores expose.

use vstd::prelude::*;
use vstd::pervasive::VecAdditionalExecFns;

use crate::bytes::{bytes_eq, bytes_lt, lemma_lex_irrefl, lemma_lex_trans, lex_lt};
use crate::types::Stem;

verus! {

/// The value bound to stem `k`, if any.
pub open spec fn stem_get<V>(s: Seq<(Stem, V)>, k: Seq<u8>) -> Option<V>
    decreases s.len(),
{
    if s.len() == 0 {
        None
    } else if s[0].0@ == k {
        Some(s[0].1)
    } else {
        stem_get(s.drop_first(), k)
    }
}

/// Stems strictly ascending in lexicographic byte order; this also makes
/// the keys unique.
pub open spec fn stems_sorted<V>(s: Seq<(Stem, V)>) -> bool {
    forall|i: int, j: int| 0 <= i < j < s.len() ==> lex_lt(s[i].0@, s[j].0@)
}

/// Every key is a well-formed 31-byte stem.
pub open spec fn stems_wf<V>(s: Seq<(Stem, V)>) -> bool {
    forall|i: int| 0 <= i < s.len() ==> (#[trigger] s[i]).0.wf()
}

/// In a sorted list, the entry at position `i` is what lookup of its key finds.
pub proof fn lemma_stem_get_at<V>(s: Seq<(Stem, V)>, i: int)
    requires
        stems_sorted(s),
        0 <= i < s.len(),
    ensures
        stem_get(s, s[i].0@) == Some(s[i].1),
    decreases s.len(),
{
    if i > 0 {
        if s[0].0@ == s[i].0@ {
            lemma_lex_irrefl(s[0].0@);
        }
        lemma_stem_get_at(s.drop_first(), i - 1);
    }
}

pub proof fn lemma_stem_get_absent<V>(s: Seq<(Stem, V)>, k: Seq<u8>)
    requires
        forall|i: int| 0 <= i < s.len() ==> (#[trigger] s[i]).0@ != k,
    ensures
        stem_get(s, k) == None::<V>,
    decreases s.len(),
{
    if s.len() > 0 {
        lemma_stem_get_absent(s.drop_first(), k);
    }
}

/// A bound key is bound at some position.
pub proof fn lemma_stem_get_some_position<V>(s: Seq<(Stem, V)>, k: Seq<u8>)
    requires
        stem_get(s, k) is Some,
    ensures
        exists|i: int|
            0 <= i < s.len() && (#[trigger] s[i]).0@ == k && stem_get(s, k) == Some(s[i].1),
    decreases s.len(),
{
    if s.len() > 0 {
        if s[0].0@ == k {
            assert(s[0].0@ == k && stem_get(s, k) == Some(s[0].1));
        } else {
            lemma_stem_get_some_position(s.drop_first(), k);
            let i = choose|i: int|
                0 <= i < s.drop_first().len() && (#[trigger] s.drop_first()[i]).0@ == k
                    && stem_get(s.drop_first(), k) == Some(s.drop_first()[i].1);
            assert((#[trigger] s[i + 1]).0@ == k && stem_get(s, k) == Some(s[i + 1].1));
        }
    }
}

/// Replacing the value at one position, key view unchanged, leaves every
/// other key's binding unchanged.
proof fn lemma_stem_get_update_other<V>(s0: Seq<(Stem, V)>, s1: Seq<(Stem, V)>, k: Seq<u8>, i: int)
    requires
        0 <= i < s0.len(),
        s1.len() == s0.len(),
        forall|j: int| 0 <= j < s0.len() && j != i ==> s0[j] == s1[j],
        s0[i].0@ == s1[i].0@,
        s0[i].0@ != k,
    ensures
        stem_get(s1, k) == stem_get(s0, k),
    decreases s0.len(),
{
    if i == 0 {
        assert(s0.drop_first() =~= s1.drop_first());
    } else if s0[0].0@ != k {
        lemma_stem_get_update_other(s0.drop_first(), s1.drop_first(), k, i - 1);
    }
}

/// Inserting a pair with a fresh key at position `i` leaves every other
/// key's binding unchanged.
proof fn lemma_stem_get_insert_other<V>(s0: Seq<(Stem, V)>, s1: Seq<(Stem, V)>, k: Seq<u8>, i: int)
    requires
        0 <= i <= s0.len(),
        s1.len() == s0.len() + 1,
        forall|j: int| 0 <= j < i ==> s0[j] == s1[j],
        forall|j: int| i <= j < s0.len() ==> s0[j] == s1[j + 1],
        s1[i].0@ != k,
    ensures
        stem_get(s1, k) == stem_get(s0, k),
    decreases s0.len(),
{
    if i == 0 {
        assert(s1.drop_first() =~= s0);
    } else {
        assert(s0[0] == s1[0]);
        if s0[0].0@ != k {
            lemma_stem_get_insert_other(s0.drop_first(), s1.drop_first(), k, i - 1);
        }
    }
}

/// Find the position of `key`, if bound.
pub fn stem_map_find<V>(entries: &Vec<(Stem, V)>, key: &Stem) -> (r: Option<usize>)
    requires
        stems_sorted(entries@),
        key.wf(),
    ensures
        match r {
            Some(i) => {
                &&& i < entries@.len()
                &&& entries@[i as int].0@ == key@
                &&& stem_get(entries@, key@) == Some(entries@[i as int].1)
            },
            None => stem_get(entries@, key@) == None::<V>,
        },
{
    let n = entries.len();
    let mut i: usize = 0;
    while i < n
        invariant
            stems_sorted(entries@),
            n == entries@.len(),
            0 <= i <= n,
            forall|j: int| 0 <= j < i ==> (#[trigger] entries@[j]).0@ != key@,
        decreases n - i,
    {
        if bytes_eq(entries[i].0.as_bytes(), key.as_bytes()) {
            proof {
                lemma_stem_get_at(entries@, i as int);
            }
            return Some(i);
        }
        i = i + 1;
    }
    proof {
        lemma_stem_get_absent(entries@, key@);
    }
    None
}

/// Bind `value` to `key`, replacing any earlier binding and keeping the
/// entries sorted. Reports whether the key was new.
pub fn stem_map_insert<V>(entries: &mut Vec<(Stem, V)>, key: Stem, value: V) -> (is_new: bool)
    requires
        stems_sorted(old(entries)@),
        stems_wf(old(entries)@),
        key.wf(),
    ensures
        stems_sorted(final(entries)@),
        stems_wf(final(entries)@),
        stem_get(final(entries)@, key@) == Some(value),
        forall|k: Seq<u8>|
            k != key@ ==> #[trigger] stem_get(final(entries)@, k) == stem_get(old(entries)@, k),
        is_new <==> stem_get(old(entries)@, key@) == None::<V>,
        final(entries)@.len() == old(entries)@.len() + (if is_new {
            1int
        } else {
            0int
        }),
        forall|i: int|
            0 <= i < final(entries)@.len() ==> (#[trigger] final(entries)@[i]) == (key, value)
                || old(entries)@.contains(final(entries)@[i]),
{
    let ghost s0 = entries@;
    let n = entries.len();
    let mut i: usize = 0;
    while i < n && bytes_lt(entries[i].0.as_bytes(), key.as_bytes())
        invariant
            stems_sorted(entries@),
            stems_wf(entries@),
            entries@ == s0,
            key.wf(),
            n == entries@.len(),
            0 <= i <= n,
            forall|j: int| 0 <= j < i ==> lex_lt((#[trigger] entries@[j]).0@, key@),
        decreases n - i,
    {
        i = i + 1;
    }
    if i < n && bytes_eq(entries[i].0.as_bytes(), key.as_bytes()) {
        proof {
            lemma_stem_get_at(s0, i as int);
        }
        entries.set(i, (key, value));
        proof {
            let s1 = entries@;
            assert(stems_sorted(s1));
            assert(stems_wf(s1));
            lemma_stem_get_at(s1, i as int);
            assert forall|k: Seq<u8>| k != key@ implies #[trigger] stem_get(s1, k) == stem_get(
                s0,
                k,
            ) by {
                lemma_stem_get_update_other(s0, s1, k, i as int);
            }
            assert forall|p: int| 0 <= p < s1.len() implies (#[trigger] s1[p]) == (key, value)
                || s0.contains(s1[p]) by {
                if p != i {
                    assert(s1[p] == s0[p]);
                    assert(s0.contains(s0[p]));
                }
            }
        }
        return false;
    }
    // not bound yet: every key before position i is smaller, every key at or
    // after it is larger
    proof {
        assert forall|j: int| i <= j < s0.len() implies lex_lt(key@, (#[trigger] s0[j]).0@) by {
            // the loop stopped at i because the key there is not smaller, and
            // the branch above ruled equality out
            crate::bytes::lemma_lex_trichotomy(key@, s0[i as int].0@);
            if j > i {
                lemma_lex_trans(key@, s0[i as int].0@, s0[j].0@);
            }
        }
        assert(stem_get(s0, key@) == None::<V>) by {
            assert forall|j: int| 0 <= j < s0.len() implies (#[trigger] s0[j]).0@ != key@ by {
                if s0[j].0@ == key@ {
                    lemma_lex_irrefl(key@);
                }
            }
            lemma_stem_get_absent(s0, key@);
        }
    }
    entries.insert(i, (key, value));
    proof {
        let s1 = entries@;
        assert forall|p: int, q: int| 0 <= p < q < s1.len() implies lex_lt(
            (#[trigger] s1[p]).0@,
            (#[trigger] s1[q]).0@,
        ) by {
            if p < i && q > i {
                assert(s0[p] == s1[p]);
                assert(s0[q - 1] == s1[q]);
            } else if q == i {
                assert(s0[p] == s1[p]);
            } else if p == i && q > i {
                assert(s0[q - 1] == s1[q]);
            } else if p > i {
                assert(s0[p - 1] == s1[p]);
                assert(s0[q - 1] == s1[q]);
            }
        }
        assert(stems_wf(s1)) by {
            assert forall|j: int| 0 <= j < s1.len() implies (#[trigger] s1[j]).0.wf() by {
                if j < i {
                    assert(s1[j] == s0[j]);
                } else if j > i {
                    assert(s1[j] == s0[j - 1]);
                }
            }
        }
        lemma_stem_get_at(s1, i as int);
        assert forall|k: Seq<u8>| k != key@ implies #[trigger] stem_get(s1, k) == stem_get(
            s0,
            k,
        ) by {
            lemma_stem_get_insert_other(s0, s1, k, i as int);
        }
        assert forall|p: int| 0 <= p < s1.len() implies (#[trigger] s1[p]) == (key, value)
            || s0.contains(s1[p]) by {
            if p < i {
                assert(s1[p] == s0[p]);
                assert(s0.contains(s0[p]));
            } else if p > i {
                assert(s1[p] == s0[p - 1]);
                assert(s0.contains(s0[p - 1]));
            }
        }
    }
    true
}

} // verus!
