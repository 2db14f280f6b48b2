//! Core data model: stems, tree keys, and per-stem leaf nodes.

use vstd::prelude::*;
use vstd::pervasive::VecAdditionalExecFns;

use crate::bytes::clone_bytes;

verus! {

/// Length in bytes of a stem, the trie path prefix shared by up to 256 leaves.
pub const STEM_LEN: usize = 31;

/// Length in bytes of a leaf value and of a 256-bit hash.
pub const VALUE_LEN: usize = 32;

/// Length in bytes of a contract address.
pub const ADDRESS_LEN: usize = 20;

/// A 31-byte trie path prefix. Immutable once observed.
#[derive(Debug)]
pub struct Stem {
    pub bytes: Vec<u8>,
}

impl View for Stem {
    type V = Seq<u8>;

    open spec fn view(&self) -> Seq<u8> {
        self.bytes@
    }
}

impl Stem {
    pub open spec fn wf(self) -> bool {
        self@.len() == STEM_LEN
    }

    pub fn new(bytes: Vec<u8>) -> (r: Stem)
        requires
            bytes@.len() == STEM_LEN,
        ensures
            r.wf(),
            r@ == bytes@,
    {
        Stem { bytes }
    }

    pub fn as_bytes(&self) -> (r: &Vec<u8>)
        ensures
            r@ == self@,
    {
        &self.bytes
    }

    pub fn duplicate(&self) -> (r: Stem)
        ensures
            r@ == self@,
    {
        Stem { bytes: clone_bytes(&self.bytes) }
    }
}

/// A (stem, sub-index) pair: the globally unique identifier of one leaf.
#[derive(Debug)]
pub struct TreeKey {
    pub stem: Stem,
    pub subindex: u8,
}

impl TreeKey {
    pub open spec fn wf(self) -> bool {
        self.stem.wf()
    }

    pub fn new(stem: Stem, subindex: u8) -> (r: TreeKey)
        requires
            stem.wf(),
        ensures
            r.wf(),
            r.stem@ == stem@,
            r.subindex == subindex,
    {
        TreeKey { stem, subindex }
    }
}

/// What one value of an association list over sub-indices looks like in
/// specifications: the value bound to `k`, if any.
pub open spec fn sub_get(s: Seq<(u8, Vec<u8>)>, k: u8) -> Option<Seq<u8>>
    decreases s.len(),
{
    if s.len() == 0 {
        None
    } else if s[0].0 == k {
        Some(s[0].1@)
    } else {
        sub_get(s.drop_first(), k)
    }
}

/// Sub-index keys strictly ascending.
pub open spec fn subs_sorted(s: Seq<(u8, Vec<u8>)>) -> bool {
    forall|i: int, j: int| 0 <= i < j < s.len() ==> s[i].0 < s[j].0
}

/// Every value is 32 bytes.
pub open spec fn subs_values_wf(s: Seq<(u8, Vec<u8>)>) -> bool {
    forall|i: int| 0 <= i < s.len() ==> (#[trigger] s[i]).1@.len() == VALUE_LEN
}

pub proof fn lemma_sub_get_at(s: Seq<(u8, Vec<u8>)>, i: int)
    requires
        subs_sorted(s),
        0 <= i < s.len(),
    ensures
        sub_get(s, s[i].0) == Some(s[i].1@),
    decreases s.len(),
{
    if i > 0 {
        lemma_sub_get_at(s.drop_first(), i - 1);
    }
}

/// A bound sub-index is bound at some position.
pub proof fn lemma_sub_get_some_position(s: Seq<(u8, Vec<u8>)>, k: u8)
    requires
        sub_get(s, k) is Some,
    ensures
        exists|i: int|
            0 <= i < s.len() && (#[trigger] s[i]).0 == k && sub_get(s, k) == Some(s[i].1@),
    decreases s.len(),
{
    if s.len() > 0 {
        if s[0].0 == k {
            assert((#[trigger] s[0]).0 == k && sub_get(s, k) == Some(s[0].1@));
        } else {
            lemma_sub_get_some_position(s.drop_first(), k);
            let i = choose|i: int|
                0 <= i < s.drop_first().len() && (#[trigger] s.drop_first()[i]).0 == k && sub_get(
                    s.drop_first(),
                    k,
                ) == Some(s.drop_first()[i].1@);
            assert((#[trigger] s[i + 1]).0 == k && sub_get(s, k) == Some(s[i + 1].1@));
        }
    }
}

pub proof fn lemma_sub_get_absent(s: Seq<(u8, Vec<u8>)>, k: u8)
    requires
        forall|i: int| 0 <= i < s.len() ==> (#[trigger] s[i]).0 != k,
    ensures
        sub_get(s, k) == None::<Seq<u8>>,
    decreases s.len(),
{
    if s.len() > 0 {
        lemma_sub_get_absent(s.drop_first(), k);
    }
}

/// The live leaves under one stem: sub-index to 32-byte value, keys unique
/// and kept in ascending order.
#[derive(Debug)]
pub struct StemNode {
    pub values: Vec<(u8, Vec<u8>)>,
}

impl StemNode {
    pub open spec fn wf(self) -> bool {
        &&& subs_sorted(self.values@)
        &&& subs_values_wf(self.values@)
    }

    /// The mathematical content of the node: which value each sub-index holds.
    pub open spec fn value_of(self, k: u8) -> Option<Seq<u8>> {
        sub_get(self.values@, k)
    }

    pub fn new() -> (r: StemNode)
        ensures
            r.wf(),
            forall|k: u8| r.value_of(k) == None::<Seq<u8>>,
            r.values@.len() == 0,
    {
        let r = StemNode { values: Vec::new() };
        proof {
            assert forall|k: u8| r.value_of(k) == None::<Seq<u8>> by {
                lemma_sub_get_absent(r.values@, k);
            }
        }
        r
    }

    pub fn get(&self, subindex: u8) -> (r: Option<&Vec<u8>>)
        requires
            self.wf(),
        ensures
            match r {
                Some(v) => self.value_of(subindex) == Some(v@),
                None => self.value_of(subindex) == None::<Seq<u8>>,
            },
    {
        let n = self.values.len();
        let mut i: usize = 0;
        while i < n
            invariant
                self.wf(),
                n == self.values@.len(),
                0 <= i <= n,
                forall|j: int| 0 <= j < i ==> (#[trigger] self.values@[j]).0 != subindex,
            decreases n - i,
        {
            if self.values[i].0 == subindex {
                proof {
                    lemma_sub_get_at(self.values@, i as int);
                }
                return Some(&self.values[i].1);
            }
            i = i + 1;
        }
        proof {
            lemma_sub_get_absent(self.values@, subindex);
        }
        None
    }

    pub fn duplicate(&self) -> (r: StemNode)
        requires
            self.wf(),
        ensures
            r.wf(),
            forall|k: u8| #[trigger] r.value_of(k) == self.value_of(k),
            r.values@.len() == self.values@.len(),
    {
        let n = self.values.len();
        let mut values: Vec<(u8, Vec<u8>)> = Vec::new();
        let mut i: usize = 0;
        while i < n
            invariant
                self.wf(),
                n == self.values@.len(),
                0 <= i <= n,
                values@.len() == i,
                forall|j: int|
                    0 <= j < i ==> (#[trigger] values@[j]).0 == self.values@[j].0
                        && values@[j].1@ == self.values@[j].1@,
            decreases n - i,
        {
            values.push((self.values[i].0, clone_bytes(&self.values[i].1)));
            i = i + 1;
        }
        let r = StemNode { values };
        proof {
            assert forall|k: u8| #[trigger] r.value_of(k) == self.value_of(k) by {
                lemma_sub_get_pointwise(r.values@, self.values@, k);
            }
        }
        r
    }

    /// Bind `value` to `subindex`, replacing any earlier binding.
    pub fn set_value(&mut self, subindex: u8, value: Vec<u8>)
        requires
            old(self).wf(),
            value@.len() == VALUE_LEN,
        ensures
            final(self).wf(),
            final(self).value_of(subindex) == Some(value@),
            forall|k: u8| k != subindex ==> final(self).value_of(k) == old(self).value_of(k),
            final(self).values@.len() <= old(self).values@.len() + 1,
    {
        let ghost s0 = self.values@;
        let n = self.values.len();
        let mut i: usize = 0;
        while i < n && self.values[i].0 < subindex
            invariant
                subs_sorted(self.values@),
                subs_values_wf(self.values@),
                self.values@ == s0,
                n == self.values@.len(),
                0 <= i <= n,
                forall|j: int| 0 <= j < i ==> (#[trigger] self.values@[j]).0 < subindex,
            decreases n - i,
        {
            i = i + 1;
        }
        if i < n && self.values[i].0 == subindex {
            // replace in place
            self.values.set(i, (subindex, value));
            proof {
                let s1 = self.values@;
                assert(subs_sorted(s1));
                assert(subs_values_wf(s1));
                lemma_sub_get_at(s1, i as int);
                assert forall|k: u8| k != subindex implies sub_get(s1, k) == sub_get(s0, k) by {
                    lemma_sub_get_same_keys(s0, s1, k, i as int);
                }
            }
            return ;
        }
        // not present: insert at position i, all earlier keys smaller,
        // all later keys larger
        proof {
            assert forall|j: int| i <= j < self.values@.len() implies subindex < (
            #[trigger] self.values@[j]).0 by {
                if j > i {
                    assert(self.values@[i as int].0 < self.values@[j].0);
                }
            }
        }
        self.values.insert(i, (subindex, value));
        proof {
            let s1 = self.values@;
            assert forall|p: int, q: int| 0 <= p < q < s1.len() implies s1[p].0 < s1[q].0 by {
                if p < i && q > i {
                    assert(s0[p] == s1[p]);
                    assert(s0[q - 1] == s1[q]);
                } else if q == i {
                    assert(s0[p] == s1[p]);
                } else if p == i && q > i {
                    assert(s0[q - 1] == s1[q]);
                }
            }
            assert(subs_values_wf(s1));
            lemma_sub_get_at(s1, i as int);
            assert forall|k: u8| k != subindex implies sub_get(s1, k) == sub_get(s0, k) by {
                lemma_sub_get_insert_other(s0, s1, k, i as int);
            }
        }
    }
}

/// Two association lists equal key for key and value view for value view
/// bind every sub-index alike.
proof fn lemma_sub_get_pointwise(a: Seq<(u8, Vec<u8>)>, b: Seq<(u8, Vec<u8>)>, k: u8)
    requires
        a.len() == b.len(),
        forall|j: int| 0 <= j < a.len() ==> (#[trigger] a[j]).0 == b[j].0 && a[j].1@ == b[j].1@,
    ensures
        sub_get(a, k) == sub_get(b, k),
    decreases a.len(),
{
    if a.len() > 0 {
        assert(a[0].0 == b[0].0 && a[0].1@ == b[0].1@);
        if a[0].0 != k {
            assert forall|j: int|
                0 <= j < a.drop_first().len() implies (#[trigger] a.drop_first()[j]).0
                == b.drop_first()[j].0 && a.drop_first()[j].1@ == b.drop_first()[j].1@ by {
                assert(a[j + 1].0 == b[j + 1].0 && a[j + 1].1@ == b[j + 1].1@);
            }
            lemma_sub_get_pointwise(a.drop_first(), b.drop_first(), k);
        }
    }
}

/// Replacing the value at one position, key unchanged, leaves every other
/// key's binding unchanged.
proof fn lemma_sub_get_same_keys(s0: Seq<(u8, Vec<u8>)>, s1: Seq<(u8, Vec<u8>)>, k: u8, i: int)
    requires
        0 <= i < s0.len(),
        s1.len() == s0.len(),
        forall|j: int| 0 <= j < s0.len() && j != i ==> s0[j] == s1[j],
        s0[i].0 == s1[i].0,
        s0[i].0 != k,
    ensures
        sub_get(s1, k) == sub_get(s0, k),
    decreases s0.len(),
{
    if s0.len() > 0 {
        if i == 0 {
            assert(s0.drop_first() =~= s1.drop_first());
        } else if s0[0].0 != k {
            lemma_sub_get_same_keys(s0.drop_first(), s1.drop_first(), k, i - 1);
        }
    }
}

/// Inserting a pair with a fresh key at position `i` leaves every other
/// key's binding unchanged.
proof fn lemma_sub_get_insert_other(s0: Seq<(u8, Vec<u8>)>, s1: Seq<(u8, Vec<u8>)>, k: u8, i: int)
    requires
        0 <= i <= s0.len(),
        s1.len() == s0.len() + 1,
        forall|j: int| 0 <= j < i ==> s0[j] == s1[j],
        forall|j: int| i <= j < s0.len() ==> s0[j] == s1[j + 1],
        s1[i].0 != k,
    ensures
        sub_get(s1, k) == sub_get(s0, k),
    decreases s0.len(),
{
    if i == 0 {
        if s0.len() > 0 {
            assert(s1.drop_first() =~= s0);
        } else {
            assert(s1.drop_first() =~= s0);
        }
    } else {
        assert(s0[0] == s1[0]);
        if s0[0].0 != k {
            lemma_sub_get_insert_other(s0.drop_first(), s1.drop_first(), k, i - 1);
        }
    }
}

} // verus!
