//! Byte-vector helpers: cloning, equality, and the lexicographic order that
//! both stores use for their native key order.

use vstd::prelude::*;

verus! {

/// Lexicographic order on byte sequences: a proper prefix sorts first,
/// otherwise the first differing byte decides.
pub open spec fn lex_lt(a: Seq<u8>, b: Seq<u8>) -> bool
    decreases a.len(),
{
    if b.len() == 0 {
        false
    } else if a.len() == 0 {
        true
    } else if a[0] < b[0] {
        true
    } else if a[0] == b[0] {
        lex_lt(a.drop_first(), b.drop_first())
    } else {
        false
    }
}

pub proof fn lemma_lex_irrefl(a: Seq<u8>)
    ensures
        !lex_lt(a, a),
    decreases a.len(),
{
    if a.len() > 0 {
        lemma_lex_irrefl(a.drop_first());
    }
}

/// Two sequences of one length are ordered one way or the other, or equal.
pub proof fn lemma_lex_trichotomy(a: Seq<u8>, b: Seq<u8>)
    requires
        a.len() == b.len(),
    ensures
        lex_lt(a, b) || lex_lt(b, a) || a == b,
    decreases a.len(),
{
    if a.len() == 0 {
        assert(a =~= b);
    } else if a[0] == b[0] && !lex_lt(a, b) && !lex_lt(b, a) {
        lemma_lex_trichotomy(a.drop_first(), b.drop_first());
        assert(a.drop_first() == b.drop_first());
        assert forall|i: int| 0 <= i < a.len() implies a[i] == b[i] by {
            if i > 0 {
                assert(a[i] == a.drop_first()[i - 1]);
                assert(b[i] == b.drop_first()[i - 1]);
            }
        }
        assert(a =~= b);
    }
}

pub proof fn lemma_lex_trans(a: Seq<u8>, b: Seq<u8>, c: Seq<u8>)
    requires
        lex_lt(a, b),
        lex_lt(b, c),
    ensures
        lex_lt(a, c),
    decreases a.len(),
{
    if a.len() > 0 && b.len() > 0 && a[0] == b[0] && b[0] == c[0] {
        lemma_lex_trans(a.drop_first(), b.drop_first(), c.drop_first());
    }
}

pub proof fn lemma_lex_asym(a: Seq<u8>, b: Seq<u8>)
    requires
        lex_lt(a, b),
    ensures
        !lex_lt(b, a),
{
    if lex_lt(b, a) {
        lemma_lex_trans(a, b, a);
        lemma_lex_irrefl(a);
    }
}

/// Appending one byte to each of two ordered sequences of one length keeps
/// the order, whatever the appended bytes are.
pub proof fn lemma_lex_push_lt(a: Seq<u8>, b: Seq<u8>, x: u8, y: u8)
    requires
        a.len() == b.len(),
        lex_lt(a, b),
    ensures
        lex_lt(a.push(x), b.push(y)),
    decreases a.len(),
{
    if a.len() == 0 {
    } else if a[0] == b[0] {
        lemma_lex_push_lt(a.drop_first(), b.drop_first(), x, y);
        assert(a.push(x).drop_first() =~= a.drop_first().push(x));
        assert(b.push(y).drop_first() =~= b.drop_first().push(y));
    }
}

/// Appending distinct bytes to one and the same sequence orders the results
/// by the appended bytes.
pub proof fn lemma_lex_push_eq(a: Seq<u8>, x: u8, y: u8)
    requires
        x < y,
    ensures
        lex_lt(a.push(x), a.push(y)),
    decreases a.len(),
{
    if a.len() > 0 {
        lemma_lex_push_eq(a.drop_first(), x, y);
        assert(a.push(x).drop_first() =~= a.drop_first().push(x));
        assert(a.push(y).drop_first() =~= a.drop_first().push(y));
    }
}

/// Appending one byte to each of two sequences of one length orders the
/// results by the sequences first and the appended bytes second.
pub proof fn lemma_lex_push_cases(a: Seq<u8>, b: Seq<u8>, x: u8, y: u8)
    requires
        a.len() == b.len(),
    ensures
        lex_lt(a.push(x), b.push(y)) <==> (lex_lt(a, b) || (a == b && x < y)),
{
    if lex_lt(a, b) {
        lemma_lex_push_lt(a, b, x, y);
    } else {
        lemma_lex_trichotomy(a, b);
        if a == b {
            if x < y {
                lemma_lex_push_eq(a, x, y);
            } else if lex_lt(a.push(x), b.push(y)) {
                if x == y {
                    assert(a.push(x) =~= b.push(y));
                    lemma_lex_irrefl(a.push(x));
                } else {
                    lemma_lex_push_eq(b, y, x);
                    lemma_lex_asym(a.push(x), b.push(y));
                }
            }
        } else {
            if lex_lt(a.push(x), b.push(y)) {
                lemma_lex_push_lt(b, a, y, x);
                lemma_lex_asym(a.push(x), b.push(y));
            }
        }
    }
}

/// A prefix of an order decides it: two ordered sequences are ordered on any
/// common prefix length, unless those prefixes are equal.
pub proof fn lemma_lex_take(x: Seq<u8>, y: Seq<u8>, n: int)
    requires
        lex_lt(x, y),
        0 <= n <= x.len(),
        n <= y.len(),
    ensures
        lex_lt(x.take(n), y.take(n)) || x.take(n) == y.take(n),
    decreases n,
{
    if n == 0 {
        assert(x.take(0) =~= y.take(0));
    } else if x.len() == 0 {
        // impossible: lex_lt with empty x and n > 0 <= x.len()
    } else if x[0] < y[0] {
        assert(x.take(n)[0] == x[0] && y.take(n)[0] == y[0]);
    } else {
        assert(x[0] == y[0]);
        lemma_lex_take(x.drop_first(), y.drop_first(), n - 1);
        assert(x.take(n).drop_first() =~= x.drop_first().take(n - 1));
        assert(y.take(n).drop_first() =~= y.drop_first().take(n - 1));
        if x.drop_first().take(n - 1) == y.drop_first().take(n - 1) {
            assert forall|t: int| 0 <= t < n implies x.take(n)[t] == y.take(n)[t] by {
                if t > 0 {
                    assert(x.take(n)[t] == x.drop_first().take(n - 1)[t - 1]);
                    assert(y.take(n)[t] == y.drop_first().take(n - 1)[t - 1]);
                }
            }
            assert(x.take(n) =~= y.take(n));
        } else {
            assert(x.take(n)[0] == y.take(n)[0]);
        }
    }
}

/// A shared prefix does not decide the order: both sides may be dropped.
proof fn lemma_lex_skip_one(a: Seq<u8>, b: Seq<u8>)
    requires
        a.len() > 0,
        b.len() > 0,
        a[0] == b[0],
    ensures
        lex_lt(a, b) <==> lex_lt(a.drop_first(), b.drop_first()),
{
}

pub fn clone_bytes(v: &Vec<u8>) -> (r: Vec<u8>)
    ensures
        r@ == v@,
{
    let r = v.clone();
    proof {
        assert forall|i: int| 0 <= i < v@.len() implies r@[i] == v@[i] by {
            assert(cloned::<u8>(v@[i], r@[i]));
        }
        assert(r@ =~= v@);
    }
    r
}

/// Append a copy of `src` to `out`.
pub fn push_bytes(out: &mut Vec<u8>, src: &Vec<u8>)
    ensures
        final(out)@ == old(out)@ + src@,
{
    let mut copy = clone_bytes(src);
    out.append(&mut copy);
}

pub fn bytes_eq(a: &Vec<u8>, b: &Vec<u8>) -> (r: bool)
    ensures
        r == (a@ == b@),
{
    if a.len() != b.len() {
        return false;
    }
    let n = a.len();
    let mut i: usize = 0;
    while i < n
        invariant
            n == a@.len() == b@.len(),
            0 <= i <= n,
            forall|k: int| 0 <= k < i ==> a@[k] == b@[k],
        decreases n - i,
    {
        if a[i] != b[i] {
            return false;
        }
        i = i + 1;
    }
    proof {
        assert(a@ =~= b@);
    }
    true
}

pub fn bytes_lt(a: &Vec<u8>, b: &Vec<u8>) -> (r: bool)
    requires
        a@.len() == b@.len(),
    ensures
        r == lex_lt(a@, b@),
{
    let n = a.len();
    let mut i: usize = 0;
    proof {
        assert(a@.skip(0) =~= a@);
        assert(b@.skip(0) =~= b@);
    }
    while i < n
        invariant
            n == a@.len() == b@.len(),
            0 <= i <= n,
            forall|k: int| 0 <= k < i ==> a@[k] == b@[k],
            lex_lt(a@, b@) <==> lex_lt(a@.skip(i as int), b@.skip(i as int)),
        decreases n - i,
    {
        proof {
            assert(a@.skip(i as int)[0] == a@[i as int]);
            assert(b@.skip(i as int)[0] == b@[i as int]);
        }
        if a[i] < b[i] {
            return true;
        }
        if a[i] > b[i] {
            return false;
        }
        proof {
            lemma_lex_skip_one(a@.skip(i as int), b@.skip(i as int));
            assert(a@.skip(i as int).drop_first() =~= a@.skip(i + 1));
            assert(b@.skip(i as int).drop_first() =~= b@.skip(i + 1));
        }
        i = i + 1;
    }
    proof {
        assert(a@.skip(n as int) =~= Seq::<u8>::empty());
        assert(b@.skip(n as int) =~= Seq::<u8>::empty());
    }
    false
}

} // verus!
