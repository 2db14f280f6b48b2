//! 256-bit bitmaps over 32 bytes: bit `i` lives in byte `i / 8`, least
//! significant bit first within the byte. The secondary index records in such
//! a bitmap which sub-indices of a stem are populated.

use vstd::prelude::*;
use vstd::pervasive::VecAdditionalExecFns;

verus! {

/// Size in bytes of a sub-index bitmap.
pub const BITMAP_LEN: usize = 32;

/// Whether bit `i` is set.
pub open spec fn spec_bit_set(bm: Seq<u8>, i: u8) -> bool
    recommends
        bm.len() == BITMAP_LEN,
{
    (bm[i as int / 8] >> (i % 8)) & 1 == 1
}

/// A bitmap with every bit clear.
pub fn empty_bitmap() -> (r: Vec<u8>)
    ensures
        r@.len() == BITMAP_LEN,
        forall|k: u8| !spec_bit_set(r@, k),
{
    let mut r: Vec<u8> = Vec::new();
    let mut i: usize = 0;
    while i < BITMAP_LEN
        invariant
            0 <= i <= BITMAP_LEN,
            r@.len() == i,
            forall|j: int| 0 <= j < i ==> r@[j] == 0u8,
        decreases BITMAP_LEN - i,
    {
        r.push(0);
        i = i + 1;
    }
    proof {
        assert forall|k: u8| !spec_bit_set(r@, k) by {
            assert((0u8 >> (k % 8)) & 1 == 0) by (bit_vector);
        }
    }
    r
}

/// Set bit `subindex`.
pub fn set_bit(bitmap: &mut Vec<u8>, subindex: u8)
    requires
        old(bitmap)@.len() == BITMAP_LEN,
    ensures
        final(bitmap)@.len() == BITMAP_LEN,
        spec_bit_set(final(bitmap)@, subindex),
        forall|k: u8| k != subindex ==> spec_bit_set(final(bitmap)@, k) == spec_bit_set(
            old(bitmap)@,
            k,
        ),
{
    let byte: usize = (subindex / 8) as usize;
    let bit: u8 = subindex % 8;
    let old_byte = bitmap[byte];
    bitmap.set(byte, old_byte | (1u8 << bit));
    proof {
        let b = subindex;
        assert(((old_byte | (1u8 << (b % 8))) >> (b % 8)) & 1 == 1) by (bit_vector);
        assert(spec_bit_set(bitmap@, b));
        assert forall|k: u8| k != b implies spec_bit_set(bitmap@, k) == spec_bit_set(
            old(bitmap)@,
            k,
        ) by {
            if k as int / 8 == b as int / 8 {
                assert(k != b && k / 8 == b / 8 ==> k % 8 != b % 8) by (bit_vector);
                assert(k % 8 != b % 8 ==> (((old_byte | (1u8 << (b % 8))) >> (k % 8)) & 1 == (
                old_byte >> (k % 8)) & 1)) by (bit_vector);
            }
        }
    }
}

/// Whether bit `subindex` is set.
pub fn test_bit(bitmap: &Vec<u8>, subindex: u8) -> (r: bool)
    requires
        bitmap@.len() == BITMAP_LEN,
    ensures
        r == spec_bit_set(bitmap@, subindex),
{
    let byte: usize = (subindex / 8) as usize;
    let bit: u8 = subindex % 8;
    (bitmap[byte] >> bit) & 1 == 1
}

/// Set every bit of `src` in `dst`: bits only grow.
pub fn or_into(dst: &mut Vec<u8>, src: &Vec<u8>)
    requires
        old(dst)@.len() == BITMAP_LEN,
        src@.len() == BITMAP_LEN,
    ensures
        final(dst)@.len() == BITMAP_LEN,
        forall|k: u8| spec_bit_set(final(dst)@, k) == (spec_bit_set(old(dst)@, k) || spec_bit_set(
            src@,
            k,
        )),
{
    let ghost d0 = dst@;
    let mut i: usize = 0;
    while i < BITMAP_LEN
        invariant
            dst@.len() == BITMAP_LEN,
            src@.len() == BITMAP_LEN,
            0 <= i <= BITMAP_LEN,
            forall|j: int| 0 <= j < i ==> dst@[j] == (d0[j] | src@[j]),
            forall|j: int| i <= j < BITMAP_LEN ==> dst@[j] == d0[j],
        decreases BITMAP_LEN - i,
    {
        let merged = dst[i] | src[i];
        dst.set(i, merged);
        i = i + 1;
    }
    proof {
        assert forall|k: u8| spec_bit_set(dst@, k) == (spec_bit_set(d0, k) || spec_bit_set(
            src@,
            k,
        )) by {
            let x = d0[k as int / 8];
            let y = src@[k as int / 8];
            assert(((x | y) >> (k % 8)) & 1 == 1 <==> ((x >> (k % 8)) & 1 == 1 || (y >> (k % 8)) & 1
                == 1)) by (bit_vector);
        }
    }
}

/// The sub-indices whose bits are set, in ascending order.
pub fn iter_bitmap_subindices(bitmap: &Vec<u8>) -> (r: Vec<u8>)
    requires
        bitmap@.len() == BITMAP_LEN,
    ensures
        forall|p: int, q: int| 0 <= p < q < r@.len() ==> r@[p] < r@[q],
        forall|k: u8| r@.contains(k) <==> spec_bit_set(bitmap@, k),
        forall|p: int| 0 <= p < r@.len() ==> spec_bit_set(bitmap@, #[trigger] r@[p]),
{
    let mut r: Vec<u8> = Vec::new();
    let mut idx: u16 = 0;
    while idx < 256
        invariant
            bitmap@.len() == BITMAP_LEN,
            0 <= idx <= 256,
            forall|p: int, q: int| 0 <= p < q < r@.len() ==> r@[p] < r@[q],
            forall|p: int| 0 <= p < r@.len() ==> (#[trigger] r@[p]) < idx,
            forall|k: u8| r@.contains(k) <==> (k < idx && spec_bit_set(bitmap@, k)),
        decreases 256 - idx,
    {
        let k: u8 = idx as u8;
        let ghost r0 = r@;
        if test_bit(bitmap, k) {
            r.push(k);
            proof {
                assert forall|m: u8| r@.contains(m) <==> (m < idx + 1 && spec_bit_set(
                    bitmap@,
                    m,
                )) by {
                    if m == k {
                        assert(r@[r@.len() - 1] == k);
                        assert(r@.contains(k));
                    } else {
                        if r0.contains(m) {
                            let p = choose|p: int| 0 <= p < r0.len() && r0[p] == m;
                            assert(r@[p] == m);
                            assert(r@.contains(m));
                        }
                        if r@.contains(m) {
                            let p = choose|p: int| 0 <= p < r@.len() && r@[p] == m;
                            assert(r0[p] == m);
                            assert(r0.contains(m));
                        }
                    }
                }
            }
        } else {
            proof {
                assert forall|m: u8| r@.contains(m) <==> (m < idx + 1 && spec_bit_set(
                    bitmap@,
                    m,
                )) by {
                    if m == k {
                        if r@.contains(m) {
                            let p = choose|p: int| 0 <= p < r@.len() && r@[p] == m;
                        }
                    }
                }
            }
        }
        idx = idx + 1;
    }
    proof {
        assert forall|p: int| 0 <= p < r@.len() implies spec_bit_set(bitmap@, #[trigger] r@[p]) by {
            assert(r@.contains(r@[p]));
        }
    }
    r
}

/// Two 32-byte bitmaps that agree on every bit are the same bytes.
pub proof fn lemma_bitmap_ext(a: Seq<u8>, b: Seq<u8>)
    requires
        a.len() == BITMAP_LEN,
        b.len() == BITMAP_LEN,
        forall|k: u8| spec_bit_set(a, k) == spec_bit_set(b, k),
    ensures
        a == b,
{
    assert forall|j: int| 0 <= j < BITMAP_LEN implies a[j] == b[j] by {
        let x = a[j];
        let y = b[j];
        assert forall|bit: u8| bit < 8 implies (((x >> bit) & 1 == 1) <==> ((y >> bit) & 1 == 1))
            by {
            let k: u8 = (8 * j + bit) as u8;
            assert(k == 8 * j + bit);
            assert(k as int / 8 == j);
            assert(k % 8 == bit);
            assert(spec_bit_set(a, k) == spec_bit_set(b, k));
        }
        assert(((x >> 0u8) & 1 == 1) <==> ((y >> 0u8) & 1 == 1));
        assert(((x >> 1u8) & 1 == 1) <==> ((y >> 1u8) & 1 == 1));
        assert(((x >> 2u8) & 1 == 1) <==> ((y >> 2u8) & 1 == 1));
        assert(((x >> 3u8) & 1 == 1) <==> ((y >> 3u8) & 1 == 1));
        assert(((x >> 4u8) & 1 == 1) <==> ((y >> 4u8) & 1 == 1));
        assert(((x >> 5u8) & 1 == 1) <==> ((y >> 5u8) & 1 == 1));
        assert(((x >> 6u8) & 1 == 1) <==> ((y >> 6u8) & 1 == 1));
        assert(((x >> 7u8) & 1 == 1) <==> ((y >> 7u8) & 1 == 1));
        assert((
            (((x >> 0u8) & 1 == 1) <==> ((y >> 0u8) & 1 == 1)) &&
            (((x >> 1u8) & 1 == 1) <==> ((y >> 1u8) & 1 == 1)) &&
            (((x >> 2u8) & 1 == 1) <==> ((y >> 2u8) & 1 == 1)) &&
            (((x >> 3u8) & 1 == 1) <==> ((y >> 3u8) & 1 == 1)) &&
            (((x >> 4u8) & 1 == 1) <==> ((y >> 4u8) & 1 == 1)) &&
            (((x >> 5u8) & 1 == 1) <==> ((y >> 5u8) & 1 == 1)) &&
            (((x >> 6u8) & 1 == 1) <==> ((y >> 6u8) & 1 == 1)) &&
            (((x >> 7u8) & 1 == 1) <==> ((y >> 7u8) & 1 == 1))
        ) ==> x == y) by (bit_vector);
    }
    assert(a =~= b);
}

} // verus!
