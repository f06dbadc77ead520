//! Bits of the occupancy bitmaps.

use vstd::prelude::*;
use vstd::std_specs::bits::*;

verus! {

/// A 32-bit occupancy bitmap.
pub struct Bitmap {}

impl Bitmap {
    /// Bit `i` of `x` is set.
    #[verifier::opaque]
    pub open spec fn bit(x: u32, i: int) -> bool {
        (x >> (i as u32)) & 1u32 == 1u32
    }
}

/// An empty bitmap has no bit set.
pub proof fn lemma_bit_zero()
    ensures
        forall|i: int| 0 <= i < 32 ==> !#[trigger] Bitmap::bit(0, i),
{
    reveal(Bitmap::bit);
    assert(forall|i: u32| i < 32 ==> #[trigger] (0u32 >> i) & 1u32 == 0u32) by (bit_vector);
}

/// A bitmap with a bit set is not empty.
pub proof fn lemma_bit_nonzero(x: u32, i: int)
    requires
        0 <= i < 32,
        Bitmap::bit(x, i),
    ensures
        x != 0,
{
    lemma_bit_zero();
}

/// Setting a bit.
pub proof fn lemma_bit_set(x: u32, k: u32)
    requires
        k < 32,
    ensures
        forall|i: int|
            0 <= i < 32 ==> #[trigger] Bitmap::bit(x | (1u32 << k), i) == (Bitmap::bit(x, i) || i
                == k),
{
    reveal(Bitmap::bit);
    assert forall|i: int| 0 <= i < 32 implies #[trigger] Bitmap::bit(x | (1u32 << k), i) == (
    Bitmap::bit(x, i) || i == k) by {
        let j = i as u32;
        assert((((x | (1u32 << k)) >> j) & 1u32 == 1u32) == ((x >> j) & 1u32 == 1u32 || j == k))
            by (bit_vector)
            requires
                j < 32,
                k < 32,
        ;
    }
}

/// Clearing a bit.
pub proof fn lemma_bit_clear(x: u32, k: u32)
    requires
        k < 32,
    ensures
        forall|i: int|
            0 <= i < 32 ==> #[trigger] Bitmap::bit(x & !(1u32 << k), i) == (Bitmap::bit(x, i) && i
                != k),
{
    reveal(Bitmap::bit);
    assert forall|i: int| 0 <= i < 32 implies #[trigger] Bitmap::bit(x & !(1u32 << k), i) == (
    Bitmap::bit(x, i) && i != k) by {
        let j = i as u32;
        assert((((x & !(1u32 << k)) >> j) & 1u32 == 1u32) == ((x >> j) & 1u32 == 1u32 && j != k))
            by (bit_vector)
            requires
                j < 32,
                k < 32,
        ;
    }
}

/// Dropping the bits below `k`.
pub proof fn lemma_bit_mask(x: u32, k: u32)
    requires
        k < 32,
    ensures
        forall|i: int|
            0 <= i < 32 ==> #[trigger] Bitmap::bit(x & (!0u32 << k), i) == (Bitmap::bit(x, i) && i
                >= k),
{
    reveal(Bitmap::bit);
    assert forall|i: int| 0 <= i < 32 implies #[trigger] Bitmap::bit(x & (!0u32 << k), i) == (
    Bitmap::bit(x, i) && i >= k) by {
        let j = i as u32;
        assert((((x & (!0u32 << k)) >> j) & 1u32 == 1u32) == ((x >> j) & 1u32 == 1u32 && j >= k))
            by (bit_vector)
            requires
                j < 32,
                k < 32,
        ;
    }
}

/// The trailing zeros of a bitmap lead to its lowest bit.
pub proof fn lemma_lowest_bit(x: u32)
    requires
        x != 0,
    ensures
        u32_trailing_zeros(x) < 32,
        Bitmap::bit(x, u32_trailing_zeros(x) as int),
        forall|i: int| 0 <= i < u32_trailing_zeros(x) ==> !#[trigger] Bitmap::bit(x, i),
{
    reveal(Bitmap::bit);
    axiom_u32_trailing_zeros(x);
    assert forall|i: int| 0 <= i < u32_trailing_zeros(x) implies !#[trigger] Bitmap::bit(x, i) by {
        assert((x >> (i as u32)) & 1u32 == 0u32);
    }
}

} // verus!
