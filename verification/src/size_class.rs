//! Size classes of the slab allocator.
//!
//! The classes grow in 8-byte steps for tiny sizes, in 16-byte steps for
//! small ones and geometrically from there on, which bounds what a slot
//! wastes. The class of a block is kept with its page, not with the block.

use vstd::prelude::*;

verus! {

/// Largest size that the slab allocator serves.
pub const SLAB_MAX_SIZE: usize = 1024;

/// Number of size classes.
pub const NUM_SIZE_CLASSES: usize = 22;

/// The slot size of each class.
pub const SIZE_CLASSES: [usize; 22] = [
    8, 16, 24, 32, 48, 64, 80, 96, 112, 128, 160, 192, 224, 256, 320, 384, 448, 512, 640, 768, 896, 1024,
];

/// The size classes.
pub struct SizeClass {}

impl SizeClass {
    /// The slot size of class `c`.
    pub open spec fn size(c: int) -> int {
        SIZE_CLASSES@[c] as int
    }

    /// `c` is the smallest class with room for `size` bytes.
    pub open spec fn fits(c: int, size: int) -> bool {
        &&& 0 <= c < NUM_SIZE_CLASSES
        &&& size <= Self::size(c)
        &&& forall|d: int| 0 <= d < c ==> #[trigger] Self::size(d) < size
    }

    /// The number of slots of class `c` in a page of `page` bytes.
    pub open spec fn slots(c: int, page: int) -> int {
        page / Self::size(c)
    }
}

/// Slot sizes are multiples of 8 between 8 and the largest size, and of 16
/// but for classes 0 and 2.
pub proof fn lemma_sizes(c: int)
    requires
        0 <= c < NUM_SIZE_CLASSES,
    ensures
        8 <= SizeClass::size(c) <= SLAB_MAX_SIZE,
        SizeClass::size(c) % 8 == 0,
        c != 0 && c != 2 ==> SizeClass::size(c) % 16 == 0,
{
}

/// The classes are strictly increasing.
pub proof fn lemma_sizes_increase(c: int, d: int)
    requires
        0 <= c < d < NUM_SIZE_CLASSES,
    ensures
        SizeClass::size(c) < SizeClass::size(d),
{
}

/// Less than half of a slot is wasted on any size above the smallest class.
pub proof fn waste_is_bounded(c: int, size: int)
    requires
        SizeClass::fits(c, size),
        size > 8,
    ensures
        2 * (SizeClass::size(c) - size) < SizeClass::size(c),
{
    assert(c > 0);
    assert(SizeClass::size(c - 1) < size);
    assert(SizeClass::size(c) <= 2 * SizeClass::size(c - 1));
}

/// A class is the class of its own slot size.
pub proof fn class_of_its_size(c: int)
    requires
        0 <= c < NUM_SIZE_CLASSES,
    ensures
        SizeClass::fits(c, SizeClass::size(c)),
        forall|d: int| #[trigger] SizeClass::fits(d, SizeClass::size(c)) ==> d == c,
{
    assert forall|d: int| 0 <= d < c implies #[trigger] SizeClass::size(d) < SizeClass::size(c) by {
        lemma_sizes_increase(d, c);
    }
}

/// A size has one class.
pub proof fn lemma_one_class(c: int, d: int, size: int)
    requires
        SizeClass::fits(c, size),
        SizeClass::fits(d, size),
    ensures
        c == d,
{
    assert(d < c ==> SizeClass::size(d) < size);
    assert(c < d ==> SizeClass::size(c) < size);
}

/// A multiple of 16 has a class whose slots are multiples of 16.
pub proof fn lemma_aligned_class(c: int, size: int)
    requires
        SizeClass::fits(c, size),
        size > 0,
        size % 16 == 0,
    ensures
        SizeClass::size(c) % 16 == 0,
{
    if c == 2 {
        assert(SizeClass::size(1) < size);
    }
}

/// The class of a size; `None` for one above the largest that the slab
/// allocator serves. Size 0 has class 0.
pub fn size_to_class(size: usize) -> (r: Option<u8>)
    ensures
        size > SLAB_MAX_SIZE ==> r is None,
        size <= SLAB_MAX_SIZE ==> r is Some && SizeClass::fits(r->0 as int, size as int),
{
    if size > SLAB_MAX_SIZE {
        return None;
    }
    let class: usize = if size == 0 {
        0
    } else if size <= 32 {
        (size + 7) / 8 - 1
    } else if size <= 128 {
        (size + 15) / 16 + 1
    } else if size <= 256 {
        (size + 31) / 32 + 5
    } else if size <= 512 {
        (size + 63) / 64 + 9
    } else {
        (size + 127) / 128 + 13
    };
    proof {
        assert(size <= SizeClass::size(class as int));
        assert(class > 0 ==> SizeClass::size(class - 1) < size);
        assert forall|d: int| 0 <= d < class implies #[trigger] SizeClass::size(d) < size by {
            if d < class - 1 {
                lemma_sizes_increase(d, class - 1);
            }
        }
    }
    Some(class as u8)
}

/// The slot size of a class.
pub fn class_to_size(class: u8) -> (r: usize)
    requires
        class < NUM_SIZE_CLASSES,
    ensures
        r == SizeClass::size(class as int),
{
    SIZE_CLASSES[class as usize]
}

/// How many slots of a class fit in a page.
pub fn slots_per_page(class: u8, page_size: usize) -> (r: usize)
    requires
        class < NUM_SIZE_CLASSES,
    ensures
        r == SizeClass::slots(class as int, page_size as int),
{
    proof {
        lemma_sizes(class as int);
    }
    let slot_size: usize = class_to_size(class);
    page_size / slot_size
}

/// The slots of a page of 4096 bytes: few enough for a 16-bit index, and none
/// sticks out.
pub proof fn lemma_slots(c: int)
    requires
        0 <= c < NUM_SIZE_CLASSES,
    ensures
        4 <= SizeClass::slots(c, 4096) <= 512,
        SizeClass::slots(c, 4096) * SizeClass::size(c) <= 4096,
{
    lemma_sizes(c);
    let z = SizeClass::size(c);
    vstd::arithmetic::div_mod::lemma_fundamental_div_mod(4096, z);
    assert(z * (4096int / z) == (4096int / z) * z) by (nonlinear_arith);
    vstd::arithmetic::div_mod::lemma_div_is_ordered_by_denominator(4096, 8, z);
    vstd::arithmetic::div_mod::lemma_div_is_ordered_by_denominator(4096, z, 1024);
}

/// Slot sizes grow by 8 up to 32, by 16 up to 128, by 32 up to 256, by 64 up
/// to 512 and by 128 up to 1024.
pub proof fn sizes_grow_in_steps(c: int)
    requires
        0 <= c < 21,
    ensures
        SizeClass::size(0) == 8,
        SizeClass::size(21) == 1024,
        ({
            let z = SizeClass::size(c);
            SizeClass::size(c + 1) - z == (if z < 32 {
                8int
            } else if z < 128 {
                16
            } else if z < 256 {
                32
            } else if z < 512 {
                64
            } else {
                128
            })
        }),
{
}

/// Any size up to 1024 has a class, and one more than a slot size has the next
/// one.
pub proof fn sizes_have_classes(c: int, size: int)
    requires
        SizeClass::fits(c, size),
    ensures
        size <= 1024,
        size < SizeClass::size(c) ==> SizeClass::fits(c, size + 1),
        size == SizeClass::size(c) && c < 21 ==> SizeClass::fits(c + 1, size + 1),
        c > 0 ==> SizeClass::size(c - 1) < size,
{
    if size == SizeClass::size(c) && c < 21 {
        assert forall|d: int| 0 <= d < c + 1 implies #[trigger] SizeClass::size(d) < size + 1 by {
            if d < c {
                lemma_sizes_increase(d, c);
            }
        }
    }
}

/// As many slots are made of a page as fit in it.
pub proof fn slots_fill_the_page(c: int, page: int)
    requires
        0 <= c < NUM_SIZE_CLASSES,
        page >= 0,
    ensures
        ({
            let n = SizeClass::slots(c, page);
            let z = SizeClass::size(c);
            n >= 0 && n * z <= page < (n + 1) * z
        }),
{
    lemma_sizes(c);
    let z = SizeClass::size(c);
    vstd::arithmetic::div_mod::lemma_fundamental_div_mod(page, z);
    vstd::arithmetic::div_mod::lemma_div_pos_is_pos(page, z);
    let n = page / z;
    assert((n + 1) * z == z * n + z) by (nonlinear_arith);
    assert(z * n == n * z) by (nonlinear_arith);
}

} // verus!
