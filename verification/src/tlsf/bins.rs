//! The two-level size bins.
//!
//! Bin `16 * fl + sl` collects the free blocks whose payload size lies in
//! `(16 + sl) * 2^fl .. (17 + sl) * 2^fl`: the first level doubles, the second
//! divides each doubling into 16 equal steps.

use vstd::arithmetic::power2::*;
use vstd::prelude::*;

verus! {

/// Block alignment.
pub const ALIGN: usize = 16;

/// Minimum payload of a block: room for two free-list links.
pub const MIN_PAYLOAD: usize = 16;

/// First-level index of the smallest managed bin: log2(16).
pub const FL_SHIFT: usize = 4;

/// Largest first-level index: log2(2 MB).
pub const FL_MAX: usize = 21;

/// Number of first-level bins.
pub const FL_COUNT: usize = 18;

/// Number of second-level bins per first-level bin.
pub const SL_COUNT: usize = 16;

/// log2 of `SL_COUNT`.
pub const SL_LOG2: usize = 4;

/// Number of bins.
pub const BIN_COUNT: usize = 288;

/// Smallest payload size that no bin takes.
pub const SIZE_LIMIT: usize = 0x40_0000;

/// The sizes that each bin takes.
pub struct Bins {}

impl Bins {
    /// The exponent of the largest power of two that is not above `n`.
    pub open spec fn floor_log2(n: int) -> int
        decreases n,
    {
        if n <= 1 {
            0
        } else {
            1 + Self::floor_log2(n / 2)
        }
    }

    /// The smallest size in bin `j`.
    pub open spec fn floor(j: int) -> int {
        (16 + j % 16) * pow2((j / 16) as nat)
    }

    /// The bin that takes blocks of `size` bytes.
    pub open spec fn of(size: int) -> int {
        let fl = Self::floor_log2(size) - 4;
        16 * fl + (size / (pow2(fl as nat) as int) - 16)
    }

    /// The first bin in which every block holds at least `size` bytes.
    pub open spec fn at_least(size: int) -> int {
        if Self::floor(Self::of(size)) == size {
            Self::of(size)
        } else {
            Self::of(size) + 1
        }
    }
}

proof fn lemma_floor_log2(n: int)
    requires
        n >= 1,
    ensures
        Bins::floor_log2(n) >= 0,
        pow2(Bins::floor_log2(n) as nat) <= n < pow2((Bins::floor_log2(n) + 1) as nat),
    decreases n,
{
    lemma2_to64();
    if n > 1 {
        lemma_floor_log2(n / 2);
        let k = Bins::floor_log2(n / 2);
        lemma_pow2_unfold((k + 1) as nat);
        lemma_pow2_unfold((k + 2) as nat);
    }
}

proof fn lemma_floor_log2_unique(n: int, k: int)
    requires
        k >= 0,
        pow2(k as nat) <= n < pow2((k + 1) as nat),
    ensures
        Bins::floor_log2(n) == k,
{
    lemma_pow2_pos(k as nat);
    lemma_floor_log2(n);
    let l = Bins::floor_log2(n);
    if l < k {
        if l + 1 < k {
            lemma_pow2_strictly_increases((l + 1) as nat, k as nat);
        }
    } else if k < l {
        if k + 1 < l {
            lemma_pow2_strictly_increases((k + 1) as nat, l as nat);
        }
    }
}

/// The floor of the bin behind a bin, in the step width of the latter.
proof fn lemma_floor_next(f: int, s: int)
    requires
        f >= 0,
        0 <= s < 16,
    ensures
        Bins::floor(16 * f + s) == (16 + s) * pow2(f as nat),
        Bins::floor(16 * f + s + 1) == (16 + s) * pow2(f as nat) + pow2(f as nat),
        Bins::floor(16 * f + s + 2) >= (16 + s) * pow2(f as nat) + 2 * pow2(f as nat),
        pow2(f as nat) > 0,
{
    let p = pow2(f as nat) as int;
    lemma_pow2_pos(f as nat);
    lemma_pow2_unfold((f + 1) as nat);
    let r = pow2((f + 1) as nat) as int;
    assert(r == 2 * p);
    let j = 16 * f + s;
    assert(j / 16 == f && j % 16 == s);
    assert((17 + s) * p == (16 + s) * p + p && (18 + s) * p == (16 + s) * p + 2 * p)
        by (nonlinear_arith);
    if s < 15 {
        assert((j + 1) / 16 == f && (j + 1) % 16 == s + 1);
        assert(Bins::floor(j + 1) == (17 + s) * p);
    } else {
        assert((j + 1) / 16 == f + 1 && (j + 1) % 16 == 0);
        assert(Bins::floor(j + 1) == 16 * r);
        assert((16 + s) * p == 31 * p);
    }
    if s < 14 {
        assert((j + 2) / 16 == f && (j + 2) % 16 == s + 2);
        assert(Bins::floor(j + 2) == (18 + s) * p);
    } else if s == 14 {
        assert((j + 2) / 16 == f + 1 && (j + 2) % 16 == 0);
        assert(Bins::floor(j + 2) == 16 * r);
        assert((16 + s) * p == 30 * p);
    } else {
        assert((j + 2) / 16 == f + 1 && (j + 2) % 16 == 1);
        assert(Bins::floor(j + 2) == 17 * r);
    }
}

/// The floors rise from bin to bin.
pub proof fn lemma_floor_step(j: int)
    requires
        j >= 0,
    ensures
        0 < Bins::floor(j) < Bins::floor(j + 1),
{
    let f = j / 16;
    let s = j % 16;
    let p = pow2(f as nat) as int;
    lemma_floor_next(f, s);
    assert(0 < (16 + s) * p) by (nonlinear_arith)
        requires
            s >= 0,
            p > 0,
    ;
}

/// A later bin has no smaller floor.
pub proof fn lemma_floor_monotone(i: int, j: int)
    requires
        0 <= i <= j,
    ensures
        Bins::floor(i) <= Bins::floor(j),
    decreases j - i,
{
    if i < j {
        lemma_floor_step(j - 1);
        lemma_floor_monotone(i, j - 1);
    }
}

/// A size lies between the floor of its bin and the next one.
pub proof fn lemma_bin_of(size: int)
    requires
        size >= 16,
    ensures
        Bins::of(size) >= 0,
        Bins::floor(Bins::of(size)) <= size < Bins::floor(Bins::of(size) + 1),
        Bins::of(size) / 16 == Bins::floor_log2(size) - 4,
        Bins::of(size) % 16 == size / (pow2((Bins::floor_log2(size) - 4) as nat) as int) - 16,
{
    lemma_floor_log2(size);
    let l = Bins::floor_log2(size);
    lemma2_to64();
    if l < 4 {
        if l + 1 < 4 {
            lemma_pow2_strictly_increases((l + 1) as nat, 4);
        }
    }
    let f = l - 4;
    let p = pow2(f as nat) as int;
    lemma_pow2_pos(f as nat);
    lemma_pow2_adds(f as nat, 4);
    lemma_pow2_adds(f as nat, 5);
    let q = size / p;
    vstd::arithmetic::div_mod::lemma_fundamental_div_mod(size, p);
    assert(p * q <= size < p * q + p);
    assert(16 <= q < 32) by (nonlinear_arith)
        requires
            p * q <= size < p * q + p,
            p * 16 <= size < p * 32,
            p > 0,
    ;
    let j = Bins::of(size);
    assert(j == 16 * f + (q - 16));
    assert(j / 16 == f && j % 16 == q - 16);
    lemma_floor_next(f, q - 16);
    assert(q * p == p * q) by (nonlinear_arith);
}

/// Only one bin takes a size.
pub proof fn lemma_bin_unique(size: int, j: int)
    requires
        j >= 0,
        Bins::floor(j) <= size < Bins::floor(j + 1),
        size >= 16,
    ensures
        Bins::of(size) == j,
{
    lemma_bin_of(size);
    let k = Bins::of(size);
    if k < j {
        lemma_floor_monotone(k + 1, j);
    } else if j < k {
        lemma_floor_monotone(j + 1, k);
    }
}

/// The bins cover the sizes below the limit, and only those.
pub proof fn lemma_bin_in_range(size: int)
    requires
        size >= 16,
    ensures
        size < SIZE_LIMIT <==> Bins::of(size) < BIN_COUNT,
        Bins::floor(BIN_COUNT as int) == SIZE_LIMIT,
{
    lemma2_to64();
    lemma_bin_of(size);
    let j = Bins::of(size);
    assert(Bins::floor(288) == 16 * pow2(18));
    if j < BIN_COUNT {
        lemma_floor_monotone(j + 1, BIN_COUNT as int);
    } else {
        lemma_floor_monotone(BIN_COUNT as int, j);
    }
}

/// A block in a bin from `at_least(size)` on holds `size` bytes.
pub proof fn lemma_at_least(size: int, held: int)
    requires
        size >= 16,
        held >= 16,
        Bins::at_least(size) <= Bins::of(held),
    ensures
        size <= held,
{
    lemma_bin_of(size);
    lemma_bin_of(held);
    lemma_floor_monotone(Bins::at_least(size), Bins::of(held));
}

/// A bin is narrow: its sizes differ by less than a sixteenth of the smallest.
pub proof fn bins_are_narrow(size: int)
    requires
        size >= 16,
    ensures
        16 * size < 17 * Bins::floor(Bins::of(size)) + 16,
        16 * Bins::floor(Bins::of(size) + 1) <= 17 * Bins::floor(Bins::of(size)),
        Bins::floor(Bins::of(size)) <= size < Bins::floor(Bins::of(size) + 1),
{
    lemma_bin_of(size);
    let j = Bins::of(size);
    let f = j / 16;
    let s = j % 16;
    let p = pow2(f as nat) as int;
    lemma_pow2_pos(f as nat);
    lemma_floor_next(f, s);
    assert(Bins::floor(j) == (16 + s) * p);
    assert((16 + s) * p == 16 * p + s * p && s * p >= 0) by (nonlinear_arith)
        requires
            s >= 0,
            p > 0,
    ;
}

/// A block that is larger than a request by a sixteenth is in a bin that is
/// searched for it.
pub proof fn larger_blocks_are_searched(need: int, held: int)
    requires
        need >= 16,
        16 * held >= 17 * need,
    ensures
        Bins::at_least(need) <= Bins::of(held),
{
    bins_are_narrow(need);
    lemma_bin_of(held);
    let j = Bins::of(need);
    if Bins::of(held) < j + 1 {
        lemma_floor_monotone(Bins::of(held) + 1, j + 1);
    }
}

/// A block of `(16 + s) * 2^f` bytes or more is in a bin that is searched for
/// every request up to that size.
pub proof fn round_sizes_fit_exactly(f: nat, s: int, need: int, held: int)
    requires
        0 <= s < 16,
        16 <= need <= (16 + s) * pow2(f),
        held >= (16 + s) * pow2(f),
    ensures
        Bins::at_least(need) <= Bins::of(held),
{
    let round = (16 + s) * pow2(f);
    lemma_pow2_pos(f);
    lemma_floor_next(f as int, s);
    lemma_bin_unique(round, 16 * f + s);
    lemma_bin_of(need);
    lemma_bin_of(held);
    if Bins::of(held) < 16 * f + s {
        lemma_floor_monotone(Bins::of(held) + 1, 16 * f + s);
    }
    if 16 * f + s < Bins::of(need) {
        lemma_floor_monotone(16 * f + s + 1, Bins::of(need));
    }
}

/// Counting the bits behind the first one set takes the logarithm.
proof fn lemma_leading_zeros(x: u64)
    requires
        x > 0,
    ensures
        vstd::std_specs::bits::u64_leading_zeros(x) < 64,
        Bins::floor_log2(x as int) == 63 - vstd::std_specs::bits::u64_leading_zeros(x),
{
    vstd::std_specs::bits::axiom_u64_leading_zeros(x);
    let lz = vstd::std_specs::bits::u64_leading_zeros(x);
    let fl = (63 - lz) as u64;
    lemma2_to64();
    lemma2_to64_rest();
    vstd::bits::lemma_u64_shr_is_div(x, fl);
    let y = x >> fl;
    assert(y == 0 ==> y & 1u64 == 0u64) by (bit_vector);
    lemma_pow2_pos(fl as nat);
    let p = pow2(fl as nat) as int;
    vstd::arithmetic::div_mod::lemma_fundamental_div_mod(x as int, p);
    assert(p <= x) by (nonlinear_arith)
        requires
            x == p * (x as int / p) + x as int % p,
            x as int % p >= 0,
            x as int / p >= 1,
            p > 0,
    ;
    if fl < 63 {
        let up = (fl + 1) as u64;
        vstd::bits::lemma_u64_shr_is_div(x, up);
        lemma_pow2_pos(up as nat);
        let r = pow2(up as nat) as int;
        vstd::arithmetic::div_mod::lemma_fundamental_div_mod(x as int, r);
        assert(x as int / r == 0);
        assert(x < r);
    } else {
        assert(pow2(64) == 0x1_0000_0000_0000_0000);
    }
    lemma_floor_log2_unique(x as int, fl as int);
}

/// Maps a payload size to `(fl_index, sl_index)`, the bin that takes it.
pub fn mapping(size: usize) -> (r: (usize, usize))
    requires
        size >= MIN_PAYLOAD,
    ensures
        16 * r.0 + r.1 == Bins::of(size as int),
        r.1 < SL_COUNT,
        Bins::floor(16 * r.0 + r.1) <= size < Bins::floor(16 * r.0 + r.1 + 1),
{
    let x: u64 = size as u64;
    proof {
        lemma_leading_zeros(x);
        lemma_bin_of(size as int);
    }
    let fl: u64 = 63 - x.leading_zeros() as u64;
    proof {
        vstd::bits::lemma_u64_shr_is_div(x, (fl - 4) as u64);
    }
    let q: u64 = x >> (fl - 4);
    let sl: u64 = q ^ 16;
    proof {
        assert(q ^ 16 == q - 16) by (bit_vector)
            requires
                16 <= q < 32,
        ;
    }
    ((fl - FL_SHIFT as u64) as usize, sl as usize)
}

/// Maps a payload size to the first bin, as `(fl_index, sl_index)`, in which
/// every block holds at least `size` bytes; `(FL_COUNT, 0)` if there is none.
pub fn mapping_search(size: usize) -> (r: (usize, usize))
    requires
        size >= MIN_PAYLOAD,
    ensures
        Bins::at_least(size as int) < BIN_COUNT ==> {
            &&& 16 * r.0 + r.1 == Bins::at_least(size as int)
            &&& r.0 < FL_COUNT
            &&& r.1 < SL_COUNT
        },
        Bins::at_least(size as int) >= BIN_COUNT ==> r == (FL_COUNT, 0usize),
{
    let x: u64 = size as u64;
    proof {
        lemma_leading_zeros(x);
        lemma_bin_of(size as int);
    }
    let fl: u64 = 63 - x.leading_zeros() as u64;
    let ghost p = pow2((fl - 4) as nat) as int;
    proof {
        lemma_pow2_pos((fl - 4) as nat);
        vstd::bits::lemma_u64_pow2_no_overflow((fl - 4) as nat);
        vstd::bits::lemma_u64_shl_is_mul(1, (fl - 4) as u64);
        assert(1 * p == p);
    }
    let round: u64 = (1u64 << (fl - 4)) - 1;
    let x2: u64 = x.saturating_add(round);
    proof {
        lemma_search(size as int, p, x2 as int);
        lemma_leading_zeros(x2);
    }
    let fl2: u64 = 63 - x2.leading_zeros() as u64;
    if fl2 > FL_MAX as u64 {
        return (FL_COUNT, 0);
    }
    proof {
        lemma_bin_of(x2 as int);
        vstd::bits::lemma_u64_shr_is_div(x2, (fl2 - 4) as u64);
    }
    let q: u64 = x2 >> (fl2 - 4);
    let sl: u64 = q ^ 16;
    proof {
        assert(q ^ 16 == q - 16) by (bit_vector)
            requires
                16 <= q < 32,
        ;
    }
    ((fl2 - FL_SHIFT as u64) as usize, sl as usize)
}

/// Aligns `size` up to `ALIGN`.
pub fn align_up_size(size: usize) -> (r: usize)
    requires
        size + 15 <= usize::MAX,
    ensures
        crate::platform::is_align_up(r as int, size as int, ALIGN as int),
{
    proof {
        lemma_align_pow2();
    }
    crate::platform::align_up(size, ALIGN)
}

proof fn lemma_align_pow2()
    ensures
        is_pow2(ALIGN as int),
{
    reveal_with_fuel(is_pow2, 6);
}

/// Rounding a size up within its bin leads to the first bin that is large
/// enough throughout.
proof fn lemma_search(size: int, p: int, x2: int)
    requires
        size >= 16,
        size <= u64::MAX,
        p == pow2((Bins::floor_log2(size) - 4) as nat),
        x2 == (if size + p - 1 <= u64::MAX {
            size + p - 1
        } else {
            u64::MAX as int
        }),
    ensures
        x2 >= 16,
        Bins::floor_log2(x2) > FL_MAX <==> Bins::at_least(size) >= BIN_COUNT,
        Bins::at_least(size) < BIN_COUNT ==> Bins::of(x2) == Bins::at_least(size),
{
    lemma_bin_of(size);
    lemma_pow2_pos((Bins::floor_log2(size) - 4) as nat);
    let j = Bins::of(size);
    let f = j / 16;
    let q = size / p;
    vstd::arithmetic::div_mod::lemma_fundamental_div_mod(size, p);
    let r = size % p;
    assert(Bins::floor(j) == q * p);
    assert(p * q == q * p) by (nonlinear_arith);
    assert(16 * p <= q * p) by (nonlinear_arith)
        requires
            16 <= q,
            p > 0,
    ;
    lemma_bin_of(x2);
    lemma_floor_next(f, q - 16);
    if size + p - 1 <= u64::MAX {
        if r == 0 {
            lemma_bin_unique(x2, j);
        } else {
            lemma_bin_unique(x2, j + 1);
        }
    } else {
        lemma_bin_in_range(size);
        lemma_bin_in_range(x2);
    }
}

} // verus!
