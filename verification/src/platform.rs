//! What the allocator asks of the operating system, and alignment arithmetic.
//!
//! Mapping memory is not done here: a caller that can map memory asks
//! [`os_alloc`] what to make of the mapping that it was given, and
//! [`os_free`] what to hand back. Thread-local values are kept in a
//! [`ThreadLocals`] table, one per thread.

use std::collections::HashMap;

use vstd::arithmetic::power::*;
use vstd::arithmetic::power2::*;
use vstd::bits::*;
use vstd::prelude::*;

use crate::memory::Region;

verus! {

/// Default arena size: 2 MB.
pub const DEFAULT_ARENA_SIZE: usize = 2 * 1024 * 1024;

/// Page size: 4 KB.
pub const PAGE_SIZE: usize = 4096;

/// `r` is the least multiple of `align` that is not below `value`.
pub open spec fn is_align_up(r: int, value: int, align: int) -> bool {
    r % align == 0 && value <= r < value + align
}

/// Aligns `value` up to the nearest multiple of `align`, a power of two.
pub fn align_up(value: usize, align: usize) -> (r: usize)
    requires
        is_pow2(align as int),
        value + align - 1 <= usize::MAX,
    ensures
        is_align_up(r as int, value as int, align as int),
{
    proof {
        lemma_pow2_positive(align as int);
    }
    let sum: usize = value + (align - 1);
    let mask: usize = align - 1;
    let r: usize = sum & !mask;
    proof {
        lemma_mask_down(sum, align);
        lemma_below_multiple(sum as int, align as int);
    }
    r
}

/// Aligns an address up to the nearest multiple of `align`, a power of two.
pub fn align_ptr_up(ptr: usize, align: usize) -> (r: usize)
    requires
        is_pow2(align as int),
        ptr + align - 1 <= usize::MAX,
    ensures
        is_align_up(r as int, ptr as int, align as int),
{
    align_up(ptr, align)
}

proof fn lemma_pow2_positive(n: int)
    requires
        is_pow2(n),
    ensures
        n > 0,
{
    reveal(is_pow2);
}

/// Whether `n` is a power of two.
pub fn is_power_of_two(n: usize) -> (r: bool)
    ensures
        r == is_pow2(n as int),
{
    reveal(is_pow2);
    if n == 0 {
        return false;
    }
    let mut x: usize = n;
    while x % 2 == 0
        invariant
            x > 0,
            is_pow2(x as int) == is_pow2(n as int),
        decreases x,
    {
        reveal(is_pow2);
        x = x / 2;
    }
    x == 1
}

/// Clearing the low bits of a power of two rounds down to a multiple.
pub proof fn lemma_mask_down(x: usize, align: usize)
    requires
        is_pow2(align as int),
    ensures
        align > 0,
        x & !((align - 1) as usize) == x - x % align,
{
    is_pow2_equiv(align as int);
    let k = choose|k: nat| pow(2, k) == align;
    lemma_pow2_positive(align as int);
    assert(pow2(k) == align);
    if k >= usize::BITS {
        lemma2_to64();
        lemma2_to64_rest();
        if k > usize::BITS {
            lemma_pow2_strictly_increases(usize::BITS as nat, k);
        }
    }
    lemma_usize_low_bits_mask_is_mod(x, k);
    let m = (align - 1) as usize;
    reveal(low_bits_mask);
    assert(low_bits_mask(k) == m);
    assert(x & !m == x - (x & m)) by (bit_vector);
}

/// The multiple of `align` below `value + align - 1` is the one above `value`.
proof fn lemma_below_multiple(sum: int, align: int)
    requires
        align > 0,
        sum >= 0,
    ensures
        (sum - sum % align) % align == 0,
        sum - align < sum - sum % align <= sum,
{
    let q = sum / align;
    vstd::arithmetic::div_mod::lemma_fundamental_div_mod(sum, align);
    assert(sum - sum % align == align * q);
    vstd::arithmetic::div_mod::lemma_mod_multiples_basic(q, align);
    assert(align * q == q * align) by (nonlinear_arith);
}

/// The page size is a power of two.
pub proof fn lemma_page_size_pow2()
    ensures
        is_pow2(PAGE_SIZE as int),
{
    lemma2_to64();
    is_pow2_equiv(PAGE_SIZE as int);
    lemma_pow_positive(2, 12);
    assert(pow(2, 12) == pow2(12));
}

/// The mapping that the operating system gave is one of `len` bytes, starts
/// at a page boundary above null and does not wrap around.
pub open spec fn is_mapping(reply: Option<Region>, len: int) -> bool {
    &&& reply is Some
    &&& reply->0.wf()
    &&& reply->0.base % PAGE_SIZE == 0
    &&& reply->0.bytes@.len() == len
}

/// Takes memory from the operating system.
///
/// The operating system is to be asked for `size` bytes, rounded up to a page
/// boundary; `reply` is its answer. The mapping is taken if it has that
/// length and is page-aligned. The result is `None` on failure.
pub fn os_alloc(size: usize, reply: Option<Region>) -> (r: Option<Region>)
    ensures
        forall|len: int| #[trigger] is_align_up(len, size as int, PAGE_SIZE as int) ==> r == (
        if is_mapping(reply, len) {
            reply
        } else {
            None::<Region>
        }),
{
    if size > usize::MAX - (PAGE_SIZE - 1) {
        return None;
    }
    proof {
        lemma_page_size_pow2();
    }
    let aligned_size: usize = align_up(size, PAGE_SIZE);
    match reply {
        Some(region) => {
            let n: usize = region.bytes.len();
            if n == aligned_size && region.base != 0 && region.base % PAGE_SIZE == 0
                && region.base <= usize::MAX - n {
                Some(region)
            } else {
                None
            }
        },
        None => None,
    }
}

/// What the operating system is to be told when the `size` bytes at `ptr` are
/// given back: the address and the length, rounded up to a page boundary.
/// Nothing is given back for the null address.
pub fn os_free(ptr: usize, size: usize) -> (r: Option<(usize, usize)>)
    requires
        size + PAGE_SIZE - 1 <= usize::MAX,
    ensures
        ptr == 0 <==> r is None,
        r matches Some((p, n)) ==> p == ptr && is_align_up(n as int, size as int, PAGE_SIZE as int),
{
    if ptr == 0 {
        return None;
    }
    proof {
        lemma_page_size_pow2();
    }
    let aligned_size: usize = align_up(size, PAGE_SIZE);
    Some((ptr, aligned_size))
}

/// The source of thread-local keys, shared by all threads.
pub struct TlsKeys {
    pub next: u32,
}

impl TlsKeys {
    /// No key has been handed out; the first one is 1.
    pub fn new() -> (r: TlsKeys)
        ensures
            r.next == 1,
    {
        TlsKeys { next: 1 }
    }
}

/// Creates a new thread-local key.
pub fn tls_create(keys: &mut TlsKeys) -> (key: u32)
    ensures
        key == old(keys).next,
        final(keys).next == (if old(keys).next == u32::MAX { 0 } else { old(keys).next + 1 }),
{
    let key: u32 = keys.next;
    keys.next = key.wrapping_add(1);
    key
}

/// The thread-local values of one thread.
pub struct ThreadLocals {
    values: HashMap<u32, usize>,
}

impl View for ThreadLocals {
    type V = Map<u32, usize>;

    closed spec fn view(&self) -> Map<u32, usize> {
        self.values@
    }
}

impl ThreadLocals {
    /// A thread that has set no value.
    pub fn new() -> (r: ThreadLocals)
        ensures
            r@ == Map::<u32, usize>::empty(),
    {
        ThreadLocals { values: HashMap::new() }
    }

    /// The value under `key`; 0 if the thread has set none.
    pub open spec fn value(self, key: u32) -> usize {
        if self@.dom().contains(key) {
            self@[key]
        } else {
            0
        }
    }
}

/// The calling thread's value under `key`; 0 if it has set none.
pub fn tls_get(tls: &ThreadLocals, key: u32) -> (value: usize)
    ensures
        value == tls.value(key),
{
    broadcast use vstd::std_specs::hash::group_hash_axioms;

    match tls.values.get(&key) {
        Some(v) => *v,
        None => 0,
    }
}

/// Sets the calling thread's value under `key`.
pub fn tls_set(tls: &mut ThreadLocals, key: u32, value: usize)
    ensures
        final(tls)@ == old(tls)@.insert(key, value),
{
    broadcast use vstd::std_specs::hash::group_hash_axioms;

    tls.values.insert(key, value);
}

/// Rounding up reaches the least multiple that is not below the value, and
/// leaves a multiple as it is.
pub proof fn rounding_up_reaches_the_least_multiple(r: int, value: int, align: int, q: int)
    requires
        is_align_up(r, value, align),
        align > 0,
        q * align >= value,
    ensures
        value <= r,
        r % align == 0,
        r <= q * align,
{
    vstd::arithmetic::div_mod::lemma_fundamental_div_mod(r, align);
    let k = r / align;
    if q < k {
        assert(q * align <= (k - 1) * align) by (nonlinear_arith)
            requires
                q <= k - 1,
                align > 0,
        ;
        assert((k - 1) * align == align * k - align) by (nonlinear_arith);
    }
    assert(q >= k ==> q * align >= align * k) by (nonlinear_arith)
        requires
            align > 0,
    ;
}

/// There is a value to round up to.
pub proof fn everything_can_be_rounded_up(value: int, align: int, q: int)
    requires
        align > 0,
        value <= q * align < value + align,
    ensures
        is_align_up(q * align, value, align),
{
    vstd::arithmetic::div_mod::lemma_mod_multiples_basic(q, align);
}

/// What the operating system gives is taken if, and only if, it has the right
/// length, starts at a page boundary above null and does not wrap around.
pub proof fn mappings_are_taken(region: Region, len: int)
    ensures
        is_mapping(None, len) == false,
        is_mapping(Some(region), len) <==> region.bytes@.len() == len && region.base % 4096 == 0
            && region.base != 0 && region.base + len <= usize::MAX,
{
}

} // verus!
