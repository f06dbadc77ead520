//! Regions of the address space and the bytes that they hold.
//!
//! A [`Region`] is what the operating system hands out: a base address and
//! the bytes that lie from there on. Every tag, link and header that the
//! allocator keeps inside the memory it manages is read and written through
//! a region, by absolute address. Numbers are stored little-endian.

use vstd::prelude::*;

verus! {

/// A contiguous run of mapped memory: the bytes at `base .. base + bytes.len()`.
pub struct Region {
    pub base: usize,
    pub bytes: Vec<u8>,
}

impl Region {
    /// The region lies above the null address and does not wrap around.
    pub open spec fn wf(self) -> bool {
        0 < self.base && self.base + self.bytes@.len() <= usize::MAX
    }

    /// First address behind the region.
    pub open spec fn end(self) -> int {
        self.base + self.bytes@.len()
    }

    /// The `n` bytes from address `a` on lie in the region.
    pub open spec fn has(self, a: int, n: int) -> bool {
        self.base <= a && 0 <= n && a + n <= self.end()
    }

    /// The byte at address `a`.
    pub open spec fn byte(self, a: int) -> u8 {
        self.bytes@[a - self.base]
    }

    /// The 16-bit number at address `a`.
    #[verifier::opaque]
    pub open spec fn half(self, a: int) -> int {
        self.byte(a) + 0x100 * self.byte(a + 1)
    }

    /// The 64-bit number at address `a`.
    #[verifier::opaque]
    pub open spec fn word(self, a: int) -> int {
        self.byte(a) + 0x100 * self.byte(a + 1) + 0x1_0000 * self.byte(a + 2) + 0x100_0000
            * self.byte(a + 3) + 0x1_0000_0000 * self.byte(a + 4) + 0x100_0000_0000 * self.byte(
            a + 5,
        ) + 0x1_0000_0000_0000 * self.byte(a + 6) + 0x100_0000_0000_0000 * self.byte(a + 7)
    }

    /// `self` and `other` lie at the same addresses.
    pub open spec fn same_place(self, other: Region) -> bool {
        self.base == other.base && self.bytes@.len() == other.bytes@.len()
    }

    /// `self` and `other` lie at the same addresses and hold the same bytes
    /// outside `lo .. hi`.
    pub open spec fn same_outside(self, other: Region, lo: int, hi: int) -> bool {
        &&& self.same_place(other)
        &&& forall|x: int|
            #![trigger self.byte(x)]
            #![trigger other.byte(x)]
            self.base <= x < self.end() && !(lo <= x < hi) ==> self.byte(x) == other.byte(x)
    }

    /// `self` and `other` share no address.
    pub open spec fn apart(self, other: Region) -> bool {
        self.end() <= other.base || other.end() <= self.base
    }

    /// Reads the byte at `addr`.
    pub fn read_u8(&self, addr: usize) -> (v: u8)
        requires
            self.wf(),
            self.has(addr as int, 1),
        ensures
            v == self.byte(addr as int),
    {
        self.bytes[addr - self.base]
    }

    /// Writes the byte at `addr`.
    pub fn write_u8(&mut self, addr: usize, v: u8)
        requires
            old(self).wf(),
            old(self).has(addr as int, 1),
        ensures
            final(self).wf(),
            final(self).byte(addr as int) == v,
            final(self).same_outside(*old(self), addr as int, addr + 1),
    {
        let i: usize = addr - self.base;
        self.bytes[i] = v;
    }

    /// Reads the 16-bit number at `addr`.
    pub fn read_u16(&self, addr: usize) -> (v: u16)
        requires
            self.wf(),
            self.has(addr as int, 2),
        ensures
            v == self.half(addr as int),
    {
        reveal(Region::half);
        let i: usize = addr - self.base;
        (self.bytes[i] as u16) + 0x100 * (self.bytes[i + 1] as u16)
    }

    /// Writes the 16-bit number at `addr`.
    pub fn write_u16(&mut self, addr: usize, v: u16)
        requires
            old(self).wf(),
            old(self).has(addr as int, 2),
        ensures
            final(self).wf(),
            final(self).half(addr as int) == v,
            final(self).same_outside(*old(self), addr as int, addr + 2),
            forall|a: int|
                #![trigger final(self).half(a)]
                old(self).has(a, 2) && (a + 2 <= addr || addr + 2 <= a) ==> final(self).half(a)
                    == old(self).half(a),
    {
        reveal(Region::half);
        let i: usize = addr - self.base;
        self.bytes[i] = (v % 0x100) as u8;
        self.bytes[i + 1] = (v / 0x100) as u8;
    }

    /// Reads the 64-bit number at `addr`.
    pub fn read_u64(&self, addr: usize) -> (v: u64)
        requires
            self.wf(),
            self.has(addr as int, 8),
        ensures
            v == self.word(addr as int),
    {
        reveal(Region::word);
        let i: usize = addr - self.base;
        (self.bytes[i] as u64) + 0x100 * (self.bytes[i + 1] as u64) + 0x1_0000 * (self.bytes[i
            + 2] as u64) + 0x100_0000 * (self.bytes[i + 3] as u64) + 0x1_0000_0000 * (self.bytes[i
            + 4] as u64) + 0x100_0000_0000 * (self.bytes[i + 5] as u64) + 0x1_0000_0000_0000 * (
        self.bytes[i + 6] as u64) + 0x100_0000_0000_0000 * (self.bytes[i + 7] as u64)
    }

    /// Writes the 64-bit number at `addr`.
    pub fn write_u64(&mut self, addr: usize, v: u64)
        requires
            old(self).wf(),
            old(self).has(addr as int, 8),
        ensures
            final(self).wf(),
            final(self).word(addr as int) == v,
            final(self).same_outside(*old(self), addr as int, addr + 8),
            forall|a: int|
                #![trigger final(self).word(a)]
                old(self).has(a, 8) && (a + 8 <= addr || addr + 8 <= a) ==> final(self).word(a)
                    == old(self).word(a),
    {
        let i: usize = addr - self.base;
        let q1: u64 = v / 0x100;
        let q2: u64 = q1 / 0x100;
        let q3: u64 = q2 / 0x100;
        let q4: u64 = q3 / 0x100;
        let q5: u64 = q4 / 0x100;
        let q6: u64 = q5 / 0x100;
        let q7: u64 = q6 / 0x100;
        self.bytes[i] = (v % 0x100) as u8;
        self.bytes[i + 1] = (q1 % 0x100) as u8;
        self.bytes[i + 2] = (q2 % 0x100) as u8;
        self.bytes[i + 3] = (q3 % 0x100) as u8;
        self.bytes[i + 4] = (q4 % 0x100) as u8;
        self.bytes[i + 5] = (q5 % 0x100) as u8;
        self.bytes[i + 6] = (q6 % 0x100) as u8;
        self.bytes[i + 7] = q7 as u8;
        proof {
            assert(q7 < 0x100);
            assert(self.word(addr as int) == v) by {
                reveal(Region::word);
            }
            assert forall|a: int|
                old(self).has(a, 8) && (a + 8 <= addr || addr + 8 <= a) implies self.word(a)
                == old(self).word(a) by {
                lemma_word_same(*self, *old(self), a);
            }
        }
    }

    /// Copies out the `n` bytes from `addr` on.
    pub fn read_bytes(&self, addr: usize, n: usize) -> (r: Vec<u8>)
        requires
            self.wf(),
            self.has(addr as int, n as int),
        ensures
            r@.len() == n,
            forall|i: int| 0 <= i < n ==> #[trigger] r@[i] == self.byte(addr + i),
    {
        let mut r: Vec<u8> = Vec::new();
        let mut k: usize = 0;
        while k < n
            invariant
                k <= n,
                self.wf(),
                self.has(addr as int, n as int),
                r@.len() == k,
                forall|i: int| 0 <= i < k ==> #[trigger] r@[i] == self.byte(addr + i),
            decreases n - k,
        {
            r.push(self.read_u8(addr + k));
            k = k + 1;
        }
        r
    }

    /// Writes bytes from `addr` on.
    pub fn write_bytes(&mut self, addr: usize, bytes: &Vec<u8>)
        requires
            old(self).wf(),
            old(self).has(addr as int, bytes@.len() as int),
        ensures
            final(self).wf(),
            final(self).same_outside(*old(self), addr as int, addr + bytes@.len()),
            forall|i: int| 0 <= i < bytes@.len() ==> #[trigger] final(self).byte(addr + i) == bytes@[i],
    {
        let mut k: usize = 0;
        while k < bytes.len()
            invariant
                k <= bytes@.len(),
                self.wf(),
                self.has(addr as int, bytes@.len() as int),
                self.same_outside(*old(self), addr as int, addr + bytes@.len()),
                forall|i: int| 0 <= i < k ==> #[trigger] self.byte(addr + i) == bytes@[i],
            decreases bytes@.len() - k,
        {
            self.write_u8(addr + k, bytes[k]);
            k = k + 1;
        }
    }

    /// Sets the `n` bytes from `addr` on to `v`.
    pub fn fill(&mut self, addr: usize, v: u8, n: usize)
        requires
            old(self).wf(),
            old(self).has(addr as int, n as int),
        ensures
            final(self).wf(),
            final(self).same_outside(*old(self), addr as int, addr + n),
            forall|x: int| addr <= x < addr + n ==> #[trigger] final(self).byte(x) == v,
    {
        let mut k: usize = 0;
        while k < n
            invariant
                k <= n,
                self.wf(),
                self.has(addr as int, n as int),
                self.same_outside(*old(self), addr as int, addr + n),
                forall|x: int| addr <= x < addr + k ==> #[trigger] self.byte(x) == v,
            decreases n - k,
        {
            self.write_u8(addr + k, v);
            k = k + 1;
        }
    }
}

/// Equal bytes make equal words.
pub proof fn lemma_word_same(new: Region, old: Region, a: int)
    requires
        new.same_place(old),
        new.has(a, 8),
        forall|x: int| #![trigger new.byte(x)] a <= x < a + 8 ==> new.byte(x) == old.byte(x),
    ensures
        new.word(a) == old.word(a),
{
    reveal(Region::word);
}

/// Equal bytes make equal halves.
pub proof fn lemma_half_same(new: Region, old: Region, a: int)
    requires
        new.same_place(old),
        new.has(a, 2),
        new.byte(a) == old.byte(a),
        new.byte(a + 1) == old.byte(a + 1),
    ensures
        new.half(a) == old.half(a),
{
    reveal(Region::half);
}

/// A number splits in one way into what is below `p` and multiples of it.
proof fn lemma_upper_part(w: int, low: int, p: int, high: int)
    requires
        0 <= low < p,
        w == high * p + low,
    ensures
        w / p == high,
{
    vstd::arithmetic::div_mod::lemma_fundamental_div_mod_converse(w, p, high, low);
}

/// A number in memory is made of its bytes, the lowest one first, and they can
/// be told from it.
pub proof fn numbers_are_made_of_bytes(mem: Region, a: int)
    ensures
        0 <= mem.half(a) < 0x1_0000,
        mem.half(a) % 0x100 == mem.byte(a),
        mem.half(a) / 0x100 == mem.byte(a + 1),
        0 <= mem.word(a) < 0x1_0000_0000_0000_0000,
        mem.word(a) % 0x100 == mem.byte(a),
        mem.word(a) / 0x100 % 0x100 == mem.byte(a + 1),
        mem.word(a) / 0x1_0000 % 0x100 == mem.byte(a + 2),
        mem.word(a) / 0x100_0000 % 0x100 == mem.byte(a + 3),
        mem.word(a) / 0x1_0000_0000 % 0x100 == mem.byte(a + 4),
        mem.word(a) / 0x100_0000_0000 % 0x100 == mem.byte(a + 5),
        mem.word(a) / 0x1_0000_0000_0000 % 0x100 == mem.byte(a + 6),
        mem.word(a) / 0x100_0000_0000_0000 == mem.byte(a + 7),
{
    reveal(Region::half);
    reveal(Region::word);
    let w = mem.word(a);
    let b0 = mem.byte(a) as int;
    let b1 = mem.byte(a + 1) as int;
    let b2 = mem.byte(a + 2) as int;
    let b3 = mem.byte(a + 3) as int;
    let b4 = mem.byte(a + 4) as int;
    let b5 = mem.byte(a + 5) as int;
    let b6 = mem.byte(a + 6) as int;
    let h7 = mem.byte(a + 7) as int;
    let h6 = b6 + 0x100 * h7;
    let h5 = b5 + 0x100 * h6;
    let h4 = b4 + 0x100 * h5;
    let h3 = b3 + 0x100 * h4;
    let h2 = b2 + 0x100 * h3;
    let h1 = b1 + 0x100 * h2;
    let l1 = b0 + 0x100 * b1;
    let l2 = l1 + 0x1_0000 * b2;
    let l3 = l2 + 0x100_0000 * b3;
    let l4 = l3 + 0x1_0000_0000 * b4;
    let l5 = l4 + 0x100_0000_0000 * b5;
    let l6 = l5 + 0x1_0000_0000_0000 * b6;
    lemma_upper_part(w, b0, 0x100, h1);
    lemma_upper_part(w, l1, 0x1_0000, h2);
    lemma_upper_part(w, l2, 0x100_0000, h3);
    lemma_upper_part(w, l3, 0x1_0000_0000, h4);
    lemma_upper_part(w, l4, 0x100_0000_0000, h5);
    lemma_upper_part(w, l5, 0x1_0000_0000_0000, h6);
    lemma_upper_part(w, l6, 0x100_0000_0000_0000, h7);
}

} // verus!
