//! Boundary tags and free-list links, and how they lie in memory.

use vstd::prelude::*;

use crate::memory::Region;

verus! {

/// Size of a block header.
pub const HEADER_SIZE: usize = 16;

/// Flag: the block is free.
pub const F_FREE: usize = 1;

/// Flag: the previous physical block is free.
pub const F_PREV_FREE: usize = 2;

/// Mask to extract the payload size from `size_and_flags`.
pub const SIZE_MASK: usize = !3;

/// Free-list links, which lie in the payload area of free blocks: the
/// addresses of the neighbours in the list, 0 for none.
pub struct FreeLinks {
    pub prev: usize,
    pub next: usize,
}

/// Header in front of every block, free or in use. In memory the size of the
/// previous block comes first, then the payload size with the flags in its
/// two low bits.
pub struct BlockHeader {
    pub prev_phys_size: usize,
    pub size_and_flags: usize,
}

impl BlockHeader {
    /// The payload size.
    pub open spec fn size_of(self) -> int {
        self.size_and_flags - self.size_and_flags % 4
    }

    /// The free flag.
    pub open spec fn free_flag(self) -> bool {
        self.size_and_flags % 2 == 1
    }

    /// The flag for the previous physical block.
    pub open spec fn prev_free_flag(self) -> bool {
        (self.size_and_flags / 2) % 2 == 1
    }

    /// The header that lies at `a`.
    pub open spec fn at(mem: Region, a: int) -> BlockHeader {
        BlockHeader {
            prev_phys_size: mem.word(a) as usize,
            size_and_flags: mem.word(a + 8) as usize,
        }
    }

    /// A readable header lies at `a`.
    pub open spec fn lies_at(mem: Region, a: int) -> bool {
        mem.has(a, 16) && 0 <= mem.word(a) <= usize::MAX && 0 <= mem.word(a + 8) <= usize::MAX
    }

    pub fn size(&self) -> (r: usize)
        ensures
            r == self.size_of(),
    {
        let x: usize = self.size_and_flags;
        assert(x & !3 == x - x % 4) by (bit_vector);
        x & SIZE_MASK
    }

    pub fn set_size(&mut self, s: usize)
        requires
            s % 4 == 0,
        ensures
            final(self).size_of() == s,
            final(self).free_flag() == old(self).free_flag(),
            final(self).prev_free_flag() == old(self).prev_free_flag(),
            final(self).prev_phys_size == old(self).prev_phys_size,
    {
        let x: usize = self.size_and_flags;
        let y: usize = s | (x & !SIZE_MASK);
        assert(s | (x & !!3) == s + x % 4) by (bit_vector)
            requires
                s % 4 == 0,
        ;
        self.size_and_flags = y;
    }

    pub fn is_free(&self) -> (r: bool)
        ensures
            r == self.free_flag(),
    {
        let x: usize = self.size_and_flags;
        assert(x & 1 == x % 2) by (bit_vector);
        x & F_FREE != 0
    }

    pub fn prev_is_free(&self) -> (r: bool)
        ensures
            r == self.prev_free_flag(),
    {
        let x: usize = self.size_and_flags;
        assert((x & 2 != 0) == ((x / 2) % 2 == 1)) by (bit_vector);
        x & F_PREV_FREE != 0
    }

    pub fn set_free(&mut self)
        ensures
            final(self).size_of() == old(self).size_of(),
            final(self).free_flag(),
            final(self).prev_free_flag() == old(self).prev_free_flag(),
            final(self).prev_phys_size == old(self).prev_phys_size,
    {
        let x: usize = self.size_and_flags;
        assert(x | 1 == x - x % 2 + 1) by (bit_vector);
        self.size_and_flags = x | F_FREE;
    }

    pub fn mark_used(&mut self)
        ensures
            final(self).size_of() == old(self).size_of(),
            !final(self).free_flag(),
            final(self).prev_free_flag() == old(self).prev_free_flag(),
            final(self).prev_phys_size == old(self).prev_phys_size,
    {
        let x: usize = self.size_and_flags;
        assert(x & !1 == x - x % 2) by (bit_vector);
        self.size_and_flags = x & !F_FREE;
    }

    pub fn mark_prev_free(&mut self)
        ensures
            final(self).size_of() == old(self).size_of(),
            final(self).free_flag() == old(self).free_flag(),
            final(self).prev_free_flag(),
            final(self).prev_phys_size == old(self).prev_phys_size,
    {
        let x: usize = self.size_and_flags;
        assert(x | 2 == x + 2 * (1 - (x / 2) % 2)) by (bit_vector);
        self.size_and_flags = x | F_PREV_FREE;
    }

    pub fn mark_prev_used(&mut self)
        ensures
            final(self).size_of() == old(self).size_of(),
            final(self).free_flag() == old(self).free_flag(),
            !final(self).prev_free_flag(),
            final(self).prev_phys_size == old(self).prev_phys_size,
    {
        let x: usize = self.size_and_flags;
        assert(x & !2 == x - 2 * ((x / 2) % 2)) by (bit_vector);
        self.size_and_flags = x & !F_PREV_FREE;
    }

    /// Address of the payload of the block at `addr`.
    pub fn payload(addr: usize) -> (r: usize)
        requires
            addr + HEADER_SIZE <= usize::MAX,
        ensures
            r == addr + HEADER_SIZE,
    {
        addr + HEADER_SIZE
    }

    /// Address of the block whose payload lies at `p`.
    pub fn from_payload(p: usize) -> (r: usize)
        requires
            p >= HEADER_SIZE,
        ensures
            r == p - HEADER_SIZE,
    {
        p - HEADER_SIZE
    }

    /// Address of the next physically adjacent block, for a block at `addr`.
    pub fn next_phys(&self, addr: usize) -> (r: usize)
        requires
            addr + HEADER_SIZE + self.size_of() <= usize::MAX,
        ensures
            r == addr + HEADER_SIZE + self.size_of(),
    {
        Self::payload(addr) + self.size()
    }

    /// Address of the previous physically adjacent block, for a block at
    /// `addr`.
    pub fn prev_phys(&self, addr: usize) -> (r: usize)
        requires
            addr >= self.prev_phys_size + HEADER_SIZE,
        ensures
            r == addr - self.prev_phys_size - HEADER_SIZE,
    {
        addr - (self.prev_phys_size + HEADER_SIZE)
    }

    /// Reads the header at `addr`.
    pub fn load(mem: &Region, addr: usize) -> (r: BlockHeader)
        requires
            mem.wf(),
            Self::lies_at(*mem, addr as int),
        ensures
            r == Self::at(*mem, addr as int),
    {
        BlockHeader {
            prev_phys_size: mem.read_u64(addr) as usize,
            size_and_flags: mem.read_u64(addr + 8) as usize,
        }
    }

    /// Writes the header at `addr`.
    pub fn store(&self, mem: &mut Region, addr: usize)
        requires
            old(mem).wf(),
            old(mem).has(addr as int, 16),
        ensures
            final(mem).wf(),
            Self::lies_at(*final(mem), addr as int),
            Self::at(*final(mem), addr as int) == *self,
            final(mem).same_outside(*old(mem), addr as int, addr + 16),
            forall|a: int|
                #![trigger final(mem).word(a)]
                old(mem).has(a, 8) && (a + 8 <= addr || addr + 16 <= a) ==> final(mem).word(a)
                    == old(mem).word(a),
    {
        mem.write_u64(addr, self.prev_phys_size as u64);
        mem.write_u64(addr + 8, self.size_and_flags as u64);
    }

    /// Reads the links of the free block at `addr`.
    pub fn links(mem: &Region, addr: usize) -> (r: FreeLinks)
        requires
            mem.wf(),
            mem.has(addr as int, 32),
            mem.word(addr + 16) <= usize::MAX,
            mem.word(addr + 24) <= usize::MAX,
        ensures
            r.prev == mem.word(addr + 16),
            r.next == mem.word(addr + 24),
    {
        FreeLinks {
            prev: mem.read_u64(addr + 16) as usize,
            next: mem.read_u64(addr + 24) as usize,
        }
    }
}

impl FreeLinks {
    /// Writes the links of the free block at `addr`.
    pub fn store(&self, mem: &mut Region, addr: usize)
        requires
            old(mem).wf(),
            old(mem).has(addr as int, 32),
        ensures
            final(mem).wf(),
            final(mem).word(addr + 16) == self.prev,
            final(mem).word(addr + 24) == self.next,
            final(mem).same_outside(*old(mem), addr + 16, addr + 32),
            forall|a: int|
                #![trigger final(mem).word(a)]
                old(mem).has(a, 8) && (a + 8 <= addr + 16 || addr + 32 <= a) ==> final(mem).word(a)
                    == old(mem).word(a),
    {
        mem.write_u64(addr + 16, self.prev as u64);
        mem.write_u64(addr + 24, self.next as u64);
    }
}

} // verus!
