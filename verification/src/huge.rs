//! Direct mapping of huge blocks.
//!
//! A huge block has a mapping of its own. Its first page holds a header; the
//! block starts at the next page boundary.

use std::collections::HashMap;

use vstd::prelude::*;

use crate::memory::Region;
use crate::platform::{align_up, is_mapping, os_alloc, PAGE_SIZE};

verus! {

/// Sizes from here on are mapped directly: 256 KB.
pub const HUGE_ALLOC_THRESHOLD: usize = 256 * 1024;

/// Marks the header of a huge block: "HUGE".
pub const HUGE_MAGIC: u32 = 0x48554745;

/// Header of a huge block, at the start of its mapping. In memory the mark
/// comes first, then, 8 bytes on, the size of the mapping.
pub struct HugeHeader {
    pub magic: u32,
    pub total_size: usize,
}

impl HugeHeader {
    /// The header at `a` is the one of a mapping of `total` bytes.
    pub open spec fn lies(mem: Region, a: int, total: int) -> bool {
        mem.word(a) % 0x1_0000_0000 == HUGE_MAGIC && mem.word(a + 8) == total
    }

    /// Writes the header at `addr`.
    fn store(&self, mem: &mut Region, addr: usize)
        requires
            old(mem).wf(),
            old(mem).has(addr as int, 16),
            self.magic == HUGE_MAGIC,
        ensures
            final(mem).wf(),
            Self::lies(*final(mem), addr as int, self.total_size as int),
            final(mem).same_outside(*old(mem), addr as int, addr + 16),
    {
        mem.write_u64(addr, self.magic as u64);
        mem.write_u64(addr + 8, self.total_size as u64);
    }

    /// Reads the header at `addr`.
    fn load(mem: &Region, addr: usize) -> (r: HugeHeader)
        requires
            mem.wf(),
            mem.has(addr as int, 16),
            mem.word(addr + 8) <= usize::MAX,
        ensures
            r.magic == mem.word(addr as int) % 0x1_0000_0000,
            r.total_size == mem.word(addr + 8),
    {
        HugeHeader {
            magic: (mem.read_u64(addr) % 0x1_0000_0000) as u32,
            total_size: mem.read_u64(addr + 8) as usize,
        }
    }
}

/// The mappings of the huge blocks, by the address of the block.
pub struct HugeBlocks {
    regions: HashMap<usize, Region>,
}

impl View for HugeBlocks {
    type V = Map<usize, Region>;

    closed spec fn view(&self) -> Map<usize, Region> {
        self.regions@
    }
}

impl HugeBlocks {
    /// How much is to be mapped for a block of `size` bytes.
    pub open spec fn total(size: int) -> int {
        (size + 2 * 4096 - 1) / 4096 * 4096
    }

    /// A block at `p` lies behind the header page of its mapping.
    pub open spec fn block_ok(p: usize, r: Region) -> bool {
        &&& r.wf()
        &&& r.base % PAGE_SIZE == 0
        &&& r.base + PAGE_SIZE == p
        &&& r.bytes@.len() >= PAGE_SIZE
        &&& r.bytes@.len() % 4096 == 0
        &&& HugeHeader::lies(r, r.base as int, r.bytes@.len() as int)
    }

    /// All blocks lie in mappings of their own.
    pub open spec fn wf(self) -> bool {
        &&& forall|p: usize| #[trigger]
            self@.dom().contains(p) ==> Self::block_ok(p, self@[p])
        &&& forall|p: usize, q: usize|
            #![trigger self@.dom().contains(p), self@.dom().contains(q)]
            self@.dom().contains(p) && self@.dom().contains(q) && p != q ==> self@[p].apart(self@[q])
    }

    /// No blocks.
    pub fn new() -> (r: HugeBlocks)
        ensures
            r@ == Map::<usize, Region>::empty(),
            r.wf(),
    {
        HugeBlocks { regions: HashMap::new() }
    }
}

/// Allocates a block that starts at a page boundary; 0 if it cannot be mapped.
///
/// The operating system is to be asked for the size of the block and one page
/// more, rounded up to a page boundary; `reply` is its answer.
pub fn huge_alloc(blocks: &mut HugeBlocks, size: usize, reply: Option<Region>) -> (r: usize)
    requires
        old(blocks).wf(),
        is_mapping(reply, HugeBlocks::total(size as int)) ==> forall|p: usize| #[trigger]
            old(blocks)@.dom().contains(p) ==> reply->0.apart(old(blocks)@[p]),
    ensures
        final(blocks).wf(),
        ({
            let total = HugeBlocks::total(size as int);
            if size + 2 * PAGE_SIZE - 1 <= usize::MAX && is_mapping(reply, total) {
                &&& r == reply->0.base + PAGE_SIZE
                &&& !old(blocks)@.dom().contains(r)
                &&& final(blocks)@ == old(blocks)@.insert(r, final(blocks)@[r])
                &&& final(blocks)@[r].same_outside(
                    reply->0,
                    reply->0.base as int,
                    reply->0.base + PAGE_SIZE,
                )
            } else {
                r == 0 && *final(blocks) == *old(blocks)
            }
        }),
{
    broadcast use vstd::std_specs::hash::group_hash_axioms;

    if size > usize::MAX - (2 * PAGE_SIZE - 1) {
        return 0;
    }
    proof {
        crate::platform::lemma_page_size_pow2();
    }
    let total_size: usize = align_up(size + PAGE_SIZE, PAGE_SIZE);
    let ghost total = HugeBlocks::total(size as int);
    assert(total_size == total);
    assert(crate::platform::is_align_up(total_size as int, total_size as int, PAGE_SIZE as int));
    if total_size > usize::MAX - (PAGE_SIZE - 1) {
        proof {
            if is_mapping(reply, total) {
                assert(reply->0.base >= 4096);
            }
        }
        return 0;
    }
    let mut mem = match os_alloc(total_size, reply) {
        Some(mem) => mem,
        None => {
            return 0;
        },
    };
    let base: usize = mem.base;
    let header = HugeHeader { magic: HUGE_MAGIC, total_size };
    header.store(&mut mem, base);
    let ptr: usize = base + PAGE_SIZE;
    proof {
        if old(blocks)@.dom().contains(ptr) {
            assert(reply->0.apart(old(blocks)@[ptr]));
        }
    }
    let ghost stored = mem;
    blocks.regions.insert(ptr, mem);
    proof {
        assert(blocks@ == old(blocks)@.insert(ptr, stored));
        assert(HugeBlocks::block_ok(ptr, stored));
        assert forall|p: usize, q: usize|
            #![trigger blocks@.dom().contains(p), blocks@.dom().contains(q)]
            blocks@.dom().contains(p) && blocks@.dom().contains(q) && p != q implies blocks@[p].apart(
            blocks@[q],
        ) by {
            if p == ptr {
                assert(old(blocks)@.dom().contains(q));
            } else if q == ptr {
                assert(old(blocks)@.dom().contains(p));
            } else {
                assert(old(blocks)@.dom().contains(p) && old(blocks)@.dom().contains(q));
            }
        }
    }
    ptr
}

impl HugeBlocks {
    /// Copies out `n` bytes of the block at `ptr`, from `offset` on.
    pub fn read_bytes(&self, ptr: usize, offset: usize, n: usize) -> (r: Vec<u8>)
        requires
            self.wf(),
            self@.dom().contains(ptr),
            offset + n <= self@[ptr].bytes@.len() - PAGE_SIZE,
        ensures
            r@.len() == n,
            forall|i: int| 0 <= i < n ==> #[trigger] r@[i] == self@[ptr].byte(ptr + offset + i),
    {
        broadcast use vstd::std_specs::hash::group_hash_axioms;

        match self.regions.get(&ptr) {
            Some(region) => region.read_bytes(ptr + offset, n),
            None => Vec::new(),
        }
    }

    /// Writes bytes to the block at `ptr`, from `offset` on.
    pub fn write_bytes(&mut self, ptr: usize, offset: usize, bytes: &Vec<u8>)
        requires
            old(self).wf(),
            old(self)@.dom().contains(ptr),
            offset + bytes@.len() <= old(self)@[ptr].bytes@.len() - PAGE_SIZE,
        ensures
            final(self).wf(),
            final(self)@ == old(self)@.insert(ptr, final(self)@[ptr]),
            final(self)@[ptr].same_outside(old(self)@[ptr], ptr + offset, ptr + offset + bytes@.len()),
            forall|i: int|
                0 <= i < bytes@.len() ==> #[trigger] final(self)@[ptr].byte(ptr + offset + i) == bytes@[i],
    {
        broadcast use vstd::std_specs::hash::group_hash_axioms;

        let ghost before = self@[ptr];
        match self.regions.remove(&ptr) {
            Some(mut region) => {
                region.write_bytes(ptr + offset, bytes);
                proof {
                    crate::memory::lemma_word_same(region, before, before.base as int);
                    crate::memory::lemma_word_same(region, before, before.base + 8);
                }
                let ghost after = region;
                self.regions.insert(ptr, region);
                proof {
                    assert(self@ =~= old(self)@.insert(ptr, after));
                    self.lemma_replaced(*old(self), ptr);
                }
            },
            None => {},
        }
    }

    /// Sets the first `n` bytes of the block at `ptr` to `v`.
    pub fn fill(&mut self, ptr: usize, v: u8, n: usize)
        requires
            old(self).wf(),
            old(self)@.dom().contains(ptr),
            n <= old(self)@[ptr].bytes@.len() - PAGE_SIZE,
        ensures
            final(self).wf(),
            final(self)@ == old(self)@.insert(ptr, final(self)@[ptr]),
            final(self)@[ptr].same_outside(old(self)@[ptr], ptr as int, ptr + n),
            forall|x: int| ptr <= x < ptr + n ==> #[trigger] final(self)@[ptr].byte(x) == v,
    {
        broadcast use vstd::std_specs::hash::group_hash_axioms;

        let ghost before = self@[ptr];
        match self.regions.remove(&ptr) {
            Some(mut region) => {
                region.fill(ptr, v, n);
                proof {
                    crate::memory::lemma_word_same(region, before, before.base as int);
                    crate::memory::lemma_word_same(region, before, before.base + 8);
                }
                let ghost after = region;
                self.regions.insert(ptr, region);
                proof {
                    assert(self@ =~= old(self)@.insert(ptr, after));
                    self.lemma_replaced(*old(self), ptr);
                }
            },
            None => {},
        }
    }

    /// A mapping replaced by one at the same place with the same header.
    proof fn lemma_replaced(self, old_self: HugeBlocks, ptr: usize)
        requires
            old_self.wf(),
            old_self@.dom().contains(ptr),
            self@ == old_self@.insert(ptr, self@[ptr]),
            self@[ptr].same_place(old_self@[ptr]),
            Self::block_ok(ptr, self@[ptr]),
        ensures
            self.wf(),
    {
        assert forall|p: usize| #[trigger] self@.dom().contains(p) implies old_self@.dom().contains(p) by {};
        assert forall|p: usize, q: usize|
            #![trigger self@.dom().contains(p), self@.dom().contains(q)]
            self@.dom().contains(p) && self@.dom().contains(q) && p != q implies self@[p].apart(self@[q]) by {
            assert(old_self@.dom().contains(p) && old_self@.dom().contains(q));
        }
    }
}

/// Gives a block back: the result is the mapping that the operating system is
/// to take back. An address that is not the one of a huge block is ignored.
pub fn huge_free(blocks: &mut HugeBlocks, ptr: usize) -> (r: Option<Region>)
    requires
        old(blocks).wf(),
    ensures
        final(blocks).wf(),
        final(blocks)@ == old(blocks)@.remove(ptr),
        r == (if old(blocks)@.dom().contains(ptr) {
            Some(old(blocks)@[ptr])
        } else {
            None
        }),
{
    broadcast use vstd::std_specs::hash::group_hash_axioms;

    let region = match blocks.regions.get(&ptr) {
        Some(region) => region,
        None => {
            assert(blocks@ =~= old(blocks)@.remove(ptr));
            return None;
        },
    };
    assert(old(blocks)@.dom().contains(ptr));
    let header = HugeHeader::load(region, region.base);
    if header.magic != HUGE_MAGIC {
        return None;
    }
    let r = blocks.regions.remove(&ptr);
    proof {
        assert forall|p: usize| #[trigger] blocks@.dom().contains(p) implies old(blocks)@.dom().contains(p)
            && blocks@[p] == old(blocks)@[p] by {};
        assert forall|p: usize, q: usize|
            #![trigger blocks@.dom().contains(p), blocks@.dom().contains(q)]
            blocks@.dom().contains(p) && blocks@.dom().contains(q) && p != q implies blocks@[p].apart(
            blocks@[q],
        ) by {
            assert(old(blocks)@.dom().contains(p) && old(blocks)@.dom().contains(q));
        }
    }
    r
}

/// The usable size of a huge block; 0 for an address that is not one of a huge
/// block.
pub fn huge_usable_size(blocks: &HugeBlocks, ptr: usize) -> (r: usize)
    requires
        blocks.wf(),
    ensures
        r == (if blocks@.dom().contains(ptr) {
            blocks@[ptr].bytes@.len() - PAGE_SIZE
        } else {
            0
        }),
{
    broadcast use vstd::std_specs::hash::group_hash_axioms;

    match blocks.regions.get(&ptr) {
        Some(region) => {
            assert(blocks@.dom().contains(ptr));
            let header = HugeHeader::load(region, region.base);
            if header.magic == HUGE_MAGIC {
                header.total_size - PAGE_SIZE
            } else {
                0
            }
        },
        None => 0,
    }
}

} // verus!
