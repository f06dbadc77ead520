//! TLSF (two-level segregated fit) allocator for medium and large requests.
//!
//! Free blocks are kept in a two-level matrix of doubly linked lists, indexed
//! by bitmaps, so that a fitting block is found, taken and given back in
//! constant time. Every block carries a boundary tag; a block that is given
//! back is merged with free physical neighbours.
//!
//! The tags and the links lie in the managed memory itself.

use vstd::prelude::*;

use crate::memory::{lemma_word_same, Region};
use crate::tlsf::bins::{
    align_up_size, mapping, mapping_search, Bins, ALIGN, BIN_COUNT, FL_COUNT, MIN_PAYLOAD, SIZE_LIMIT,
    SL_COUNT,
};
use crate::tlsf::bitmap::Bitmap;
use crate::tlsf::header::{BlockHeader, FreeLinks, HEADER_SIZE};
use crate::tlsf::model::{Block, TlsfState};

pub mod bins;
pub mod bitmap;
pub mod header;
pub mod laws;
pub mod model;

verus! {

/// Two-level segregated fit allocator.
pub struct TlsfAllocator {
    /// First-level bitmap: bit `i` is set iff a bin of level `i` has a free
    /// block.
    fl_bitmap: u32,
    /// Second-level bitmaps, one per first-level bin.
    sl_bitmaps: [u32; FL_COUNT],
    /// Heads of the free lists; 0 for an empty one.
    lists: [[usize; SL_COUNT]; FL_COUNT],
    /// Boundaries of the most recent pool.
    pool_start: usize,
    pool_end: usize,
    /// What the pools hold.
    state: Ghost<TlsfState>,
}

impl View for TlsfAllocator {
    type V = TlsfState;

    closed spec fn view(&self) -> TlsfState {
        self.state@
    }
}

impl TlsfAllocator {
    /// The link towards the front of the list.
    spec fn link_prev(l: Seq<int>, i: int) -> int {
        if i > 0 {
            l[i - 1]
        } else {
            0
        }
    }

    /// The link towards the back of the list.
    spec fn link_next(l: Seq<int>, i: int) -> int {
        if i + 1 < l.len() {
            l[i + 1]
        } else {
            0
        }
    }

    spec fn head(l: Seq<int>) -> int {
        if l.len() > 0 {
            l[0]
        } else {
            0
        }
    }

    spec fn heads_ok(self) -> bool {
        forall|f: int, s: int|
            #![trigger self.lists[f][s]]
            0 <= f < FL_COUNT && 0 <= s < SL_COUNT ==> self.lists[f][s] == Self::head(
                self@.bins[16 * f + s],
            )
    }

    spec fn bitmaps_ok(self) -> bool {
        &&& forall|f: int, s: int|
            #![trigger Bitmap::bit(self.sl_bitmaps[f], s)]
            0 <= f < FL_COUNT && 0 <= s < 32 ==> (Bitmap::bit(self.sl_bitmaps[f], s) <==> s
                < SL_COUNT && self@.bins[16 * f + s].len() > 0)
        &&& forall|f: int|
            #![trigger Bitmap::bit(self.fl_bitmap, f)]
            0 <= f < 32 ==> (Bitmap::bit(self.fl_bitmap, f) <==> f < FL_COUNT && self.sl_bitmaps[f]
                != 0)
    }

    /// The links of the members lie in memory.
    spec fn links_ok(self, mem: Region) -> bool {
        forall|j: int, i: int|
            #![trigger self@.slot(j, i)]
            self@.slot(j, i) ==> {
                let a = self@.bins[j][i];
                &&& a > 0
                &&& mem.has(a, 32)
                &&& mem.word(a + 16) == Self::link_prev(self@.bins[j], i)
                &&& mem.word(a + 24) == Self::link_next(self@.bins[j], i)
            }
    }

    /// The members of all bins keep apart.
    spec fn spaced(self) -> bool {
        forall|j: int, i: int, k: int, l: int|
            #![trigger self@.slot(j, i), self@.slot(k, l)]
            self@.slot(j, i) && self@.slot(k, l) && (j != k || i != l) ==> self@.bins[j][i] + 32
                <= self@.bins[k][l] || self@.bins[k][l] + 32 <= self@.bins[j][i]
    }

    /// Bitmaps, heads and links show the bins.
    spec fn lists_wf(self, mem: Region) -> bool {
        &&& mem.wf()
        &&& self@.bins.len() == BIN_COUNT
        &&& self.heads_ok()
        &&& self.bitmaps_ok()
        &&& self.links_ok(mem)
        &&& self.spaced()
    }

    /// `x` lies where the links of a member are.
    spec fn in_links(st: TlsfState, x: int) -> bool {
        exists|j: int, i: int|
            #![trigger st.bins[j][i]]
            st.slot(j, i) && st.bins[j][i] + 16 <= x < st.bins[j][i] + 32
    }

    /// The tag of the block at `a` lies in memory; its flag for the previous
    /// block is left open.
    spec fn tag_but(st: TlsfState, mem: Region, a: int) -> bool {
        &&& mem.has(a, 16 + st.blocks[a].size)
        &&& BlockHeader::lies_at(mem, a)
        &&& mem.word(a) == st.prev_size(a)
        &&& BlockHeader::at(mem, a).size_of() == st.blocks[a].size
        &&& BlockHeader::at(mem, a).free_flag() == st.blocks[a].free
    }

    /// The tag of the block at `a` lies in memory.
    spec fn tag(st: TlsfState, mem: Region, a: int) -> bool {
        &&& Self::tag_but(st, mem, a)
        &&& BlockHeader::at(mem, a).prev_free_flag() == st.prev_free(a)
    }

    spec fn tags_ok(st: TlsfState, mem: Region) -> bool {
        forall|a: int| #[trigger] st.has(a) ==> Self::tag(st, mem, a)
    }

    /// All tags lie in memory, but for the one flag of the block at `x`.
    spec fn tags_ok_but(st: TlsfState, mem: Region, x: int) -> bool {
        forall|a: int| #[trigger]
            st.has(a) ==> Self::tag_but(st, mem, a) && (a != x ==> Self::tag(st, mem, a))
    }

    /// The pools lie in `mem` in good order.
    pub closed spec fn wf(self, mem: Region) -> bool {
        &&& self@.wf()
        &&& self.lists_wf(mem)
        &&& Self::tags_ok(self@, mem)
        &&& self@.start == self.pool_start
        &&& self@.end == self.pool_end
    }

    /// In good order but for the free block at `x`: it is in no bin, it may
    /// have free neighbours, and the block behind it need not know it as free.
    spec fn wf_but(self, mem: Region, x: int) -> bool {
        &&& self@.wf_but(x)
        &&& self.lists_wf(mem)
        &&& Self::tags_ok_but(self@, mem, self@.next(x))
        &&& self@.start == self.pool_start
        &&& self@.end == self.pool_end
    }

    /// An allocator without a pool.
    pub fn new() -> (r: TlsfAllocator)
        ensures
            r@ == TlsfState::empty(),
            forall|mem: Region| mem.wf() ==> #[trigger] r.wf(mem),
    {
        let r = TlsfAllocator {
            fl_bitmap: 0,
            sl_bitmaps: [0; FL_COUNT],
            lists: [[0; SL_COUNT]; FL_COUNT],
            pool_start: 0,
            pool_end: 0,
            state: Ghost(TlsfState::empty()),
        };
        proof {
            bitmap::lemma_bit_zero();
            assert(r.heads_ok());
            assert(r.bitmaps_ok());
        }
        r
    }

    /// Whether `ptr` falls within the most recent pool.
    pub fn contains(&self, mem: &Region, ptr: usize) -> (r: bool)
        requires
            self.wf(*mem),
        ensures
            r == (self@.start <= ptr < self@.end),
    {
        ptr >= self.pool_start && ptr < self.pool_end
    }

    /// Adds the `size` bytes at `base` as a pool: one free block, and an end
    /// mark behind it. A pool that cannot hold these is ignored.
    pub fn add_pool(&mut self, mem: &mut Region, base: usize, size: usize)
        requires
            old(self).wf(*old(mem)),
            size >= 48 ==> {
                &&& base % 16 == 0
                &&& size < SIZE_LIMIT + 32
                &&& old(mem).has(base as int, size as int)
                &&& forall|x: int| base <= x < base + size ==> !old(self)@.covers(x)
            },
        ensures
            final(self)@ == old(self)@.pooled(base as int, size as int),
            final(self).wf(*final(mem)),
            final(mem).same_place(*old(mem)),
            forall|x: int|
                #![trigger final(mem).byte(x)]
                old(mem).has(x, 1) && old(self)@.client(x) && !(base <= x < base + size)
                    ==> final(mem).byte(x) == old(mem).byte(x),
    {
        let min_pool: usize = 2 * HEADER_SIZE + MIN_PAYLOAD;
        if size < min_pool {
            return;
        }
        let ghost st = self@;
        let ghost m0 = *mem;
        self.pool_start = base;
        self.pool_end = base + size;
        let payload_size: usize = (size - 2 * HEADER_SIZE) / ALIGN * ALIGN;
        let mut h = BlockHeader { prev_phys_size: 0, size_and_flags: payload_size };
        h.set_free();
        h.store(mem, base);
        let links = FreeLinks { prev: 0, next: 0 };
        links.store(mem, base);
        let sentinel: usize = h.next_phys(base);
        let mut sh = BlockHeader { prev_phys_size: payload_size, size_and_flags: 0 };
        sh.mark_prev_free();
        sh.store(mem, sentinel);
        let ghost m1 = *mem;
        let ghost b = base as int;
        let ghost e = sentinel as int;
        let ghost ps = TlsfState {
            blocks: st.blocks.insert(
                b,
                Block { size: payload_size as int, free: true, prev: None, pool: b },
            ).insert(e, Block { size: 0, free: false, prev: Some(b), pool: b }),
            start: b,
            end: b + size,
            ..st
        };
        proof {
            self.state@ = ps;
            model::lemma_pooled(st, b, size as int);
            bins::lemma_bin_of(payload_size as int);
            bins::lemma_bin_in_range(payload_size as int);
            assert forall|a: int| #[trigger] st.has(a) implies st.next(a) <= b || b + size <= a by {
                assert(!st.covers(b));
                if b <= a < b + size {
                    assert(st.covers(a));
                }
                if a < b && b < st.next(a) {
                    assert(st.covers(b));
                }
            }
            assert forall|x: int| b <= x < b + size implies !Self::in_links(st, x) by {
                Self::lemma_links_covered(st, x);
            }
            assert forall|x: int| #![trigger m1.byte(x)] Self::in_links(st, x) implies m1.byte(x)
                == m0.byte(x) by {
                let (j, i) = choose|j: int, i: int|
                    #![trigger st.bins[j][i]]
                    st.slot(j, i) && st.bins[j][i] + 16 <= x < st.bins[j][i] + 32;
                assert(st.slot(j, i));
                assert(m0.has(st.bins[j][i], 32));
            }
            self.lemma_lists_kept(*old(self), m1, m0);
            assert forall|a: int| #[trigger] ps.has(a) implies Self::tag(ps, m1, a) by {
                if a == e {
                    assert(ps.prev_size(e) == payload_size);
                } else if a != b {
                    assert(st.has(a));
                    assert(Self::tag(st, m0, a));
                    if st.blocks[a].prev is Some {
                        let p = st.blocks[a].prev->0;
                        assert(st.has(p));
                    }
                    Self::lemma_tag_same(ps, st, m1, m0, a);
                }
            }
            assert forall|j: int, i: int| #![trigger ps.bins[j][i]] ps.slot(j, i) implies ps.bins[j][i]
                + 32 <= b || b + 32 <= ps.bins[j][i] by {
                assert(st.slot(j, i) && st.has(st.bins[j][i]));
                assert(st.next(st.bins[j][i]) <= b || b + size <= st.bins[j][i]);
            }
        }
        self.insert_free(mem, base);
        proof {
            assert forall|x: int| #[trigger] Self::in_links(ps, x) implies Self::in_links(st, x) by {
                let (j, i) = choose|j: int, i: int|
                    #![trigger ps.bins[j][i]]
                    ps.slot(j, i) && ps.bins[j][i] + 16 <= x < ps.bins[j][i] + 32;
                assert(st.slot(j, i) && st.bins[j][i] + 16 <= x < st.bins[j][i] + 32);
            }
            assert forall|a: int| #[trigger] self@.has(a) implies Self::tag(self@, *mem, a) by {
                assert(ps.has(a));
                assert(Self::tag(ps, m1, a));
                assert forall|x: int| a <= x < a + 16 implies !Self::in_links(st, x) && !(b + 16 <= x
                    < b + 32) by {
                    if a != b && a != e {
                        assert(st.has(a));
                        Self::lemma_not_in_links(st, a, x);
                        assert(st.next(a) <= b || b + size <= a);
                    }
                }
                Self::lemma_tag_same(self@, ps, *mem, m1, a);
            }
            assert forall|x: int|
                #![trigger mem.byte(x)]
                m0.has(x, 1) && st.client(x) && !(b <= x < b + size) implies mem.byte(x) == m0.byte(x) by {
                Self::lemma_client_byte(st, x);
                assert(m1.byte(x) == m0.byte(x));
            }
        }
    }

    /// Inserts a free block in front of its bin.
    fn insert_free(&mut self, mem: &mut Region, block: usize)
        requires
            old(self).lists_wf(*old(mem)),
            old(mem).has(block as int, 32),
            BlockHeader::lies_at(*old(mem), block as int),
            old(self)@.has(block as int),
            BlockHeader::at(*old(mem), block as int).size_of() == old(self)@.blocks[block as int].size,
            16 <= old(self)@.blocks[block as int].size < SIZE_LIMIT,
            forall|j: int, i: int|
                #![trigger old(self)@.bins[j][i]]
                old(self)@.slot(j, i) ==> old(self)@.bins[j][i] + 32 <= block || block + 32
                    <= old(self)@.bins[j][i],
        ensures
            final(self).lists_wf(*final(mem)),
            final(self)@ == old(self)@.list(block as int),
            final(self).pool_start == old(self).pool_start,
            final(self).pool_end == old(self).pool_end,
            final(mem).same_place(*old(mem)),
            forall|x: int|
                #![trigger final(mem).byte(x)]
                old(mem).has(x, 1) && !Self::in_links(old(self)@, x) && !(block + 16 <= x < block
                    + 32) ==> final(mem).byte(x) == old(mem).byte(x),
    {
        let ghost st = self@;
        let size: usize = BlockHeader::load(mem, block).size();
        proof {
            bins::lemma_bin_of(size as int);
            bins::lemma_bin_in_range(size as int);
        }
        let (fl, sl) = mapping(size);
        let ghost j = Bins::of(size as int);
        let head: usize = self.lists[fl][sl];
        let links = FreeLinks { prev: 0, next: head };
        links.store(mem, block);
        if head != 0 {
            proof {
                assert(st.slot(j, 0) && st.bins[j][0] == head);
            }
            mem.write_u64(head + 16, block as u64);
        }
        self.lists[fl][sl] = block;
        let ghost fl_old = self.fl_bitmap;
        let ghost sl_old = self.sl_bitmaps[fl as int];
        self.fl_bitmap = self.fl_bitmap | (1u32 << (fl as u32));
        self.sl_bitmaps[fl] = self.sl_bitmaps[fl] | (1u32 << (sl as u32));
        proof {
            self.state@ = st.list(block as int);
            let bins = self@.bins;
            bitmap::lemma_bit_set(fl_old, fl as u32);
            bitmap::lemma_bit_set(sl_old, sl as u32);
            assert(Bitmap::bit(self.sl_bitmaps[fl as int], sl as int));
            bitmap::lemma_bit_nonzero(self.sl_bitmaps[fl as int], sl as int);
            assert(self.heads_ok());
            assert(self.bitmaps_ok());
            assert forall|k: int, i: int| #![trigger bins[k][i]] self@.slot(k, i) implies {
                &&& k != j ==> bins[k][i] == st.bins[k][i] && st.slot(k, i)
                &&& k == j && i == 0 ==> bins[k][i] == block
                &&& k == j && i > 0 ==> bins[k][i] == st.bins[k][i - 1] && st.slot(k, i - 1)
            } by {};
            assert(self.spaced());
            assert(self.links_ok(*mem));
        }
    }

    /// Links the list neighbours `prev` and `next` with each other.
    fn join_links(mem: &mut Region, prev: usize, next: usize)
        requires
            old(mem).wf(),
            prev != 0 ==> old(mem).has(prev as int, 32),
            next != 0 ==> old(mem).has(next as int, 32),
            prev != 0 && next != 0 ==> prev + 32 <= next || next + 32 <= prev,
        ensures
            final(mem).wf(),
            final(mem).same_place(*old(mem)),
            prev != 0 ==> final(mem).word(prev + 24) == next,
            next != 0 ==> final(mem).word(next + 16) == prev,
            forall|x: int|
                #![trigger final(mem).byte(x)]
                old(mem).has(x, 1) && !(prev != 0 && prev + 24 <= x < prev + 32) && !(next != 0
                    && next + 16 <= x < next + 24) ==> final(mem).byte(x) == old(mem).byte(x),
            forall|a: int|
                #![trigger final(mem).word(a)]
                old(mem).has(a, 8) && (prev == 0 || a + 8 <= prev + 24 || prev + 32 <= a) && (next
                    == 0 || a + 8 <= next + 16 || next + 24 <= a) ==> final(mem).word(a) == old(
                    mem,
                ).word(a),
    {
        if prev != 0 {
            mem.write_u64(prev + 24, next as u64);
        }
        if next != 0 {
            mem.write_u64(next + 16, prev as u64);
        }
    }

    /// The links show the bins after member `p` of bin `j` has been taken out.
    proof fn lemma_unlinked(old_self: Self, new_self: Self, old_mem: Region, new_mem: Region, j: int, p: int)
        requires
            old_self.links_ok(old_mem),
            old_self.spaced(),
            old_self@.bins.len() == BIN_COUNT,
            old_self@.slot(j, p),
            new_self@.bins == old_self@.bins.update(j, old_self@.bins[j].remove(p)),
            new_mem.same_place(old_mem),
            ({
                let l = old_self@.bins[j];
                let prev = Self::link_prev(l, p);
                let next = Self::link_next(l, p);
                &&& prev != 0 ==> new_mem.word(prev + 24) == next
                &&& next != 0 ==> new_mem.word(next + 16) == prev
                &&& forall|a: int|
                    #![trigger new_mem.word(a)]
                    old_mem.has(a, 8) && (prev == 0 || a + 8 <= prev + 24 || prev + 32 <= a) && (
                    next == 0 || a + 8 <= next + 16 || next + 24 <= a) ==> new_mem.word(a)
                        == old_mem.word(a)
            }),
        ensures
            new_self.links_ok(new_mem),
            new_self.spaced(),
    {
        let st = old_self@;
        let ns = new_self@;
        assert forall|k: int, i: int, f: int, g: int|
            #![trigger ns.bins[k][i], ns.bins[f][g]]
            ns.slot(k, i) && ns.slot(f, g) && (k != f || i != g) implies ns.bins[k][i] + 32
            <= ns.bins[f][g] || ns.bins[f][g] + 32 <= ns.bins[k][i] by {
            let o = Self::place_before(j, p, k, i);
            let q = Self::place_before(j, p, f, g);
            assert(st.slot(k, o) && st.bins[k][o] == ns.bins[k][i]);
            assert(st.slot(f, q) && st.bins[f][q] == ns.bins[f][g]);
        }
        assert forall|k: int, i: int| #![trigger ns.bins[k][i]] ns.slot(k, i) implies {
            let a = ns.bins[k][i];
            &&& a > 0
            &&& new_mem.has(a, 32)
            &&& new_mem.word(a + 16) == Self::link_prev(ns.bins[k], i)
            &&& new_mem.word(a + 24) == Self::link_next(ns.bins[k], i)
        } by {
            Self::lemma_unlinked_at(old_self, old_mem, new_mem, j, p, k, i);
        }
    }

    /// The place in bin `k` of its member `i`, before member `p` of bin `j`
    /// was taken out.
    spec fn place_before(j: int, p: int, k: int, i: int) -> int {
        if k == j && i >= p {
            i + 1
        } else {
            i
        }
    }

    /// The links of one member after member `p` of bin `j` has been taken out.
    proof fn lemma_unlinked_at(self, old_mem: Region, new_mem: Region, j: int, p: int, k: int, i: int)
        requires
            self.links_ok(old_mem),
            self.spaced(),
            self@.slot(j, p),
            0 <= k < BIN_COUNT,
            0 <= i,
            i < (if k == j {
                self@.bins[j].len() - 1
            } else {
                self@.bins[k].len() as int
            }),
            new_mem.same_place(old_mem),
            ({
                let l = self@.bins[j];
                let prev = Self::link_prev(l, p);
                let next = Self::link_next(l, p);
                &&& prev != 0 ==> new_mem.word(prev + 24) == next
                &&& next != 0 ==> new_mem.word(next + 16) == prev
                &&& forall|a: int|
                    #![trigger new_mem.word(a)]
                    old_mem.has(a, 8) && (prev == 0 || a + 8 <= prev + 24 || prev + 32 <= a) && (
                    next == 0 || a + 8 <= next + 16 || next + 24 <= a) ==> new_mem.word(a)
                        == old_mem.word(a)
            }),
        ensures
            ({
                let m = if k == j {
                    self@.bins[j].remove(p)
                } else {
                    self@.bins[k]
                };
                let a = m[i];
                &&& a > 0
                &&& new_mem.has(a, 32)
                &&& new_mem.word(a + 16) == Self::link_prev(m, i)
                &&& new_mem.word(a + 24) == Self::link_next(m, i)
            }),
    {
        let st = self@;
        let l = st.bins[j];
        let o = Self::place_before(j, p, k, i);
        let a = st.bins[k][o];
        assert(st.slot(k, o));
        assert(p > 0 ==> st.slot(j, p - 1));
        assert(p > 0 ==> st.bins[j][p - 1] > 0);
        assert(p + 1 < l.len() ==> st.slot(j, p + 1));
        assert(p + 1 < l.len() ==> st.bins[j][p + 1] > 0);
    }

    /// Takes a free block out of its bin.
    fn remove_free(&mut self, mem: &mut Region, block: usize)
        requires
            old(self).lists_wf(*old(mem)),
            BlockHeader::lies_at(*old(mem), block as int),
            old(self)@.has(block as int),
            BlockHeader::at(*old(mem), block as int).size_of() == old(self)@.blocks[block as int].size,
            16 <= old(self)@.blocks[block as int].size < SIZE_LIMIT,
            old(self)@.listed(block as int),
        ensures
            final(self).lists_wf(*final(mem)),
            final(self)@ == old(self)@.unlist(block as int),
            final(self).pool_start == old(self).pool_start,
            final(self).pool_end == old(self).pool_end,
            final(mem).same_place(*old(mem)),
            forall|x: int|
                #![trigger final(mem).byte(x)]
                old(mem).has(x, 1) && !Self::in_links(old(self)@, x) ==> final(mem).byte(x) == old(
                    mem,
                ).byte(x),
    {
        let ghost st = self@;
        let size: usize = BlockHeader::load(mem, block).size();
        proof {
            bins::lemma_bin_of(size as int);
            bins::lemma_bin_in_range(size as int);
        }
        let (fl, sl) = mapping(size);
        let ghost j = Bins::of(size as int);
        let ghost l = st.bins[j];
        let ghost p = l.index_of(block as int);
        proof {
            assert(st.slot(j, p) && st.bins[j][p] == block);
            if p > 0 {
                assert(st.slot(j, p - 1));
                assert(st.bins[j][p - 1] > 0);
            }
            if p + 1 < l.len() {
                assert(st.slot(j, p + 1));
                assert(st.bins[j][p + 1] > 0);
            }
        }
        let links = BlockHeader::links(mem, block);
        let prev: usize = links.prev;
        let next: usize = links.next;
        Self::join_links(mem, prev, next);
        if prev == 0 {
            self.lists[fl][sl] = next;
        }
        let ghost fl_old = self.fl_bitmap;
        let ghost sl_old = self.sl_bitmaps[fl as int];
        proof {
            assert(Bitmap::bit(sl_old, sl as int));
            bitmap::lemma_bit_nonzero(sl_old, sl as int);
            bitmap::lemma_bit_clear(fl_old, fl as u32);
            bitmap::lemma_bit_clear(sl_old, sl as u32);
        }
        if self.lists[fl][sl] == 0 {
            self.sl_bitmaps[fl] = self.sl_bitmaps[fl] & !(1u32 << (sl as u32));
            if self.sl_bitmaps[fl] == 0 {
                self.fl_bitmap = self.fl_bitmap & !(1u32 << (fl as u32));
            }
        }
        proof {
            self.state@ = st.unlist(block as int);
            let m = self@.bins[j];
            assert(m == l.remove(p));
            Self::lemma_unlinked(*old(self), *self, *old(mem), *mem, j, p);
            assert(self.heads_ok());
            assert(m.len() > 0 ==> self@.slot(j, 0));
            assert(m.len() > 0 ==> self@.bins[j][0] > 0);
            assert(self.bitmaps_ok());
        }
    }

    /// The first filled bin from `(fl, sl)` on, by its two indices.
    fn first_filled(&self, fl: usize, sl: usize) -> (r: Option<(usize, usize)>)
        requires
            self@.bins.len() == BIN_COUNT,
            self.bitmaps_ok(),
            fl < FL_COUNT,
            sl < SL_COUNT,
        ensures
            match r {
                Some((f, s)) => f < FL_COUNT && s < SL_COUNT && self@.first_filled(16 * fl + sl)
                    == Some(16 * f + s) && self@.bins[16 * f + s].len() > 0,
                None => self@.first_filled(16 * fl + sl) is None,
            },
    {
        proof {
            bitmap::lemma_bit_zero();
            bitmap::lemma_bit_mask(self.sl_bitmaps[fl as int], sl as u32);
            bitmap::lemma_bit_mask(self.fl_bitmap, (fl + 1) as u32);
        }
        let sl_map: u32 = self.sl_bitmaps[fl] & (!0u32 << (sl as u32));
        if sl_map != 0 {
            let s: usize = sl_map.trailing_zeros() as usize;
            proof {
                bitmap::lemma_lowest_bit(sl_map);
                assert(Bitmap::bit(self.sl_bitmaps[fl as int], s as int));
                assert forall|k: int| 16 * fl + sl <= k < 16 * fl + s implies #[trigger] self@.bins[k].len()
                    == 0 by {
                    assert(!Bitmap::bit(sl_map, k - 16 * fl));
                    assert(!Bitmap::bit(self.sl_bitmaps[fl as int], k - 16 * fl));
                    assert(16 * fl + (k - 16 * fl) == k);
                }
                model::lemma_first_filled(self@, 16 * fl + sl, 16 * fl + s);
            }
            return Some((fl, s));
        }
        proof {
            assert forall|k: int| 16 * fl + sl <= k < 16 * fl + 16 implies #[trigger] self@.bins[k].len()
                == 0 by {
                assert(!Bitmap::bit(sl_map, k - 16 * fl));
                assert(!Bitmap::bit(self.sl_bitmaps[fl as int], k - 16 * fl));
                assert(16 * fl + (k - 16 * fl) == k);
            }
        }
        let fl_map: u32 = self.fl_bitmap & (!0u32 << (fl as u32 + 1));
        if fl_map == 0 {
            proof {
                assert forall|k: int| 16 * fl + sl <= k < BIN_COUNT implies #[trigger] self@.bins[k].len()
                    == 0 by {
                    if k >= 16 * fl + 16 {
                        let f = k / 16;
                        assert(!Bitmap::bit(fl_map, f));
                        assert(!Bitmap::bit(self.fl_bitmap, f));
                        assert(!Bitmap::bit(self.sl_bitmaps[f], k % 16));
                        assert(16 * f + k % 16 == k);
                    }
                }
                model::lemma_none_filled(self@, 16 * fl + sl);
            }
            return None;
        }
        let f: usize = fl_map.trailing_zeros() as usize;
        proof {
            bitmap::lemma_lowest_bit(fl_map);
            assert(Bitmap::bit(self.fl_bitmap, f as int));
            assert(self.sl_bitmaps[f as int] != 0);
            bitmap::lemma_lowest_bit(self.sl_bitmaps[f as int]);
        }
        let s: usize = self.sl_bitmaps[f].trailing_zeros() as usize;
        proof {
            assert(Bitmap::bit(self.sl_bitmaps[f as int], s as int));
            assert forall|k: int| 16 * fl + sl <= k < 16 * f + s implies #[trigger] self@.bins[k].len()
                == 0 by {
                let g = k / 16;
                assert(16 * g + k % 16 == k);
                if g > fl {
                    if g < f {
                        assert(!Bitmap::bit(fl_map, g));
                        assert(!Bitmap::bit(self.fl_bitmap, g));
                        assert(!Bitmap::bit(self.sl_bitmaps[g], k % 16));
                    } else {
                        assert(!Bitmap::bit(self.sl_bitmaps[f as int], k % 16));
                    }
                }
            }
            model::lemma_first_filled(self@, 16 * fl + sl, 16 * f + s);
        }
        Some((f, s))
    }

    /// No links lie in the header of a block or in the payload of a used one.
    proof fn lemma_not_in_links(st: TlsfState, a: int, x: int)
        requires
            st.chain_wf(),
            st.members_wf(),
            st.has(a),
            a <= x < a + 16 || (!st.blocks[a].free && a <= x < st.next(a)),
        ensures
            !Self::in_links(st, x),
    {
        assert forall|j: int, i: int| #![trigger st.bins[j][i]] st.slot(j, i) implies !(st.bins[j][i]
            + 16 <= x < st.bins[j][i] + 32) by {
            let m = st.bins[j][i];
            assert(st.has(m));
            assert(st.has(a));
        }
    }

    /// Links lie in blocks.
    proof fn lemma_links_covered(st: TlsfState, x: int)
        requires
            st.chain_wf(),
            st.members_wf(),
            !st.covers(x),
        ensures
            !Self::in_links(st, x),
    {
        assert forall|j: int, i: int| #![trigger st.bins[j][i]] st.slot(j, i) implies !(st.bins[j][i]
            + 16 <= x < st.bins[j][i] + 32) by {
            let m = st.bins[j][i];
            assert(st.has(m));
            assert(m <= x < st.next(m) ==> st.covers(x));
        }
    }

    /// A tag depends on its bytes alone.
    proof fn lemma_tag_same(st: TlsfState, old_st: TlsfState, mem: Region, old_mem: Region, a: int)
        requires
            mem.same_place(old_mem),
            old_mem.has(a, 16),
            forall|x: int| #![trigger mem.byte(x)] a <= x < a + 16 ==> mem.byte(x) == old_mem.byte(x),
            st.blocks[a].size == old_st.blocks[a].size,
            st.blocks[a].free == old_st.blocks[a].free,
            st.prev_size(a) == old_st.prev_size(a),
        ensures
            Self::tag_but(st, mem, a) == Self::tag_but(old_st, old_mem, a),
            st.prev_free(a) == old_st.prev_free(a) ==> Self::tag(st, mem, a) == Self::tag(
                old_st,
                old_mem,
                a,
            ),
            BlockHeader::at(mem, a) == BlockHeader::at(old_mem, a),
            BlockHeader::lies_at(mem, a) == BlockHeader::lies_at(old_mem, a),
    {
        lemma_word_same(mem, old_mem, a);
        lemma_word_same(mem, old_mem, a + 8);
    }

    /// Finds a block of at least `size` bytes and takes it out of its bin; 0
    /// if there is none.
    fn find_suitable(&mut self, mem: &mut Region, size: usize) -> (r: usize)
        requires
            old(self).wf(*old(mem)),
            size >= 16,
        ensures
            match old(self)@.first_filled(Bins::at_least(size as int)) {
                None => r == 0 && *final(self) == *old(self) && *final(mem) == *old(mem),
                Some(j) => {
                    &&& r == old(self)@.bins[j][0]
                    &&& old(self)@.slot(j, 0)
                    &&& old(self)@.blocks[r as int].size >= size
                    &&& final(self)@ == old(self)@.unlist(r as int)
                    &&& final(self).lists_wf(*final(mem))
                    &&& Self::tags_ok(final(self)@, *final(mem))
                    &&& final(self).pool_start == old(self).pool_start
                    &&& final(self).pool_end == old(self).pool_end
                    &&& final(mem).same_place(*old(mem))
                    &&& forall|x: int|
                        #![trigger final(mem).byte(x)]
                        old(mem).has(x, 1) && !Self::in_links(old(self)@, x) ==> final(mem).byte(x)
                            == old(mem).byte(x)
                },
            },
    {
        let ghost st = self@;
        proof {
            bins::lemma_bin_of(size as int);
        }
        let (fl, sl) = mapping_search(size);
        if fl >= FL_COUNT {
            return 0;
        }
        let (f, s) = match self.first_filled(fl, sl) {
            Some(b) => b,
            None => {
                return 0;
            },
        };
        let block: usize = self.lists[f][s];
        proof {
            let j = 16 * f + s;
            assert(st.slot(j, 0) && st.bins[j][0] == block);
            assert(st.has(block as int));
            model::lemma_first_filled_is(st, Bins::at_least(size as int));
            model::lemma_has_bin(st, block as int);
            bins::lemma_at_least(size as int, st.blocks[block as int].size);
            assert(Self::tag(st, *mem, block as int));
        }
        self.remove_free(mem, block);
        proof {
            assert forall|a: int| #[trigger] self@.has(a) implies Self::tag(self@, *mem, a) by {
                assert(st.has(a));
                assert(Self::tag(st, *old(mem), a));
                assert forall|x: int| a <= x < a + 16 implies !Self::in_links(st, x) by {
                    Self::lemma_not_in_links(st, a, x);
                }
                Self::lemma_tag_same(self@, st, *mem, *old(mem), a);
            }
        }
        block
    }

    /// The lists depend on the bins and on the bytes of their links alone.
    proof fn lemma_lists_kept(self, old_self: Self, mem: Region, old_mem: Region)
        requires
            old_self.lists_wf(old_mem),
            self.fl_bitmap == old_self.fl_bitmap,
            self.sl_bitmaps == old_self.sl_bitmaps,
            self.lists == old_self.lists,
            self@.bins == old_self@.bins,
            mem.wf(),
            mem.same_place(old_mem),
            forall|x: int|
                #![trigger mem.byte(x)]
                Self::in_links(old_self@, x) ==> mem.byte(x) == old_mem.byte(x),
        ensures
            self.lists_wf(mem),
    {
        let st = old_self@;
        assert forall|j: int, i: int| #![trigger self@.bins[j][i]] self@.slot(j, i) implies {
            let a = self@.bins[j][i];
            &&& a > 0
            &&& mem.has(a, 32)
            &&& mem.word(a + 16) == Self::link_prev(self@.bins[j], i)
            &&& mem.word(a + 24) == Self::link_next(self@.bins[j], i)
        } by {
            let a = st.bins[j][i];
            assert(st.slot(j, i));
            assert forall|x: int| a + 16 <= x < a + 32 implies Self::in_links(st, x) by {
                assert(st.slot(j, i) && st.bins[j][i] + 16 <= x < st.bins[j][i] + 32);
            }
            lemma_word_same(mem, old_mem, a + 16);
            lemma_word_same(mem, old_mem, a + 24);
        }
        assert(self.heads_ok()) by {
            assert forall|f: int, s: int|
                #![trigger self.lists[f][s]]
                0 <= f < FL_COUNT && 0 <= s < SL_COUNT implies self.lists[f][s] == Self::head(
                self@.bins[16 * f + s],
            ) by {
                assert(old_self.lists[f][s] == Self::head(st.bins[16 * f + s]));
            }
        }
        assert(self.bitmaps_ok());
        assert(self.spaced()) by {
            assert forall|j: int, i: int, k: int, l: int|
                #![trigger self@.bins[j][i], self@.bins[k][l]]
                self@.slot(j, i) && self@.slot(k, l) && (j != k || i != l) implies self@.bins[j][i]
                + 32 <= self@.bins[k][l] || self@.bins[k][l] + 32 <= self@.bins[j][i] by {
                assert(st.slot(j, i) && st.slot(k, l));
            }
        }
    }

    /// Cuts a free block that is in no bin down to `size` bytes; the rest
    /// becomes a free block in its bin, whose flag for the block in front is
    /// still to be set.
    fn split_off(&mut self, mem: &mut Region, block: usize, size: usize)
        requires
            old(self)@.wf_but(block as int),
            old(self).lists_wf(*old(mem)),
            Self::tags_ok(old(self)@, *old(mem)),
            size >= 16,
            size % 16 == 0,
            old(self)@.blocks[block as int].size - size >= 32,
        ensures
            final(self)@ == old(self)@.split(block as int, size as int).list(block + 16 + size),
            final(self).lists_wf(*final(mem)),
            Self::tags_ok_but(final(self)@, *final(mem), block + 16 + size),
            final(self).pool_start == old(self).pool_start,
            final(self).pool_end == old(self).pool_end,
            final(mem).same_place(*old(mem)),
            forall|x: int|
                #![trigger final(mem).byte(x)]
                old(mem).has(x, 1) && !Self::in_links(old(self)@, x) && !(block <= x < old(self)@.next(
                    block as int,
                ) + 16) ==> final(mem).byte(x) == old(mem).byte(x),
    {
        let ghost st = self@;
        let ghost a = block as int;
        let ghost c = st.next(a);
        let ghost m0 = *mem;
        proof {
            model::lemma_split_chain(st, a, size as int);
            assert(Self::tag(st, m0, a));
            assert(Self::tag(st, m0, c));
        }
        let mut h = BlockHeader::load(mem, block);
        let remaining: usize = h.size() - size;
        h.set_size(size);
        h.store(mem, block);
        let split: usize = h.next_phys(block);
        let split_payload: usize = remaining - HEADER_SIZE;
        let mut sh = BlockHeader { prev_phys_size: size, size_and_flags: split_payload };
        sh.set_free();
        sh.store(mem, split);
        let links = FreeLinks { prev: 0, next: 0 };
        links.store(mem, split);
        let after: usize = sh.next_phys(split);
        proof {
            assert(after == c);
            Self::lemma_tag_same(st, st, *mem, m0, c);
        }
        let mut ah = BlockHeader::load(mem, after);
        ah.prev_phys_size = split_payload;
        ah.mark_prev_free();
        ah.store(mem, after);
        let ghost m1 = *mem;
        let ghost sp = st.split(a, size as int);
        proof {
            self.state@ = sp;
            assert forall|x: int| m0.has(x, 1) && !(a <= x < c + 16) implies #[trigger] m1.byte(x)
                == m0.byte(x) by {};
            assert forall|x: int| #![trigger m1.byte(x)] Self::in_links(st, x) implies m1.byte(x)
                == m0.byte(x) by {
                if a <= x < c + 16 {
                    Self::lemma_out_of_links(st, a, x);
                } else {
                    let (j, i) = choose|j: int, i: int|
                        #![trigger st.bins[j][i]]
                        st.slot(j, i) && st.bins[j][i] + 16 <= x < st.bins[j][i] + 32;
                    assert(m0.has(st.bins[j][i], 32));
                }
            }
            self.lemma_lists_kept(*old(self), m1, m0);
            assert(Self::tags_ok_but(sp, m1, split as int)) by {
                Self::lemma_split_tags(st, m0, m1, a, size as int);
            }
            model::lemma_has_bin(sp, split as int);
            assert forall|j: int, i: int| #![trigger sp.bins[j][i]] sp.slot(j, i) implies sp.bins[j][i]
                + 32 <= split || split + 32 <= sp.bins[j][i] by {
                assert(st.slot(j, i) && st.has(st.bins[j][i]));
                assert(st.has(a));
            }
        }
        self.insert_free(mem, split);
        proof {
            assert forall|x: int| #[trigger] Self::in_links(sp, x) implies Self::in_links(st, x) by {
                let (j, i) = choose|j: int, i: int|
                    #![trigger sp.bins[j][i]]
                    sp.slot(j, i) && sp.bins[j][i] + 16 <= x < sp.bins[j][i] + 32;
                assert(st.slot(j, i) && st.bins[j][i] + 16 <= x < st.bins[j][i] + 32);
            }
            assert(Self::tags_ok_but(self@, *mem, split as int)) by {
                assert(sp.members_wf()) by {
                    assert forall|j: int, i: int| #![trigger sp.bins[j][i]] sp.slot(j, i) implies sp.has(
                        sp.bins[j][i],
                    ) && sp.blocks[sp.bins[j][i]].free && Bins::of(sp.blocks[sp.bins[j][i]].size) == j by {
                        assert(st.slot(j, i) && st.bins[j][i] == sp.bins[j][i]);
                    }
                }
                assert forall|b: int| #[trigger] self@.has(b) implies Self::tag_but(self@, *mem, b) && (b
                    != split ==> Self::tag(self@, *mem, b)) by {
                    assert(sp.has(b) && sp.has(split as int));
                    assert(Self::tag_but(sp, m1, b));
                    assert forall|x: int| b <= x < b + 16 implies !Self::in_links(sp, x) by {
                        Self::lemma_not_in_links(sp, b, x);
                    }
                    Self::lemma_tag_same(self@, sp, *mem, m1, b);
                }
            }
        }
    }

    /// No links lie in a block that is in no bin, nor in the header behind it.
    proof fn lemma_out_of_links(st: TlsfState, a: int, x: int)
        requires
            st.chain_wf(),
            st.members_wf(),
            st.has(a),
            st.out(a),
            a <= x < st.next(a) + 16,
            st.blocks[a].size > 0,
        ensures
            !Self::in_links(st, x),
    {
        assert(st.has(st.next(a)));
        assert forall|j: int, i: int| #![trigger st.bins[j][i]] st.slot(j, i) implies !(st.bins[j][i]
            + 16 <= x < st.bins[j][i] + 32) by {
            let m = st.bins[j][i];
            assert(st.has(m));
            assert(st.has(a));
            assert(st.has(st.next(a)));
        }
    }

    /// The tags after a block has been split.
    proof fn lemma_split_tags(st: TlsfState, m0: Region, m1: Region, a: int, size: int)
        requires
            st.chain_wf(),
            st.has(a),
            size >= 16,
            size % 16 == 0,
            st.blocks[a].size - size >= 32,
            Self::tags_ok(st, m0),
            m1.same_place(m0),
            forall|x: int|
                m0.has(x, 1) && !(a <= x < st.next(a) + 16) ==> #[trigger] m1.byte(x) == m0.byte(x),
            ({
                let s = a + 16 + size;
                let c = st.next(a);
                let ha = BlockHeader::at(m1, a);
                let hs = BlockHeader::at(m1, s);
                let hc = BlockHeader::at(m1, c);
                &&& BlockHeader::lies_at(m1, a)
                &&& BlockHeader::lies_at(m1, s)
                &&& BlockHeader::lies_at(m1, c)
                &&& m1.word(a) == m0.word(a)
                &&& ha.size_of() == size
                &&& ha.free_flag() == BlockHeader::at(m0, a).free_flag()
                &&& ha.prev_free_flag() == BlockHeader::at(m0, a).prev_free_flag()
                &&& m1.word(s) == size
                &&& hs.size_of() == c - s - 16
                &&& hs.free_flag()
                &&& m1.word(c) == c - s - 16
                &&& hc.size_of() == BlockHeader::at(m0, c).size_of()
                &&& hc.free_flag() == BlockHeader::at(m0, c).free_flag()
                &&& hc.prev_free_flag()
            }),
        ensures
            Self::tags_ok_but(st.split(a, size), m1, a + 16 + size),
    {
        let sp = st.split(a, size);
        let s = a + 16 + size;
        let c = st.next(a);
        model::lemma_split_chain(st, a, size);
        assert forall|b: int| #[trigger] sp.has(b) implies Self::tag_but(sp, m1, b) && (b != s
            ==> Self::tag(sp, m1, b)) by {
            assert(Self::tag(st, m0, a) && Self::tag(st, m0, c));
            if b == a {
                assert(sp.blocks[a].prev == st.blocks[a].prev);
            } else if b == s {
            } else if b == c {
            } else {
                assert(st.has(b));
                assert(Self::tag(st, m0, b));
                assert(sp.blocks[b] == st.blocks[b]);
                if st.blocks[b].prev is Some {
                    let p = st.blocks[b].prev->0;
                    assert(st.has(p));
                    assert(p != a);
                }
                assert(st.has(a) && st.has(c));
                Self::lemma_tag_same(sp, st, m1, m0, b);
            }
        }
    }

    /// The tags after a block has been marked as used.
    proof fn lemma_used_tags(st: TlsfState, m0: Region, m1: Region, a: int)
        requires
            st.chain_wf(),
            st.has(a),
            st.blocks[a].size > 0,
            Self::tags_ok_but(st, m0, st.next(a)),
            m1.same_place(m0),
            forall|x: int|
                m0.has(x, 1) && !(a <= x < a + 16) && !(st.next(a) <= x < st.next(a) + 16)
                    ==> #[trigger] m1.byte(x) == m0.byte(x),
            ({
                let n = st.next(a);
                let ha = BlockHeader::at(m1, a);
                let hn = BlockHeader::at(m1, n);
                &&& BlockHeader::lies_at(m1, a)
                &&& BlockHeader::lies_at(m1, n)
                &&& m1.word(a) == m0.word(a)
                &&& ha.size_of() == BlockHeader::at(m0, a).size_of()
                &&& !ha.free_flag()
                &&& ha.prev_free_flag() == BlockHeader::at(m0, a).prev_free_flag()
                &&& m1.word(n) == m0.word(n)
                &&& hn.size_of() == BlockHeader::at(m0, n).size_of()
                &&& hn.free_flag() == BlockHeader::at(m0, n).free_flag()
                &&& !hn.prev_free_flag()
            }),
        ensures
            Self::tags_ok(st.with_free(a, false), m1),
    {
        let us = st.with_free(a, false);
        let n = st.next(a);
        assert(st.has(n));
        assert forall|b: int| #[trigger] us.has(b) implies Self::tag(us, m1, b) by {
            assert(Self::tag(st, m0, a) && Self::tag_but(st, m0, n));
            assert(us.blocks[b].prev == st.blocks[b].prev);
            assert(st.has(b));
            if st.blocks[b].prev is Some {
                let p = st.blocks[b].prev->0;
                assert(st.has(p));
            }
            if b != a && b != n {
                assert(Self::tag(st, m0, b));
                assert(st.has(a) && st.has(n));
                Self::lemma_tag_same(us, st, m1, m0, b);
            }
        }
    }

    /// Marks a free block as used for `size` bytes; what is left over becomes
    /// a free block if it can hold a header and a payload.
    fn prepare_used(&mut self, mem: &mut Region, block: usize, size: usize) -> (r: usize)
        requires
            old(self)@.wf_but(block as int),
            !old(self)@.blocks[old(self)@.next(block as int)].free,
            old(self).lists_wf(*old(mem)),
            Self::tags_ok(old(self)@, *old(mem)),
            old(self)@.start == old(self).pool_start,
            old(self)@.end == old(self).pool_end,
            size >= 16,
            size % 16 == 0,
            size <= old(self)@.blocks[block as int].size,
        ensures
            r == block + 16,
            final(self)@ == old(self)@.put_to_use(block as int, size as int),
            final(self).wf(*final(mem)),
            final(mem).same_place(*old(mem)),
            forall|x: int|
                #![trigger final(mem).byte(x)]
                old(mem).has(x, 1) && !Self::in_links(old(self)@, x) && !(block <= x < old(self)@.next(
                    block as int,
                ) + 16) ==> final(mem).byte(x) == old(mem).byte(x),
    {
        let ghost st = self@;
        let ghost a = block as int;
        let ghost c = st.next(a);
        proof {
            assert(st.has(c));
            assert(Self::tag(st, *mem, a));
            assert(Self::tag(st, *mem, c));
            model::lemma_put_to_use(st, a, size as int);
        }
        let block_size: usize = BlockHeader::load(mem, block).size();
        let remaining: usize = block_size - size;
        if remaining >= HEADER_SIZE + MIN_PAYLOAD {
            proof {
                model::lemma_cut(st, a, size as int);
            }
            self.split_off(mem, block, size);
        }
        let ghost s1 = self@;
        let ghost m1 = *mem;
        let ghost self1 = *self;
        let ghost n = s1.next(a);
        proof {
            assert(s1.chain_wf() && s1.members_wf() && s1.out(a) && s1.has(a) && s1.has(n));
            assert(n <= c);
            assert(Self::tags_ok_but(s1, m1, n));
            assert(Self::tag(s1, m1, a) && Self::tag_but(s1, m1, n));
        }
        let mut h = BlockHeader::load(mem, block);
        h.mark_used();
        h.store(mem, block);
        let next: usize = h.next_phys(block);
        proof {
            Self::lemma_tag_same(s1, s1, *mem, m1, n);
        }
        let mut nh = BlockHeader::load(mem, next);
        nh.mark_prev_used();
        nh.store(mem, next);
        proof {
            self.state@ = s1.with_free(a, false);
            assert forall|x: int| #![trigger mem.byte(x)] Self::in_links(s1, x) implies mem.byte(x)
                == m1.byte(x) by {
                if a <= x < n + 16 {
                    Self::lemma_out_of_links(s1, a, x);
                } else {
                    let (j, i) = choose|j: int, i: int|
                        #![trigger s1.bins[j][i]]
                        s1.slot(j, i) && s1.bins[j][i] + 16 <= x < s1.bins[j][i] + 32;
                    assert(m1.has(s1.bins[j][i], 32));
                }
            }
            self.lemma_lists_kept(self1, *mem, m1);
            Self::lemma_used_tags(s1, m1, *mem, a);
        }
        BlockHeader::payload(block)
    }

    /// Allocates `size` bytes; 0 if no block fits.
    pub fn allocate(&mut self, mem: &mut Region, size: usize) -> (r: usize)
        requires
            old(self).wf(*old(mem)),
        ensures
            final(self).wf(*final(mem)),
            final(mem).same_place(*old(mem)),
            match old(self)@.fit(size as int) {
                Some(a) if size > 0 => {
                    &&& r == a + 16
                    &&& final(self)@ == old(self)@.allocated(size as int)
                    &&& forall|x: int|
                        #![trigger final(mem).byte(x)]
                        old(mem).has(x, 1) && old(self)@.client(x)
                            ==> final(mem).byte(x) == old(mem).byte(x)
                },
                _ => r == 0 && *final(self) == *old(self) && *final(mem) == *old(mem),
            },
            size >= SIZE_LIMIT ==> r == 0,
    {
        if size == 0 {
            return 0;
        }
        proof {
            bins::lemma_bin_of(TlsfState::payload_for(size as int));
            bins::lemma_bin_in_range(TlsfState::payload_for(size as int));
        }
        if size > usize::MAX - 15 {
            return 0;
        }
        let aligned: usize = align_up_size(size);
        let adjusted: usize = if aligned < MIN_PAYLOAD {
            MIN_PAYLOAD
        } else {
            aligned
        };
        let ghost st = self@;
        let ghost m0 = *mem;
        assert(adjusted == TlsfState::payload_for(size as int));
        let block: usize = self.find_suitable(mem, adjusted);
        if block == 0 {
            proof {
                if let Some(j) = st.first_filled(Bins::at_least(adjusted as int)) {
                    assert(st.has(st.bins[j][0]));
                }
            }
            return 0;
        }
        let ghost a = block as int;
        proof {
            let j = st.first_filled(Bins::at_least(adjusted as int))->0;
            assert(st.has(st.bins[j][0]));
            model::lemma_taken(st, a);
            assert(self@.next(a) == st.next(a));
        }
        let ghost m1 = *mem;
        let r: usize = self.prepare_used(mem, block, adjusted);
        proof {
            assert forall|x: int|
                #![trigger mem.byte(x)]
                m0.has(x, 1) && st.client(x) implies mem.byte(x) == m0.byte(x) by {
                Self::lemma_client_bytes(st, a, x);
                Self::lemma_fewer_links(st, a, x);
                assert(m1.byte(x) == m0.byte(x));
            }
        }
        r
    }

    /// What lies outside all blocks or in the payload of a used one is neither
    /// a link, nor part of a free block, nor of a header.
    proof fn lemma_client_bytes(st: TlsfState, a: int, x: int)
        requires
            st.chain_wf(),
            st.members_wf(),
            st.has(a),
            st.blocks[a].free,
            st.client(x),
        ensures
            !Self::in_links(st, x),
            !(a <= x < st.next(a) + 16),
    {
        assert(st.has(st.next(a)));
        if !st.covers(x) {
            Self::lemma_links_covered(st, x);
            assert(!(a <= x < st.next(a)));
            assert(!(st.next(a) <= x < st.next(st.next(a))));
        } else {
            let b = choose|b: int| #[trigger]
                st.has(b) && !st.blocks[b].free && b + 16 <= x < st.next(b);
            Self::lemma_not_in_links(st, b, x);
            assert(st.has(a) && st.has(b));
        }
    }

    /// Taking a block out of its bin adds no links.
    proof fn lemma_fewer_links(st: TlsfState, a: int, x: int)
        requires
            st.chain_wf(),
            st.members_wf(),
            st.has(a),
            st.blocks[a].free,
            st.listed(a),
            !Self::in_links(st, x),
        ensures
            !Self::in_links(st.unlist(a), x),
    {
        let u = st.unlist(a);
        model::lemma_has_bin(st, a);
        let k = Bins::of(st.blocks[a].size);
        let p = st.bins[k].index_of(a);
        assert forall|j: int, i: int| #![trigger u.bins[j][i]] u.slot(j, i) implies !(u.bins[j][i] + 16
            <= x < u.bins[j][i] + 32) by {
            let o = if j == k && i >= p {
                i + 1
            } else {
                i
            };
            assert(st.slot(j, o) && st.bins[j][o] == u.bins[j][i]);
        }
    }

    /// A client's byte is no link and lies in no header.
    proof fn lemma_client_byte(st: TlsfState, x: int)
        requires
            st.chain_wf(),
            st.members_wf(),
            st.client(x),
        ensures
            !Self::in_links(st, x),
            forall|a: int| #[trigger] st.has(a) ==> !(a <= x < a + 16),
            forall|a: int| #[trigger]
                st.has(a) && st.blocks[a].free ==> !(a <= x < a + 16 + st.blocks[a].size),
    {
        if !st.covers(x) {
            Self::lemma_links_covered(st, x);
            assert forall|a: int| #[trigger] st.has(a) implies !(a <= x < a + 16 + st.blocks[a].size) by {
                assert(!(a <= x < st.next(a)));
            }
        } else {
            let b = choose|b: int| #[trigger]
                st.has(b) && !st.blocks[b].free && b + 16 <= x < st.next(b);
            Self::lemma_not_in_links(st, b, x);
        }
    }

    /// The tags after two blocks have been joined.
    proof fn lemma_join_tags(st: TlsfState, m0: Region, m1: Region, a: int)
        requires
            st.chain_wf(),
            st.has(a),
            st.blocks[a].free,
            st.blocks[st.next(a)].free,
            forall|y: int| #[trigger]
                st.has(y) ==> Self::tag_but(st, m0, y) && (y != st.next(a) && y != st.next(st.next(a))
                    ==> Self::tag(st, m0, y)),
            m1.same_place(m0),
            ({
                let b = st.next(a);
                let c = st.next(b);
                let ha = BlockHeader::at(m1, a);
                let hc = BlockHeader::at(m1, c);
                &&& forall|x: int|
                    m0.has(x, 1) && !(a <= x < a + 16) && !(c <= x < c + 16) ==> #[trigger] m1.byte(x)
                        == m0.byte(x)
                &&& BlockHeader::lies_at(m1, a)
                &&& BlockHeader::lies_at(m1, c)
                &&& m1.word(a) == m0.word(a)
                &&& ha.size_of() == c - a - 16
                &&& ha.free_flag() == BlockHeader::at(m0, a).free_flag()
                &&& ha.prev_free_flag() == BlockHeader::at(m0, a).prev_free_flag()
                &&& m1.word(c) == c - a - 16
                &&& hc.size_of() == BlockHeader::at(m0, c).size_of()
                &&& hc.free_flag() == BlockHeader::at(m0, c).free_flag()
            }),
        ensures
            Self::tags_ok_but(st.join(a), m1, st.join(a).next(a)),
    {
        let b = st.next(a);
        let c = st.next(b);
        let ns = st.join(a);
        assert(st.has(b) && st.has(c));
        model::lemma_join_chain(st, a);
        assert forall|y: int| #[trigger] ns.has(y) implies Self::tag_but(ns, m1, y) && (y != c
            ==> Self::tag(ns, m1, y)) by {
            assert(Self::tag(st, m0, a) && Self::tag_but(st, m0, c) && Self::tag_but(st, m0, b));
            assert(st.has(y));
            if y == a {
                assert(ns.blocks[a].prev == st.blocks[a].prev);
                if st.blocks[a].prev is Some {
                    let p = st.blocks[a].prev->0;
                    assert(st.has(p) && p != b && p != c);
                }
            } else if y == c {
            } else {
                assert(Self::tag(st, m0, y));
                assert(ns.blocks[y] == st.blocks[y]);
                if st.blocks[y].prev is Some {
                    let p = st.blocks[y].prev->0;
                    assert(st.has(p) && p != a && p != b);
                }
                assert(st.has(a) && st.has(c));
                Self::lemma_tag_same(ns, st, m1, m0, y);
            }
        }
    }

    /// The free block at `block` swallows the free block behind it; neither is
    /// in a bin.
    fn join_blocks(&mut self, mem: &mut Region, block: usize, new_size: usize)
        requires
            old(self)@.chain_wf(),
            old(self)@.members_wf(),
            old(self)@.has(block as int),
            old(self)@.blocks[block as int].free,
            old(self)@.out(block as int),
            old(self)@.blocks[old(self)@.next(block as int)].free,
            old(self)@.out(old(self)@.next(block as int)),
            new_size == old(self)@.join(block as int).blocks[block as int].size,
            old(self).lists_wf(*old(mem)),
            forall|y: int| #[trigger]
                old(self)@.has(y) ==> Self::tag_but(old(self)@, *old(mem), y) && (y != old(self)@.next(
                    block as int,
                ) && y != old(self)@.next(old(self)@.next(block as int)) ==> Self::tag(
                    old(self)@,
                    *old(mem),
                    y,
                )),
        ensures
            final(self)@ == old(self)@.join(block as int),
            final(self).lists_wf(*final(mem)),
            Self::tags_ok_but(final(self)@, *final(mem), final(self)@.next(block as int)),
            final(self).pool_start == old(self).pool_start,
            final(self).pool_end == old(self).pool_end,
            final(mem).same_place(*old(mem)),
            forall|x: int|
                #![trigger final(mem).byte(x)]
                old(mem).has(x, 1) && old(self)@.client(x) ==> final(mem).byte(x) == old(mem).byte(x),
    {
        let ghost st = self@;
        let ghost a = block as int;
        let ghost b = st.next(a);
        let ghost c = st.next(b);
        let ghost m0 = *mem;
        proof {
            assert(st.has(b) && st.has(c));
            assert(Self::tag(st, m0, a) && Self::tag_but(st, m0, b) && Self::tag_but(st, m0, c));
        }
        let mut h = BlockHeader::load(mem, block);
        h.set_size(new_size);
        h.store(mem, block);
        let after: usize = h.next_phys(block);
        proof {
            Self::lemma_tag_same(st, st, *mem, m0, c);
        }
        let mut ah = BlockHeader::load(mem, after);
        ah.prev_phys_size = new_size;
        ah.store(mem, after);
        proof {
            self.state@ = st.join(a);
            assert forall|x: int| #![trigger mem.byte(x)] Self::in_links(st, x) implies mem.byte(x)
                == m0.byte(x) by {
                if a <= x < b + 16 {
                    Self::lemma_out_of_links(st, a, x);
                } else if c <= x < c + 16 {
                    Self::lemma_not_in_links(st, c, x);
                } else {
                    let (j, i) = choose|j: int, i: int|
                        #![trigger st.bins[j][i]]
                        st.slot(j, i) && st.bins[j][i] + 16 <= x < st.bins[j][i] + 32;
                    assert(m0.has(st.bins[j][i], 32));
                }
            }
            self.lemma_lists_kept(*old(self), *mem, m0);
            Self::lemma_join_tags(st, m0, *mem, a);
            assert forall|x: int| #![trigger mem.byte(x)] m0.has(x, 1) && st.client(x) implies mem.byte(x)
                == m0.byte(x) by {
                Self::lemma_client_byte(st, x);
            }
        }
    }

    /// Merges `block` with its next physical neighbour if that is free.
    fn merge_next(&mut self, mem: &mut Region, block: usize) -> (r: usize)
        requires
            old(self).wf_but(*old(mem), block as int),
        ensures
            r == block,
            final(self)@ == old(self)@.merged_next(block as int),
            final(self).wf_but(*final(mem), block as int),
            final(mem).same_place(*old(mem)),
            forall|x: int|
                #![trigger final(mem).byte(x)]
                old(mem).has(x, 1) && old(self)@.client(x) ==> final(mem).byte(x) == old(mem).byte(x),
    {
        let ghost st = self@;
        let ghost a = block as int;
        let ghost n = st.next(a);
        let ghost m0 = *mem;
        proof {
            assert(st.has(n));
            assert(Self::tag(st, m0, a) && Self::tag_but(st, m0, n));
            model::lemma_merged_next(st, a);
        }
        let h = BlockHeader::load(mem, block);
        let next: usize = h.next_phys(block);
        let nh = BlockHeader::load(mem, next);
        if nh.is_free() {
            proof {
                model::lemma_has_bin(st, n);
                model::lemma_unlist(st, n);
            }
            self.remove_free(mem, next);
            let new_size: usize = h.size() + HEADER_SIZE + nh.size();
            let ghost u = self@;
            let ghost m1 = *mem;
            proof {
                assert(st.has(st.next(n)));
                Self::lemma_unlist_tags(st, n, m0, m1, n);
                assert(u.next(a) == n);
            }
            self.join_blocks(mem, block, new_size);
            proof {
                assert forall|x: int| #![trigger mem.byte(x)] m0.has(x, 1) && st.client(x) implies mem.byte(
                    x,
                ) == m0.byte(x) by {
                    Self::lemma_client_byte(st, x);
                    Self::lemma_same_client(st, u, x);
                    assert(m1.byte(x) == m0.byte(x));
                }
            }
        }
        block
    }

    /// Taking a block out of its bin leaves the tags as they are, but for the
    /// flag of the block at `s` if that was open.
    proof fn lemma_unlist_tags(st: TlsfState, a: int, m0: Region, m1: Region, s: int)
        requires
            st.chain_wf(),
            st.members_wf(),
            Self::tags_ok_but(st, m0, s),
            m1.same_place(m0),
            forall|x: int|
                #![trigger m1.byte(x)]
                m0.has(x, 1) && !Self::in_links(st, x) ==> m1.byte(x) == m0.byte(x),
        ensures
            Self::tags_ok_but(st.unlist(a), m1, s),
            st.unlist(a).chain_wf(),
    {
        let u = st.unlist(a);
        assert forall|b: int| #[trigger] u.has(b) <==> st.has(b) by {};
        assert forall|b: int| #[trigger] u.next(b) == st.next(b) by {};
        assert(u.chain_wf());
        assert forall|b: int| #[trigger] u.has(b) implies Self::tag_but(u, m1, b) && (b != s
            ==> Self::tag(u, m1, b)) by {
            assert(st.has(b));
            assert(Self::tag_but(st, m0, b));
            assert forall|x: int| b <= x < b + 16 implies !Self::in_links(st, x) by {
                Self::lemma_not_in_links(st, b, x);
            }
            Self::lemma_tag_same(u, st, m1, m0, b);
        }
    }

    /// The client's bytes depend on the blocks alone.
    proof fn lemma_same_client(st: TlsfState, u: TlsfState, x: int)
        requires
            u.blocks == st.blocks,
            st.client(x),
        ensures
            u.client(x),
    {
        assert forall|b: int| #[trigger] u.has(b) <==> st.has(b) by {};
        assert forall|b: int| #[trigger] u.next(b) == st.next(b) by {};
        if st.in_use(x) {
            let b = choose|b: int| #[trigger]
                st.has(b) && !st.blocks[b].free && b + 16 <= x < st.next(b);
            assert(u.has(b) && u.next(b) == st.next(b));
        } else {
            assert forall|b: int| #[trigger] u.has(b) implies !(b <= x < u.next(b)) by {
                assert(st.has(b));
                assert(u.next(b) == st.next(b));
            }
        }
    }

    /// Merges `block` with its previous physical neighbour if that is free;
    /// returns where the block now starts.
    fn merge_prev(&mut self, mem: &mut Region, block: usize) -> (r: usize)
        requires
            old(self).wf_but(*old(mem), block as int),
            !old(self)@.blocks[old(self)@.next(block as int)].free,
        ensures
            r == old(self)@.merged_start(block as int),
            final(self)@ == old(self)@.merged_prev(block as int),
            final(self).wf_but(*final(mem), r as int),
            final(mem).same_place(*old(mem)),
            forall|x: int|
                #![trigger final(mem).byte(x)]
                old(mem).has(x, 1) && old(self)@.client(x) ==> final(mem).byte(x) == old(mem).byte(x),
    {
        let ghost st = self@;
        let ghost a = block as int;
        let ghost c = st.next(a);
        let ghost m0 = *mem;
        proof {
            assert(st.has(c));
            assert(Self::tag(st, m0, a));
            model::lemma_merged_prev(st, a);
        }
        let h = BlockHeader::load(mem, block);
        if !h.prev_is_free() {
            return block;
        }
        let ghost p = st.blocks[a].prev->0;
        proof {
            assert(st.has(p) && st.next(p) == a);
            assert(Self::tag(st, m0, p));
            model::lemma_has_bin(st, p);
            model::lemma_unlist(st, p);
        }
        let prev: usize = h.prev_phys(block);
        let ph = BlockHeader::load(mem, prev);
        self.remove_free(mem, prev);
        let new_size: usize = ph.size() + HEADER_SIZE + h.size();
        let ghost u = self@;
        let ghost m1 = *mem;
        proof {
            Self::lemma_unlist_tags(st, p, m0, m1, c);
            assert(u.next(p) == a && u.next(a) == c);
        }
        self.join_blocks(mem, prev, new_size);
        proof {
            assert forall|x: int| #![trigger mem.byte(x)] m0.has(x, 1) && st.client(x) implies mem.byte(x)
                == m0.byte(x) by {
                Self::lemma_client_byte(st, x);
                Self::lemma_same_client(st, u, x);
                assert(m1.byte(x) == m0.byte(x));
            }
        }
        prev
    }

    /// The tags after the block behind a free one has learnt of it.
    proof fn lemma_noted_tags(st: TlsfState, m0: Region, m1: Region, a: int)
        requires
            st.chain_wf(),
            st.has(a),
            st.blocks[a].free,
            Self::tags_ok_but(st, m0, st.next(a)),
            m1.same_place(m0),
            ({
                let n = st.next(a);
                let hn = BlockHeader::at(m1, n);
                &&& forall|x: int|
                    m0.has(x, 1) && !(n <= x < n + 16) ==> #[trigger] m1.byte(x) == m0.byte(x)
                &&& BlockHeader::lies_at(m1, n)
                &&& m1.word(n) == st.blocks[a].size
                &&& hn.size_of() == BlockHeader::at(m0, n).size_of()
                &&& hn.free_flag() == BlockHeader::at(m0, n).free_flag()
                &&& hn.prev_free_flag()
            }),
        ensures
            Self::tags_ok(st, m1),
    {
        let n = st.next(a);
        assert(st.has(n));
        assert forall|b: int| #[trigger] st.has(b) implies Self::tag(st, m1, b) by {
            assert(Self::tag_but(st, m0, n));
            if b != n {
                assert(Self::tag(st, m0, b));
                assert(st.has(n));
                Self::lemma_tag_same(st, st, m1, m0, b);
            }
        }
    }

    /// Puts the free block at `block` into its bin; it has no free neighbour.
    fn put_back(&mut self, mem: &mut Region, block: usize)
        requires
            old(self).wf_but(*old(mem), block as int),
            !old(self)@.blocks[old(self)@.next(block as int)].free,
            !old(self)@.prev_free(block as int),
            Self::tags_ok(old(self)@, *old(mem)),
        ensures
            final(self)@ == old(self)@.list(block as int),
            final(self).wf(*final(mem)),
            final(mem).same_place(*old(mem)),
            forall|x: int|
                #![trigger final(mem).byte(x)]
                old(mem).has(x, 1) && old(self)@.client(x) ==> final(mem).byte(x) == old(mem).byte(x),
    {
        let ghost st = self@;
        let ghost a = block as int;
        let ghost m0 = *mem;
        proof {
            model::lemma_put_back(st, a);
            model::lemma_has_bin(st, a);
            assert(Self::tag(st, m0, a));
            assert forall|j: int, i: int| #![trigger st.bins[j][i]] st.slot(j, i) implies st.bins[j][i]
                + 32 <= a || a + 32 <= st.bins[j][i] by {
                assert(st.has(st.bins[j][i]) && st.has(a));
            }
        }
        self.insert_free(mem, block);
        proof {
            assert forall|b: int| #[trigger] self@.has(b) implies Self::tag(self@, *mem, b) by {
                assert(st.has(b) && st.has(a));
                assert(Self::tag(st, m0, b));
                assert forall|x: int| b <= x < b + 16 implies !Self::in_links(st, x) by {
                    Self::lemma_not_in_links(st, b, x);
                }
                Self::lemma_tag_same(self@, st, *mem, m0, b);
            }
            assert forall|x: int| #![trigger mem.byte(x)] m0.has(x, 1) && st.client(x) implies mem.byte(x)
                == m0.byte(x) by {
                Self::lemma_client_byte(st, x);
                assert(st.has(a));
            }
        }
    }

    /// Sets the free flag of a used block.
    fn release(&mut self, mem: &mut Region, block: usize)
        requires
            old(self).wf(*old(mem)),
            old(self)@.live(block + 16),
        ensures
            final(self)@ == old(self)@.with_free(block as int, true),
            final(self).wf_but(*final(mem), block as int),
            final(mem).same_outside(*old(mem), block as int, block + 16),
    {
        let ghost st = self@;
        let ghost a = block as int;
        let ghost n = st.next(a);
        let ghost m0 = *mem;
        proof {
            assert(st.has(a) && st.has(n));
            assert(Self::tag(st, m0, a));
            model::lemma_released(st, a);
        }
        let mut h = BlockHeader::load(mem, block);
        h.set_free();
        h.store(mem, block);
        proof {
            let fs = st.with_free(a, true);
            self.state@ = fs;
            assert forall|x: int| #![trigger mem.byte(x)] Self::in_links(st, x) implies mem.byte(x)
                == m0.byte(x) by {
                if a <= x < a + 16 {
                    Self::lemma_not_in_links(st, a, x);
                } else {
                    let (j, i) = choose|j: int, i: int|
                        #![trigger st.bins[j][i]]
                        st.slot(j, i) && st.bins[j][i] + 16 <= x < st.bins[j][i] + 32;
                    assert(st.slot(j, i));
                    assert(m0.has(st.bins[j][i], 32));
                }
            }
            self.lemma_lists_kept(*old(self), *mem, m0);
            assert forall|b: int| #[trigger] fs.has(b) implies Self::tag_but(fs, *mem, b) && (b != n
                ==> Self::tag(fs, *mem, b)) by {
                assert(st.has(b));
                assert(Self::tag(st, m0, b));
                assert(fs.blocks[b].prev == st.blocks[b].prev);
                if st.blocks[b].prev is Some {
                    let p = st.blocks[b].prev->0;
                    assert(st.has(p));
                }
                if b != a {
                    assert(st.has(a));
                    Self::lemma_tag_same(fs, st, *mem, m0, b);
                }
            }
        }
    }

    /// Gives a block back and merges it with free physical neighbours; 0 is
    /// ignored.
    pub fn free(&mut self, mem: &mut Region, ptr: usize)
        requires
            old(self).wf(*old(mem)),
            ptr == 0 || old(self)@.live(ptr as int),
        ensures
            ptr == 0 ==> *final(self) == *old(self) && *final(mem) == *old(mem),
            ptr != 0 ==> final(self)@ == old(self)@.freed(ptr as int),
            final(self).wf(*final(mem)),
            final(mem).same_place(*old(mem)),
            forall|x: int|
                #![trigger final(mem).byte(x)]
                old(mem).has(x, 1) && old(self)@.client(x) && !(ptr <= x < old(self)@.next(ptr - 16))
                    ==> final(mem).byte(x) == old(mem).byte(x),
    {
        if ptr == 0 {
            return;
        }
        let ghost st = self@;
        let ghost m0 = *mem;
        proof {
            assert(st.has(ptr - 16));
        }
        let first: usize = BlockHeader::from_payload(ptr);
        let ghost a = first as int;
        self.release(mem, first);
        let ghost s1 = self@;
        let ghost m1 = *mem;
        let block: usize = self.merge_next(mem, first);
        let ghost s2 = self@;
        let ghost m2 = *mem;
        proof {
            model::lemma_merged_next(s1, a);
            model::lemma_merged_prev(s2, a);
        }
        let block: usize = self.merge_prev(mem, block);
        let ghost s3 = self@;
        let ghost m3 = *mem;
        let ghost b = block as int;
        proof {
            assert(s3.has(s3.next(b)));
            assert(Self::tag(s3, m3, b));
            assert(Self::tag_but(s3, m3, s3.next(b)));
        }
        let h = BlockHeader::load(mem, block);
        let next: usize = h.next_phys(block);
        let mut nh = BlockHeader::load(mem, next);
        nh.mark_prev_free();
        nh.prev_phys_size = h.size();
        nh.store(mem, next);
        let ghost m4 = *mem;
        proof {
            assert forall|x: int| #![trigger m4.byte(x)] Self::in_links(s3, x) implies m4.byte(x)
                == m3.byte(x) by {
                if next <= x < next + 16 {
                    Self::lemma_not_in_links(s3, next as int, x);
                } else {
                    let (j, i) = choose|j: int, i: int|
                        #![trigger s3.bins[j][i]]
                        s3.slot(j, i) && s3.bins[j][i] + 16 <= x < s3.bins[j][i] + 32;
                    assert(s3.slot(j, i));
                    assert(m3.has(s3.bins[j][i], 32));
                }
            }
            self.lemma_lists_kept(*self, m4, m3);
            Self::lemma_noted_tags(s3, m3, m4, b);
        }
        self.put_back(mem, block);
        proof {
            assert forall|x: int|
                #![trigger mem.byte(x)]
                m0.has(x, 1) && st.client(x) && !(ptr <= x < st.next(ptr - 16)) implies mem.byte(x)
                == m0.byte(x) by {
                Self::lemma_client_byte(st, x);
                assert(st.has(a));
                assert(m1.byte(x) == m0.byte(x));
                Self::lemma_released_client(st, a, x);
                assert(m2.byte(x) == m1.byte(x));
                Self::lemma_merged_client(s1, a, x);
                assert(m3.byte(x) == m2.byte(x));
                Self::lemma_client_byte(s3, x);
                assert(s3.has(next as int));
                assert(m4.byte(x) == m3.byte(x));
            }
        }
    }

    /// A block that is given back leaves the rest of the client's bytes to the
    /// client.
    proof fn lemma_released_client(st: TlsfState, a: int, x: int)
        requires
            st.chain_wf(),
            st.has(a),
            st.client(x),
            !(a + 16 <= x < st.next(a)),
        ensures
            st.with_free(a, true).client(x),
    {
        let u = st.with_free(a, true);
        assert forall|b: int| #[trigger] u.has(b) <==> st.has(b) by {};
        assert forall|b: int| #[trigger] u.next(b) == st.next(b) by {};
        if st.in_use(x) {
            let b = choose|b: int| #[trigger]
                st.has(b) && !st.blocks[b].free && b + 16 <= x < st.next(b);
            assert(u.has(b) && u.next(b) == st.next(b));
        } else {
            assert forall|b: int| #[trigger] u.has(b) implies !(b <= x < u.next(b)) by {
                assert(st.has(b));
                assert(u.next(b) == st.next(b));
            }
        }
    }

    /// Merging with both neighbours leaves the client's bytes to the client.
    proof fn lemma_merged_client(st: TlsfState, a: int, x: int)
        requires
            st.wf_but(a),
            st.client(x),
        ensures
            st.merged_next(a).client(x),
            st.merged_next(a).merged_prev(a).client(x),
    {
        let n = st.next(a);
        assert(st.has(n));
        model::lemma_merged_next(st, a);
        let s2 = st.merged_next(a);
        if st.blocks[n].free {
            let u = st.unlist(n);
            Self::lemma_same_client(st, u, x);
            assert forall|b: int| #[trigger] u.has(b) <==> st.has(b) by {};
            assert forall|b: int| #[trigger] u.next(b) == st.next(b) by {};
            assert(u.chain_wf());
            model::lemma_join_client(u, a, x);
        }
        if s2.prev_free(a) {
            let p = s2.blocks[a].prev->0;
            let v = s2.unlist(p);
            Self::lemma_same_client(s2, v, x);
            assert forall|b: int| #[trigger] v.has(b) <==> s2.has(b) by {};
            assert forall|b: int| #[trigger] v.next(b) == s2.next(b) by {};
            assert(v.chain_wf());
            assert(v.next(p) == a);
            model::lemma_join_client(v, p, x);
        }
    }

    /// The usable size of the block at `ptr`; 0 for 0.
    pub fn usable_size(&self, mem: &Region, ptr: usize) -> (r: usize)
        requires
            self.wf(*mem),
            ptr == 0 || self@.live(ptr as int),
        ensures
            r == (if ptr == 0 {
                0
            } else {
                self@.blocks[ptr - 16].size
            }),
    {
        if ptr == 0 {
            return 0;
        }
        proof {
            assert(self@.has(ptr - 16));
            assert(Self::tag(self@, *mem, ptr - 16));
        }
        let block: usize = BlockHeader::from_payload(ptr);
        BlockHeader::load(mem, block).size()
    }

    /// Bytes that lie outside all blocks or in payloads in use may change
    /// without harm to the pools.
    pub proof fn client_writes_keep_order(self, mem: Region, old_mem: Region)
        requires
            self.wf(old_mem),
            mem.wf(),
            mem.same_place(old_mem),
            forall|x: int|
                #![trigger mem.byte(x)]
                mem.has(x, 1) && !self@.client(x) ==> mem.byte(x) == old_mem.byte(x),
        ensures
            self.wf(mem),
    {
        let st = self@;
        assert forall|x: int| #![trigger mem.byte(x)] Self::in_links(st, x) implies mem.byte(x)
            == old_mem.byte(x) by {
            let (j, i) = choose|j: int, i: int|
                #![trigger st.bins[j][i]]
                st.slot(j, i) && st.bins[j][i] + 16 <= x < st.bins[j][i] + 32;
            assert(st.slot(j, i));
            assert(old_mem.has(st.bins[j][i], 32));
            if st.client(x) {
                Self::lemma_client_byte(st, x);
            }
        }
        self.lemma_lists_kept(self, mem, old_mem);
        assert forall|a: int| #[trigger] st.has(a) implies Self::tag(st, mem, a) by {
            assert(Self::tag(st, old_mem, a));
            assert forall|x: int| a <= x < a + 16 implies !st.client(x) by {
                if st.client(x) {
                    Self::lemma_client_byte(st, x);
                }
            }
            Self::lemma_tag_same(st, st, mem, old_mem, a);
        }
    }

    /// The blocks lie in the region that the pools were added from.
    pub proof fn blocks_lie_in_region(self, mem: Region)
        requires
            self.wf(mem),
        ensures
            self@.wf(),
            forall|a: int| #[trigger] self@.has(a) ==> mem.has(a, 16 + self@.blocks[a].size),
    {
        assert forall|a: int| #[trigger] self@.has(a) implies mem.has(a, 16 + self@.blocks[a].size) by {
            assert(Self::tag(self@, mem, a));
        }
    }
}

} // verus!
