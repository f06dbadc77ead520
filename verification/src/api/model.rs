//! The state of a heap, and what the calls do to it.

use vstd::arithmetic::power2::is_pow2;
use vstd::prelude::*;

use crate::api::runs::RunState;
use crate::arena::{ArenaState, META_PAGES, PAGES_PER_ARENA};
use crate::huge::{HugeBlocks, HUGE_ALLOC_THRESHOLD};
use crate::platform::DEFAULT_ARENA_SIZE;
use crate::size_class::{SizeClass, SLAB_MAX_SIZE};
use crate::slab::{SlabAllocator, SlabState};
use crate::thread_cache::{CacheRegistry, CacheState, MAX_THREADS};
use crate::tlsf::model::TlsfState;

verus! {

/// Number of pages that the TLSF pool takes: 512 KB.
pub const POOL_PAGES: usize = 128;

/// Index of the first page behind the TLSF pool.
pub const FIRST_PAGE: usize = META_PAGES + POOL_PAGES;

/// What the operating system grants, should it be asked: the base of a mapping
/// for an arena, a page for a cache, and the base of a mapping for a huge
/// block.
pub struct Grants {
    pub arena: Option<int>,
    pub page: bool,
    pub huge: Option<int>,
}

impl Grants {
    /// The grants with those that are not asked for left out.
    pub open spec fn asked(self, arena: bool, page: bool, huge: bool) -> Grants {
        Grants {
            arena: if arena {
                self.arena
            } else {
                None
            },
            page: page && self.page,
            huge: if huge {
                self.huge
            } else {
                None
            },
        }
    }
}

/// A heap. Before the arena exists there are no pools and no slab allocators.
#[verifier::ext_equal]
pub struct HeapState {
    pub arena: Option<ArenaState>,
    pub tlsf: TlsfState,
    /// Runs of whole pages.
    pub runs: RunState,
    /// The slab allocators of the threads, and behind them the shared one.
    pub slabs: Seq<Option<CacheState>>,
    /// The next thread identifier.
    pub next_id: int,
    /// The next arena identifier.
    pub next_arena: int,
    /// Huge blocks, with their sizes.
    pub huge: Map<int, int>,
}

/// What a call leaves: the heap, the calling thread's handle, and the result.
#[verifier::ext_equal]
pub struct Outcome {
    pub heap: HeapState,
    pub handle: int,
    pub ptr: int,
}

impl HeapState {
    /// A heap without anything.
    pub open spec fn empty() -> HeapState {
        HeapState {
            arena: None,
            tlsf: TlsfState::empty(),
            runs: RunState::empty(),
            slabs: Seq::new((MAX_THREADS + 1) as nat, |k: int| None::<CacheState>),
            next_id: 0,
            next_arena: 1,
            huge: Map::empty(),
        }
    }

    /// The pages of slab allocator `k`.
    pub open spec fn slab(self, k: int) -> SlabState {
        SlabState { arena: self.arena->0, lists: self.slabs[k]->0.lists }
    }

    /// Slab allocator `k` with its pages as in `s`.
    pub open spec fn with_slab(self, k: int, s: SlabState) -> HeapState {
        HeapState {
            arena: Some(s.arena),
            slabs: self.slabs.update(k, Some(CacheState { lists: s.lists, ..self.slabs[k]->0 })),
            ..self
        }
    }

    /// Slab allocator `k` with the blocks `ps` on its stack.
    pub open spec fn with_pending(self, k: int, ps: Seq<int>) -> HeapState {
        HeapState {
            slabs: self.slabs.update(k, Some(CacheState { pending: ps, ..self.slabs[k]->0 })),
            ..self
        }
    }

    /// `p` is on some stack.
    pub open spec fn pending(self, p: int) -> bool {
        exists|k: int| #[trigger] self.stacked(k, p)
    }

    /// `p` is on the stack of slab allocator `k`.
    pub open spec fn stacked(self, k: int, p: int) -> bool {
        0 <= k <= MAX_THREADS && self.slabs[k] is Some && self.slabs[k]->0.pending.contains(p)
    }

    /// `p` lies in the TLSF pool.
    pub open spec fn in_pool(self, p: int) -> bool {
        self.tlsf.start <= p < self.tlsf.end
    }

    /// `p` lies in the arena.
    pub open spec fn in_arena(self, p: int) -> bool {
        self.arena is Some && self.arena->0.holds(p)
    }

    /// The class of the page that `p` lies in; 0xFF if it is not split.
    pub open spec fn class_at(self, p: int) -> int {
        let i = self.arena->0.page_of(p);
        if i == 0 {
            0xFF
        } else {
            self.arena->0.pages[i].class
        }
    }

    /// The addresses `lo .. hi` lie in no mapping of a huge block.
    pub open spec fn clear_of_huge(self, lo: int, hi: int) -> bool {
        forall|p: int| #[trigger]
            self.huge.dom().contains(p) ==> hi <= p - 4096 || p + self.huge[p] <= lo
    }

    /// The addresses `lo .. hi` lie outside the arena.
    pub open spec fn clear_of_arena(self, lo: int, hi: int) -> bool {
        self.arena matches Some(a) ==> hi <= a.base || a.base + DEFAULT_ARENA_SIZE <= lo
    }

    /// The size of the block at `p`, if `p` is the address of a block that the
    /// client holds.
    pub open spec fn block(self, p: int) -> Option<int> {
        if self.in_arena(p) {
            if self.class_at(p) != 0xFF {
                if self.arena->0.used(p) && !self.pending(p) {
                    Some(SizeClass::size(self.class_at(p)))
                } else {
                    None
                }
            } else if self.in_pool(p) {
                if self.tlsf.live(p) {
                    Some(self.tlsf.blocks[p - 16].size)
                } else {
                    None
                }
            } else if self.runs.held(p) {
                Some(self.runs.sizes[p])
            } else {
                None
            }
        } else if self.huge.dom().contains(p) {
            Some(self.huge[p])
        } else {
            None
        }
    }

    /// `x` lies in a block that the client holds.
    pub open spec fn owns(self, x: int) -> bool {
        exists|p: int| #[trigger] self.block(p) is Some && p <= x < p + self.block(p)->0
    }

    /// The blocks, but for the one at `r`, are those of `old`. A block of no
    /// bytes may have gone.
    pub open spec fn same_blocks_but(self, old: HeapState, r: int) -> bool {
        &&& forall|p: int| #[trigger]
            old.block(p) is Some && old.block(p)->0 > 0 && p != r ==> self.block(p) == old.block(p)
        &&& forall|p: int| #[trigger] self.block(p) is Some && p != r ==> old.block(p) == self.block(p)
    }

    /// The blocks, but for one that may have gone at `p` and one at `r`, are
    /// those of `old`. A block of no bytes may have gone, too.
    pub open spec fn same_blocks_but_two(self, old: HeapState, p: int, r: int) -> bool {
        &&& forall|q: int| #[trigger]
            old.block(q) is Some && old.block(q)->0 > 0 && q != p && q != r ==> self.block(q) == old.block(q)
        &&& forall|q: int| #[trigger] self.block(q) is Some && q != r ==> old.block(q) == self.block(q)
    }

    /// Whether `p` can be given back: nothing, a block that the client holds,
    /// or an address that is none of the heap's blocks and is ignored.
    pub open spec fn may_free(self, p: int) -> bool {
        p == 0 || self.block(p) is Some || (self.in_arena(p) ==> self.class_at(p) == 0xFF
            && !self.in_pool(p))
    }

    // ---- what the calls do ----
    /// The arena exists, if the operating system grants it.
    pub open spec fn inited(self, grant: Option<int>) -> HeapState {
        if self.arena is Some || grant is None {
            self
        } else {
            let a = ArenaState::fresh(grant->0, self.next_arena).pages_taken(POOL_PAGES as int);
            HeapState {
                arena: Some(a),
                tlsf: TlsfState::empty().pooled(a.page(META_PAGES as int), POOL_PAGES * 4096),
                runs: RunState::empty(),
                slabs: self.slabs.update(MAX_THREADS as int, Some(CacheState::empty())),
                next_arena: if self.next_arena == u32::MAX {
                    0
                } else {
                    self.next_arena + 1
                },
                ..self
            }
        }
    }

    /// The thread with the handle `handle` has a cache, if it can be given one:
    /// the outcome's result is the identifier and one more, or 0.
    pub open spec fn joined(self, handle: int, page: bool) -> Outcome {
        if self.arena is None {
            Outcome { heap: self, handle, ptr: 0 }
        } else {
            let (next, slabs, h, id) = CacheRegistry::joined(self.next_id, self.slabs, handle, page);
            Outcome {
                heap: HeapState { next_id: next, slabs, ..self },
                handle: h,
                ptr: match id {
                    Some(k) => k + 1,
                    None => 0,
                },
            }
        }
    }

    /// The stack of slab allocator `k` has been emptied into its pages.
    pub open spec fn drained(self, k: int) -> HeapState {
        self.with_slab(k, self.slab(k).drained(self.slabs[k]->0.pending)).with_pending(k, Seq::empty())
    }

    /// A slot of a class from slab allocator `k`: the heap and the address; 0
    /// if there is no page.
    pub open spec fn small(self, k: int, class: int) -> (HeapState, int) {
        let d = self.drained(k);
        match d.slab(k).stocked(class, k) {
            Some(sk) => (d.with_slab(k, sk.served(class)), sk.next_slot(class)),
            None => (d, 0),
        }
    }

    /// A block from the TLSF pool, or else whole pages of the arena: the first
    /// spare run that is long enough, or else new pages; 0 if there is no room.
    pub open spec fn large(self, size: int) -> (HeapState, int) {
        match self.tlsf.fit(size) {
            Some(b) => (HeapState { tlsf: self.tlsf.allocated(size), ..self }, b + 16),
            None => self.whole_pages((size + 4095) / 4096),
        }
    }

    /// A run of `n` pages or more.
    pub open spec fn whole_pages(self, n: int) -> (HeapState, int) {
        let a = self.arena->0;
        match self.runs.fit(n * 4096) {
            Some(i) => (HeapState { runs: self.runs.taken(i), ..self }, self.runs.spare[i]),
            None => if a.next + n > PAGES_PER_ARENA {
                (self, 0)
            } else {
                (
                    HeapState {
                        arena: Some(a.pages_taken(n)),
                        runs: self.runs.grown(a.page(a.next), n * 4096),
                        ..self
                    },
                    a.page(a.next),
                )
            },
        }
    }

    /// A block with a mapping of its own; 0 if the mapping is not granted.
    pub open spec fn huge_alloc(self, size: int, grant: Option<int>) -> (HeapState, int) {
        match grant {
            Some(base) => (
                HeapState {
                    huge: self.huge.insert(base + 4096, HugeBlocks::total(size) - 4096),
                    ..self
                },
                base + 4096,
            ),
            None => (self, 0),
        }
    }

    /// The size that a request for `size` bytes is served with from a slab
    /// allocator: a multiple of 16, so that the slots of its class are aligned.
    pub open spec fn rounded(size: int) -> int {
        (size + 15) / 16 * 16
    }

    /// The class that serves a request for `size` bytes.
    pub open spec fn class_for(size: int) -> int {
        choose|c: int| SizeClass::fits(c, Self::rounded(size))
    }

    /// Allocation of `size` bytes by the thread with the handle `handle`.
    pub open spec fn malloc(self, handle: int, size: int, os: Grants) -> Outcome {
        let s1 = self.inited(os.arena);
        if size == 0 {
            Outcome { heap: self, handle, ptr: 0 }
        } else if size >= HUGE_ALLOC_THRESHOLD {
            let (heap, ptr) = s1.huge_alloc(size, os.huge);
            Outcome { heap, handle, ptr }
        } else if s1.arena is None {
            Outcome { heap: s1, handle, ptr: 0 }
        } else if size <= SLAB_MAX_SIZE {
            let j = s1.joined(handle, os.page);
            if j.ptr == 0 {
                let (heap, ptr) = j.heap.large(size);
                Outcome { heap, handle: j.handle, ptr }
            } else {
                let (s2, p) = j.heap.small(j.ptr - 1, Self::class_for(size));
                if p != 0 {
                    Outcome { heap: s2, handle: j.handle, ptr: p }
                } else {
                    let (heap, ptr) = s2.large(size);
                    Outcome { heap, handle: j.handle, ptr }
                }
            }
        } else {
            let (heap, ptr) = s1.large(size);
            Outcome { heap, handle, ptr }
        }
    }

    /// An alignment that can be asked for: a power of two, and a multiple of
    /// the size of an address.
    pub open spec fn is_alignment(n: int) -> bool {
        n % 8 == 0 && is_pow2(n)
    }

    /// Allocation of `size` bytes at a multiple of `alignment`. Alignments up to
    /// 16 hold of every block; up to a page, the block is mapped directly.
    pub open spec fn aligned(self, handle: int, alignment: int, size: int, os: Grants) -> Outcome {
        if !Self::is_alignment(alignment) || alignment > 4096 {
            Outcome { heap: self, handle, ptr: 0 }
        } else if alignment <= 16 {
            self.malloc(handle, size, os)
        } else {
            let (heap, ptr) = self.huge_alloc(size, os.huge);
            Outcome { heap, handle, ptr }
        }
    }

    /// The slot at `p`, which the thread with identifier `id`, if it has one,
    /// gives back: into its page if the page is the thread's own, onto the
    /// stack of the owner if not.
    pub open spec fn small_freed(self, id: Option<int>, p: int) -> HeapState {
        let a = self.arena->0;
        let owner = a.pages[a.page_of(p)].owner;
        match id {
            Some(k) if owner == k => self.with_slab(k, self.slab(k).returned(p)),
            _ => if owner != 0xFFFF {
                self.with_pending(owner, seq![p] + self.slabs[owner]->0.pending)
            } else {
                self.with_slab(
                    MAX_THREADS as int,
                    self.slab(MAX_THREADS as int).returned(p),
                )
            },
        }
    }

    /// The address `p` given back by the thread with the handle `handle`.
    pub open spec fn freed(self, handle: int, p: int, os: Grants) -> Outcome {
        let s1 = self.inited(os.arena);
        let j = s1.joined(handle, os.page);
        let id = if j.ptr == 0 {
            None
        } else {
            Some(j.ptr - 1)
        };
        let s2 = j.heap;
        let heap = if p == 0 {
            self
        } else if s2.in_arena(p) {
            if s2.class_at(p) != 0xFF {
                s2.small_freed(id, p)
            } else if s2.in_pool(p) {
                HeapState { tlsf: s2.tlsf.freed(p), ..s2 }
            } else {
                HeapState { runs: s2.runs.given_back(p), ..s2 }
            }
        } else {
            HeapState { huge: s2.huge.remove(p), ..s2 }
        };
        Outcome {
            heap,
            handle: if p == 0 {
                handle
            } else {
                j.handle
            },
            ptr: 0,
        }
    }

    /// The usable size of the block at `p`; 0 for addresses that are none of
    /// the heap's.
    pub open spec fn usable(self, p: int) -> int {
        if self.in_arena(p) {
            if self.class_at(p) != 0xFF {
                SizeClass::size(self.class_at(p))
            } else if self.in_pool(p) {
                self.tlsf.blocks[p - 16].size
            } else if self.runs.held(p) {
                self.runs.sizes[p]
            } else {
                0
            }
        } else if self.huge.dom().contains(p) {
            self.huge[p]
        } else {
            0
        }
    }

    /// The allocation of the block that another one is moved into.
    pub open spec fn move_target(self, handle: int, size: int, os: Grants) -> Outcome {
        self.inited(os.arena).malloc(handle, size, Grants { arena: None, ..os })
    }

    /// A block at `p` moved into one of `size` bytes: allocation of the new
    /// block, and if that succeeds, the old one given back. The operating
    /// system may be asked twice for the page of a cache.
    pub open spec fn moved(self, handle: int, p: int, size: int, os: Grants, again: bool) -> Outcome {
        let m = self.move_target(handle, size, os);
        if m.ptr == 0 {
            m
        } else {
            let f = m.heap.freed(m.handle, p, Grants { arena: None, page: again, huge: None });
            Outcome { ptr: m.ptr, ..f }
        }
    }

    // ---- good order ----
    /// The pages in a thread's lists are its own.
    pub open spec fn lists_own(a: ArenaState, lists: Seq<Seq<int>>, k: int) -> bool {
        k < MAX_THREADS ==> forall|i: int| #[trigger]
            SlabAllocator::listed(lists, i) ==> a.pages[i].owner == k
    }

    /// Slab allocator `k` is in good order: its lists are, and the blocks on
    /// its stack are slots in use of pages that it owns.
    pub open spec fn slab_ok(self, k: int) -> bool {
        let a = self.arena->0;
        let ps = self.slabs[k]->0.pending;
        &&& self.slab(k).wf()
        &&& Self::lists_own(a, self.slabs[k]->0.lists, k)
        &&& ps.no_duplicates()
        &&& forall|i: int|
            #![trigger ps[i]]
            0 <= i < ps.len() ==> a.used(ps[i]) && a.pages[a.page_of(ps[i])].owner == k
        &&& k == MAX_THREADS ==> ps.len() == 0
    }

    /// Slab allocators `j` and `k` have no page in common.
    pub open spec fn lists_apart(self, j: int, k: int) -> bool {
        forall|i: int|
            #![trigger SlabAllocator::listed(self.slabs[j]->0.lists, i)]
            !(SlabAllocator::listed(self.slabs[j]->0.lists, i) && SlabAllocator::listed(
                self.slabs[k]->0.lists,
                i,
            ))
    }

    /// A page that is split lies behind the pool, has been handed out and
    /// belongs to a thread's slab allocator.
    pub open spec fn page_ok(self, i: int) -> bool {
        let a = self.arena->0;
        a.pages[i].class != 0xFF ==> {
            &&& FIRST_PAGE <= i < a.next
            &&& 0 <= a.pages[i].owner < MAX_THREADS
            &&& self.slabs[a.pages[i].owner] is Some
        }
    }

    /// The run of whole pages at `p` takes pages that have been handed out
    /// and are not split.
    pub open spec fn run_ok(self, p: int) -> bool {
        let a = self.arena->0;
        let i = a.page_of(p);
        let n = self.runs.sizes[p] / 4096;
        &&& p == a.page(i)
        &&& FIRST_PAGE <= i
        &&& n > 0
        &&& self.runs.sizes[p] == n * 4096
        &&& i + n <= a.next
        &&& forall|j: int| #![trigger a.pages[j]] i <= j < i + n ==> a.pages[j].class == 0xFF
    }

    /// The arena is in good order.
    pub open spec fn arena_wf(self) -> bool {
        let a = self.arena->0;
        &&& a.slots_wf()
        &&& a.base > 0
        &&& a.base % 4096 == 0
        &&& a.base + crate::platform::DEFAULT_ARENA_SIZE <= usize::MAX
        &&& FIRST_PAGE <= a.next
        &&& forall|i: int| 0 <= i < PAGES_PER_ARENA ==> #[trigger] self.page_ok(i)
    }

    /// The pool is in good order and lies in its pages.
    pub open spec fn pool_wf(self) -> bool {
        let a = self.arena->0;
        &&& self.tlsf.wf()
        &&& self.tlsf.start == a.page(META_PAGES as int)
        &&& self.tlsf.end == a.page(FIRST_PAGE as int)
        &&& forall|b: int| #[trigger]
            self.tlsf.has(b) ==> self.tlsf.start <= b && b + 16 + self.tlsf.blocks[b].size
                <= self.tlsf.end
    }

    /// The slab allocators are in good order.
    pub open spec fn slabs_wf(self) -> bool {
        &&& self.slabs[MAX_THREADS as int] is Some
        &&& forall|k: int|
            #![trigger self.slab_ok(k)]
            0 <= k <= MAX_THREADS && self.slabs[k] is Some ==> self.slab_ok(k)
        &&& forall|j: int, k: int|
            #![trigger self.lists_apart(j, k)]
            0 <= j <= MAX_THREADS && 0 <= k <= MAX_THREADS && j != k && self.slabs[j] is Some
                && self.slabs[k] is Some ==> self.lists_apart(j, k)
    }

    /// The runs of whole pages are in good order.
    pub open spec fn runs_wf(self) -> bool {
        &&& self.runs.wf()
        &&& forall|p: int| #[trigger] self.runs.sizes.dom().contains(p) ==> self.run_ok(p)
        &&& forall|p: int, q: int|
            #![trigger self.runs.sizes.dom().contains(p), self.runs.sizes.dom().contains(q)]
            self.runs.sizes.dom().contains(p) && self.runs.sizes.dom().contains(q) && p < q ==> p + self.runs.sizes[p]
                <= q
    }

    /// The huge blocks are in good order: with their header pages they share
    /// no address with each other and with the arena.
    pub open spec fn huge_wf(self) -> bool {
        &&& forall|p: int| #[trigger]
            self.huge.dom().contains(p) ==> {
                &&& p % 4096 == 0
                &&& p > 4096
                &&& self.huge[p] >= 0
                &&& p + self.huge[p] <= usize::MAX
                &&& self.arena is Some ==> p + self.huge[p] <= self.arena->0.base || self.arena->0.base
                    + crate::platform::DEFAULT_ARENA_SIZE <= p - 4096
            }
        &&& forall|p: int, q: int|
            #![trigger self.huge.dom().contains(p), self.huge.dom().contains(q)]
            self.huge.dom().contains(p) && self.huge.dom().contains(q) && p < q ==> p + self.huge[p]
                <= q - 4096
    }

    /// A heap in good order.
    pub open spec fn wf(self) -> bool {
        &&& self.slabs.len() == MAX_THREADS + 1
        &&& 0 <= self.next_id <= MAX_THREADS
        &&& forall|k: int|
            #![trigger self.slabs[k]]
            0 <= k < MAX_THREADS && self.slabs[k] is Some ==> k < self.next_id
        &&& self.huge_wf()
        &&& if self.arena is None {
            forall|k: int| 0 <= k <= MAX_THREADS ==> #[trigger] self.slabs[k] is None
        } else {
            &&& self.arena_wf()
            &&& self.pool_wf()
            &&& self.slabs_wf()
            &&& self.runs_wf()
        }
    }

    /// The handle is nothing, or leads to a cache.
    pub open spec fn knows(self, handle: int) -> bool {
        handle == 0 || (1 <= handle <= MAX_THREADS && self.slabs[handle - 1] is Some)
    }
}

} // verus!
