//! The allocator's interface.
//!
//! A [`Heap`] routes each request by its size: small ones to the slab
//! allocator of the calling thread, larger ones to a TLSF pool, and from
//! there, once the pool has no room, to whole pages of the arena; the largest
//! get a mapping of their own.
//!
//! Mappings come from the operating system, which is not called here: each
//! call takes the answers that the operating system gave, and functions such as
//! [`malloc_requests`] say beforehand which of them the call will look at. What
//! a call hands back as a region is to be unmapped. A thread passes its table of
//! thread-local values with each call.

use vstd::prelude::*;

use crate::api::model::{Grants, HeapState, FIRST_PAGE, POOL_PAGES};
use crate::api::runs::{PageRuns, RunState};
use crate::arena::{Arena, ArenaIds, ArenaState, MAX_ALIGN, META_PAGES, NO_CLASS, PAGES_PER_ARENA};
use crate::huge::{huge_alloc, huge_free, huge_usable_size, HugeBlocks, HUGE_ALLOC_THRESHOLD};
use crate::memory::Region;
use crate::platform::{align_up, is_mapping, is_power_of_two, ThreadLocals, TlsKeys, DEFAULT_ARENA_SIZE, PAGE_SIZE};
use crate::size_class::{class_to_size, size_to_class, SizeClass, NUM_SIZE_CLASSES, SLAB_MAX_SIZE};
use crate::slab::{SlabAllocator, SlabState};
use crate::thread_cache::{
    init_tls, remote_free_push, CacheRegistry, CacheState, ThreadCache, MAX_THREADS,
};
use crate::tlsf::model::TlsfState;
use crate::tlsf::TlsfAllocator;

pub mod laws;
pub mod model;
pub mod promises;
pub mod reach;
pub mod runs;
pub mod steps;

verus! {

/// What threads share once the arena exists.
pub struct Central {
    arena: Arena,
    /// Slab allocator for slots that threads without a cache give back.
    slab: SlabAllocator,
    tlsf: TlsfAllocator,
    /// The runs of whole pages.
    runs: PageRuns,
}

/// A heap.
pub struct Heap {
    central: Option<Central>,
    registry: CacheRegistry,
    huge: HugeBlocks,
    keys: TlsKeys,
    ids: ArenaIds,
}

/// The operating system's answers to the requests that a call may make: for an
/// arena, for a page, and for a huge block.
pub struct OsReplies {
    pub arena: Option<Region>,
    pub page: Option<Region>,
    pub huge: Option<Region>,
}

impl OsReplies {
    /// What is granted; `size` is the size of the block that is asked for.
    pub open spec fn grants(self, size: int) -> Grants {
        Grants {
            arena: if is_mapping(self.arena, DEFAULT_ARENA_SIZE as int) {
                Some(self.arena->0.base as int)
            } else {
                None
            },
            page: is_mapping(self.page, PAGE_SIZE as int),
            huge: if is_mapping(self.huge, HugeBlocks::total(size)) && size + 2 * PAGE_SIZE - 1
                <= usize::MAX {
                Some(self.huge->0.base as int)
            } else {
                None
            },
        }
    }

    /// No answers.
    pub fn none() -> (r: OsReplies)
        ensures
            r.arena is None,
            r.page is None,
            r.huge is None,
    {
        OsReplies { arena: None, page: None, huge: None }
    }
}

/// `r` is what is to be unmapped once `p` has been given back to `h`: the whole
/// mapping of a huge block, and nothing for another address.
pub open spec fn unmaps(h: HeapState, p: int, r: Option<Region>) -> bool {
    match r {
        Some(region) => !h.in_arena(p) && h.huge.dom().contains(p) && region.base == p - PAGE_SIZE
            && region.bytes@.len() == h.huge[p] + PAGE_SIZE,
        None => p == 0 || h.in_arena(p) || !h.huge.dom().contains(p),
    }
}

impl View for Heap {
    type V = HeapState;

    closed spec fn view(&self) -> HeapState {
        HeapState {
            arena: match self.central {
                Some(c) => Some(c.arena@),
                None => None,
            },
            tlsf: match self.central {
                Some(c) => c.tlsf@,
                None => TlsfState::empty(),
            },
            runs: match self.central {
                Some(c) => c.runs@,
                None => RunState::empty(),
            },
            slabs: self.registry@.push(
                match self.central {
                    Some(c) => Some(CacheState { lists: c.slab@, pending: Seq::empty() }),
                    None => None,
                },
            ),
            next_id: self.registry.next_thread_id as int,
            next_arena: self.ids.next as int,
            huge: Map::new(
                |p: int| 0 <= p <= usize::MAX && self.huge@.dom().contains(p as usize),
                |p: int| self.huge@[p as usize].bytes@.len() - 4096,
            ),
        }
    }
}

impl Heap {
    /// A heap in good order.
    pub closed spec fn wf(self) -> bool {
        &&& self@.wf()
        &&& self.registry.shape()
        &&& self.huge.wf()
        &&& match self.central {
            Some(c) => {
                &&& c.arena.wf()
                &&& c.slab.wf(c.arena)
                &&& c.tlsf.wf(c.arena.mem)
                &&& c.runs.wf()
                &&& self.registry.wf(c.arena)
                &&& self.registry.tls_key != usize::MAX
            },
            None => self.registry.tls_key == usize::MAX && self.keys.next == 1,
        }
    }

    /// What a thread's table says of its cache: the identifier and one more, or
    /// 0.
    pub closed spec fn handle(self, tls: ThreadLocals) -> int {
        if self.central is None {
            0
        } else {
            self.registry.handle(tls)
        }
    }

    /// The thread's table holds nothing but what this heap put there under its
    /// key.
    pub closed spec fn knows(self, tls: ThreadLocals) -> bool {
        &&& self@.knows(self.handle(tls))
        &&& self.central is None ==> tls.value(self.keys.next) == 0
    }

    /// The mappings that the operating system offers are new: they share no
    /// address with those in use, nor with each other.
    pub open spec fn offered(self, os: OsReplies) -> bool {
        &&& os.arena matches Some(r) ==> self@.clear_of_huge(r.base as int, r.end())
        &&& os.huge matches Some(r) ==> {
            &&& self@.clear_of_huge(r.base as int, r.end())
            &&& self@.clear_of_arena(r.base as int, r.end())
            &&& os.arena matches Some(a) ==> r.apart(a)
        }
    }

    /// The byte at address `x`.
    pub closed spec fn byte(self, x: int) -> u8 {
        if self@.in_arena(x) {
            self.central->0.arena.mem.byte(x)
        } else {
            let p = choose|p: usize| #[trigger]
                self.huge@.dom().contains(p) && self.huge@[p].has(x, 1);
            self.huge@[p].byte(x)
        }
    }

    /// A heap without anything.
    pub fn new() -> (r: Heap)
        ensures
            r.wf(),
            r@ == HeapState::empty(),
            forall|tls: ThreadLocals| tls@ == Map::<u32, usize>::empty() ==> #[trigger] r.knows(tls),
    {
        let r = Heap {
            central: None,
            registry: CacheRegistry::new(),
            huge: HugeBlocks::new(),
            keys: TlsKeys::new(),
            ids: ArenaIds::new(),
        };
        proof {
            assert(r@.slabs =~= HeapState::empty().slabs);
            assert(r@.huge =~= Map::<int, int>::empty());
            assert(r@ == HeapState::empty());
        }
        r
    }
}

/// Creates the arena and what lies in it, if it does not exist yet. The
/// operating system is to be asked for its memory; `reply` is its answer.
pub fn ensure_init(heap: &mut Heap, reply: Option<Region>)
    requires
        old(heap).wf(),
        old(heap).offered(OsReplies { arena: reply, page: None, huge: None }),
    ensures
        final(heap).wf(),
        final(heap)@ == old(heap)@.inited(
            (OsReplies { arena: reply, page: None, huge: None }).grants(0).arena,
        ),
        final(heap).continues(*old(heap)),
        forall|os: OsReplies|
            os.arena == reply && old(heap).offered(os) ==> #[trigger] final(heap).offered(
                (OsReplies { arena: None, ..os }),
            ),
        forall|x: int| old(heap)@.owns(x) ==> #[trigger] final(heap).byte(x) == old(heap).byte(x),
        old(heap)@.arena is Some ==> *final(heap) == *old(heap),
{
    if heap.central.is_some() {
        return;
    }
    let ghost h = heap@;
    let ghost grant = (OsReplies { arena: reply, page: None, huge: None }).grants(0).arena;
    let mut arena = match Arena::new(0, &mut heap.ids, reply) {
        Some(arena) => arena,
        None => {
            assert(heap@ == h);
            return;
        },
    };
    init_tls(&mut heap.registry, &mut heap.keys);
    let slab = SlabAllocator::new();
    let pool_size: usize = POOL_PAGES * PAGE_SIZE;
    let pool: usize = arena.allocate(pool_size, MAX_ALIGN);
    let ghost a1 = arena;
    let mut tlsf = TlsfAllocator::new();
    proof {
        assert(a1@ == ArenaState::fresh(reply->0.base as int, h.next_arena).pages_taken(POOL_PAGES as int));
        assert(pool == a1@.page(META_PAGES as int));
        assert forall|x: int| !#[trigger] tlsf@.covers(x) by {};
    }
    tlsf.add_pool(&mut arena.mem, pool, pool_size);
    proof {
        assert forall|i: int| 0 <= i < PAGES_PER_ARENA implies #[trigger] arena.page_ok(i) by {
            assert(a1.page_ok(i));
            assert(a1@.pages[i].class == 0xFF);
        }
        assert(arena@.pages =~= a1@.pages);
    }
    heap.central = Some(Central { arena, slab, tlsf, runs: PageRuns::new() });
    proof {
        lemma_arena_grant(*old(heap), reply);
        steps::lemma_inited(h, grant);
        assert(heap@.slabs =~= h.inited(grant).slabs);
        assert(heap@.huge =~= h.huge);
        assert(heap@ == h.inited(grant));
        assert(heap.registry.wf(arena)) by {
            assert forall|k: int| #![trigger heap.registry.caches@[k]] 0 <= k < MAX_THREADS implies heap.registry.caches@[k] is None by {
                assert(h.slabs[k] is None);
            }
        }
        assert forall|tls: ThreadLocals| #[trigger] old(heap).knows(tls) implies heap.knows(tls)
            && heap.handle(tls) == old(heap).handle(tls) by {
            assert(tls.value(1) == 0);
        }
        assert forall|x: int| h.owns(x) implies #[trigger] heap.byte(x) == old(heap).byte(x) by {
            let p = choose|p: int| #[trigger] h.block(p) is Some && p <= x < p + h.block(p)->0;
            assert(h.huge.dom().contains(p));
            assert(!heap@.in_arena(x)) by {
                assert(heap@.huge.dom().contains(p));
            }
            assert(heap.huge@ == old(heap).huge@);
        }
    }
}

/// A mapping that is new to the heap, in terms of its state.
proof fn lemma_arena_grant(heap: Heap, reply: Option<Region>)
    requires
        heap.wf(),
        heap.offered(OsReplies { arena: reply, page: None, huge: None }),
        is_mapping(reply, DEFAULT_ARENA_SIZE as int),
    ensures
        ({
            let base = reply->0.base as int;
            &&& base > 0
            &&& base % 4096 == 0
            &&& base + DEFAULT_ARENA_SIZE <= usize::MAX
            &&& forall|p: int| #[trigger]
                heap@.huge.dom().contains(p) ==> p + heap@.huge[p] <= base || base + DEFAULT_ARENA_SIZE
                    <= p - 4096
        }),
{
}

impl Heap {
    /// The page of cache `k`, if there is such a cache.
    pub closed spec fn cache_page(self, k: int) -> Option<Region> {
        if 0 <= k < self.registry.caches@.len() && self.registry.caches@[k] is Some {
            Some(self.registry.caches@[k]->0.page)
        } else {
            None
        }
    }

    /// A thread that had no cache and has one now has it on the page that the
    /// operating system gave.
    pub open spec fn new_cache_on(self, handle: int, old: Heap, old_handle: int, page: Option<Region>) -> bool {
        old_handle == 0 && handle != 0 ==> old.cache_page(handle - 1) is None && self.cache_page(handle - 1)
            == page
    }

    /// Threads' tables mean what they meant, and caches keep their pages.
    pub open spec fn continues(self, old: Heap) -> bool {
        &&& forall|tls: ThreadLocals|
            #![trigger old.knows(tls)]
            #![trigger self.knows(tls)]
            old.knows(tls) ==> self.knows(tls) && self.handle(tls) == old.handle(tls)
        &&& forall|k: int|
            #![trigger old.cache_page(k)]
            #![trigger self.cache_page(k)]
            old.cache_page(k) is Some ==> self.cache_page(k) == old.cache_page(k)
    }

    /// The bytes that the client held before are as they were.
    pub open spec fn keeps_bytes(self, old: Heap) -> bool {
        forall|x: int| old@.owns(x) ==> #[trigger] self.byte(x) == old.byte(x)
    }
}

/// A heap is in good order after a step of slab allocator `k` that left the
/// others alone.
proof fn lemma_slab_done(new: Heap, old: Heap, k: int)
    requires
        old.wf(),
        new@.wf(),
        old.central is Some,
        new.central is Some,
        new.central->0.tlsf == old.central->0.tlsf,
        new.central->0.runs == old.central->0.runs,
        new.huge == old.huge,
        new.registry.tls_key == old.registry.tls_key,
        new.registry.shape(),
        new.central->0.arena.wf(),
        new.central->0.arena.mem.same_place(old.central->0.arena.mem),
        new@.arena->0.next >= old@.arena->0.next,
        0 <= k <= MAX_THREADS,
        old@.slabs[k] is Some,
        new@.slabs[k] is Some,
        forall|m: int|
            0 <= m < MAX_THREADS && m != k ==> #[trigger] new.registry.caches@[m]
                == old.registry.caches@[m],
        k != MAX_THREADS ==> new.central->0.slab == old.central->0.slab,
        k != MAX_THREADS ==> new.registry.caches@[k] is Some && new.registry.caches@[k]->0.wf(
            new.central->0.arena,
        ),
        k != MAX_THREADS ==> new.registry.caches@[k]->0.page == old.registry.caches@[k]->0.page,
        k == MAX_THREADS ==> new.central->0.slab.wf(new.central->0.arena),
        SlabAllocator::other_links_kept(
            new.central->0.arena,
            old.central->0.arena,
            new@.slabs[k]->0.lists,
            old@.slabs[k]->0.lists,
        ),
        forall|j: int|
            #![trigger new.central->0.arena.pages@[j]]
            0 <= j < old@.arena->0.next ==> new.central->0.arena.pages@[j].size_class
                == old.central->0.arena.pages@[j].size_class,
        forall|x: int|
            #![trigger new.central->0.arena.mem.byte(x)]
            old@.arena->0.base <= x < old@.arena->0.page(FIRST_PAGE as int)
                ==> new.central->0.arena.mem.byte(x) == old.central->0.arena.mem.byte(x),
        forall|m: int, p: int, x: int|
            #![trigger old@.stacked(m, p), new.central->0.arena.mem.byte(x)]
            old@.stacked(m, p) && m != k && p <= x < p + 8 ==> new.central->0.arena.mem.byte(x)
                == old.central->0.arena.mem.byte(x),
    ensures
        new.wf(),
        new.continues(old),
{
    let a0 = old.central->0.arena;
    let a1 = new.central->0.arena;
    let h0 = old@;
    let h1 = new@;
    assert forall|m: int| 0 <= m <= MAX_THREADS && m != k implies #[trigger] h1.slabs[m] == h0.slabs[m] by {};
    assert forall|m: int, j: int|
        0 <= m <= MAX_THREADS && m != k && h0.slabs[m] is Some && 0 <= j < PAGES_PER_ARENA
            && #[trigger] SlabAllocator::listed(h0.slabs[m]->0.lists, j) implies {
        &&& a1.pages@[j].next_page == a0.pages@[j].next_page
        &&& a1.pages@[j].prev_page == a0.pages@[j].prev_page
        &&& a1.pages@[j].size_class == a0.pages@[j].size_class
        &&& a1.free@[j].len() > 0
    } by {
        assert(h0.lists_apart(m, k));
        assert(h1.lists_apart(m, k));
        assert(h1.slabs[m] == h0.slabs[m]);
        let l = h0.slabs[m]->0.lists;
        let (c, i) = choose|c: int, i: int| #[trigger] SlabAllocator::member(l, c, i) && l[c][i] == j;
        assert(h0.slab_ok(m));
        assert(h1.slab_ok(m));
        assert(h1.slab(m).lists == l);
        assert(h1.arena->0.pages[j].free.len() > 0);
        assert(a1.pages@[j].size_class == a0.pages@[j].size_class);
    }
    assert forall|m: int|
        #![trigger new.registry.caches@[m]]
        0 <= m < MAX_THREADS && new.registry.caches@[m] is Some implies new.registry.caches@[m]->0.wf(a1) by {
        if m != k {
            let c = old.registry.caches@[m]->0;
            assert(new.registry.caches@[m] == old.registry.caches@[m]);
            assert(h0.slabs[m] == Some(c@));
            assert(h1.slabs[m] == h0.slabs[m]);
            assert forall|p: int| #[trigger] c@.pending.contains(p) && a0@.used(p) implies a1@.used(p) by {
                assert(h1.slab_ok(m));
                let i = c@.pending.index_of(p);
                assert(h1.slabs[m]->0.pending[i] == p);
            }
            assert forall|p: int, x: int|
                #![trigger c@.pending.contains(p), a1.mem.byte(x)]
                c@.pending.contains(p) && p <= x < p + 8 implies a1.mem.byte(x) == a0.mem.byte(x) by {
                assert(h0.stacked(m, p));
            }
            c.lemma_kept(a1, a0);
        }
    }
    if k != MAX_THREADS {
        let g = old.central->0.slab;
        assert(h0.slabs[MAX_THREADS as int]->0.lists == g@);
        g.lemma_kept_at(a1, a0);
    }
    let t = old.central->0.tlsf;
    assert forall|x: int|
        #![trigger a1.mem.byte(x)]
        a1.mem.has(x, 1) && !t@.client(x) implies a1.mem.byte(x) == a0.mem.byte(x) by {
        let b = choose|b: int| #[trigger] t@.has(b) && b <= x < t@.next(b);
        assert(t@.has(b));
    }
    t.client_writes_keep_order(a1.mem, a0.mem);
    assert forall|tls: ThreadLocals| #[trigger] old.knows(tls) implies new.knows(tls) && new.handle(tls)
        == old.handle(tls) by {
        let e = old.handle(tls);
        if e != 0 {
            assert(h1.slabs[e - 1] is Some) by {
                if e - 1 != k {
                    assert(h1.slabs[e - 1] == h0.slabs[e - 1]);
                }
            }
        }
    }
}

/// Empties the stack of cache `id`.
fn drain_cache(heap: &mut Heap, id: u16)
    requires
        old(heap).wf(),
        old(heap)@.arena is Some,
        id < MAX_THREADS,
        old(heap)@.slabs[id as int] is Some,
    ensures
        final(heap).wf(),
        final(heap)@ == old(heap)@.drained(id as int),
        final(heap).continues(*old(heap)),
        final(heap).keeps_bytes(*old(heap)),
{
    let ghost h = heap@;
    let ghost k = id as int;
    match &mut heap.central {
        Some(c) => {
            match &mut heap.registry.caches[id as usize] {
                Some(tc) => {
                    tc.drain_remote_frees(&mut c.arena);
                },
                None => {},
            }
        },
        None => {},
    }
    proof {
        let c0 = old(heap).central->0;
        let c1 = heap.central->0;
        let ps = h.slabs[k]->0.pending;
        assert(old(heap).registry.caches@[k] is Some);
        steps::lemma_drained(h, k);
        assert(heap@.slabs =~= h.drained(k).slabs);
        assert(heap@.huge =~= h.huge);
        assert(heap@ == h.drained(k));
        assert(h.slab_ok(k));
        assert forall|i: int| #![trigger ps[i]] 0 <= i < ps.len() implies h.stacked(k, ps[i])
            && c0.arena@.used(ps[i]) && h.pending(ps[i]) && FIRST_PAGE <= c0.arena@.page_of(ps[i])
            && c0.arena@.page(c0.arena@.page_of(ps[i])) <= ps[i] && c0.arena@.page_of(ps[i]) < c0.arena@.next by {
            assert(ps.contains(ps[i]));
            assert(h.stacked(k, ps[i]));
            steps::lemma_stacked(h, k, ps[i]);
            crate::slab::laws::lemma_used(c0.arena@, ps[i]);
            assert(h.page_ok(c0.arena@.page_of(ps[i])));
        }
        crate::slab::laws::drained_slots(h.slab(k), ps);
        assert forall|j: int| #![trigger c1.arena.pages@[j]] 0 <= j < h.arena->0.next implies c1.arena.pages@[j].size_class
            == c0.arena.pages@[j].size_class by {
            assert(h.slab(k).drained(ps).arena.pages[j].class == h.arena->0.pages[j].class);
        }
        assert forall|m: int, p: int, x: int|
            #![trigger h.stacked(m, p), c1.arena.mem.byte(x)]
            h.stacked(m, p) && m != k && p <= x < p + 8 implies c1.arena.mem.byte(x) == c0.arena.mem.byte(
            x,
        ) by {
            steps::lemma_stacked(h, m, p);
            crate::slab::laws::lemma_used(c0.arena@, p);
            assert forall|i: int| 0 <= i < ps.len() implies !(#[trigger] ps[i] <= x < ps[i] + 2) by {
                assert(h.stacked(k, ps[i]));
                steps::lemma_stacked(h, k, ps[i]);
                crate::slab::laws::lemma_used(c0.arena@, ps[i]);
                crate::slab::laws::used_slots_are_disjoint(c0.arena@, p, ps[i]);
            }
        }
        lemma_slab_done(*heap, *old(heap), k);
        assert forall|x: int| h.owns(x) implies #[trigger] heap.byte(x) == old(heap).byte(x) by {
            laws::lemma_owned(h, x);
            if h.in_arena(x) {
                assert forall|i: int| 0 <= i < ps.len() implies !(#[trigger] ps[i] <= x < ps[i] + 2) by {
                    crate::slab::laws::lemma_used(c0.arena@, ps[i]);
                    assert(h.block(ps[i]) is None);
                }
            }
        }
    }
}

/// A slot of a class from cache `id`, whose stack is empty; 0 if there is no
/// page.
fn take_slot(heap: &mut Heap, id: u16, class: u8) -> (r: usize)
    requires
        old(heap).wf(),
        old(heap)@.arena is Some,
        id < MAX_THREADS,
        class < NUM_SIZE_CLASSES,
        old(heap)@.slabs[id as int] is Some,
        old(heap)@.slabs[id as int]->0.pending.len() == 0,
    ensures
        final(heap).wf(),
        match old(heap)@.slab(id as int).stocked(class as int, id as int) {
            Some(sk) => r == sk.next_slot(class as int) && r != 0 && final(heap)@ == old(heap)@.with_slab(
                id as int,
                sk.served(class as int),
            ),
            None => r == 0 && final(heap)@ == old(heap)@,
        },
        final(heap).continues(*old(heap)),
        final(heap).keeps_bytes(*old(heap)),
{
    let ghost h = heap@;
    let ghost k = id as int;
    let mut r: usize = 0;
    match &mut heap.central {
        Some(c) => {
            match &mut heap.registry.caches[id as usize] {
                Some(tc) => {
                    proof {
                        assert(old(heap).registry.caches@[k]->0.wf(old(heap).central->0.arena));
                    }
                    if tc.slab.alloc_needs_page(&c.arena, class) {
                        r = tc.slab.allocate(class, &mut c.arena, tc.id);
                    } else {
                        r = tc.slab.alloc_no_arena(&mut c.arena, class);
                    }
                },
                None => {},
            }
        },
        None => {},
    }
    proof {
        let c0 = old(heap).central->0;
        let c1 = heap.central->0;
        let a0 = c0.arena;
        let a1 = c1.arena;
        let st = h.slab(k);
        let t0 = old(heap).registry.caches@[k]->0;
        let t1 = heap.registry.caches@[k]->0;
        assert(st == (SlabState { arena: a0@, lists: t0.slab@ }));
        assert(h.slab_ok(k));
        match st.stocked(class as int, k) {
            Some(sk) => {
                steps::lemma_served(h, k, class as int);
                let n = h.with_slab(k, sk.served(class as int));
                assert(heap@.slabs =~= n.slabs);
                assert(heap@.huge =~= h.huge);
                assert(heap@ == n);
                assert forall|j: int| #![trigger a1.pages@[j]] 0 <= j < h.arena->0.next implies a1.pages@[j].size_class
                    == a0.pages@[j].size_class by {
                    assert(n.arena->0.pages[j].class == h.arena->0.pages[j].class);
                }
                assert(a1.mem.same_place(a0.mem));
                assert(t1.pending@.len() == 0);
                assert(t1.wf(a1));
                assert forall|x: int| a0@.base <= x < a0@.page(a0@.next) implies #[trigger] a1.mem.byte(x)
                    == a0.mem.byte(x) by {};
                assert forall|m: int, p: int, x: int|
                    #![trigger h.stacked(m, p), a1.mem.byte(x)]
                    h.stacked(m, p) && m != k && p <= x < p + 8 implies a1.mem.byte(x) == a0.mem.byte(x) by {
                    steps::lemma_stacked(h, m, p);
                    crate::slab::laws::lemma_used(a0@, p);
                }
                lemma_slab_done(*heap, *old(heap), k);
                assert forall|x: int| h.owns(x) implies #[trigger] heap.byte(x) == old(heap).byte(x) by {
                    laws::lemma_owned(h, x);
                }
            },
            None => {
                assert(heap.registry.caches@ =~= old(heap).registry.caches@);
                assert(heap@.slabs =~= h.slabs);
                assert(heap@.huge =~= h.huge);
                assert(heap@ == h);
                assert(c1 == c0);
                lemma_slab_done(*heap, *old(heap), k);
            },
        }
    }
    r
}

/// A slot of a class from cache `id`; 0 if there is no page.
fn small_alloc(heap: &mut Heap, id: u16, class: u8) -> (r: usize)
    requires
        old(heap).wf(),
        old(heap)@.arena is Some,
        id < MAX_THREADS,
        class < NUM_SIZE_CLASSES,
        old(heap)@.slabs[id as int] is Some,
    ensures
        final(heap).wf(),
        old(heap)@.small(id as int, class as int) == (final(heap)@, r as int),
        final(heap).continues(*old(heap)),
        final(heap).keeps_bytes(*old(heap)),
{
    let ghost h = heap@;
    let ghost k = id as int;
    let has_remote: bool = match &heap.registry.caches[id as usize] {
        Some(tc) => tc.remote_frees != 0,
        None => false,
    };
    if has_remote {
        drain_cache(heap, id);
    } else {
        proof {
            let tc = heap.registry.caches@[k]->0;
            assert(heap.registry.caches@[k] is Some);
            assert(tc.pending@.len() == 0) by {
                if tc.pending@.len() > 0 {
                    assert(ThreadCache::node_ok(heap.central->0.arena, tc.pending@, 0));
                }
            }
            assert(tc.pending@ =~= Seq::<int>::empty());
            assert(h.drained(k).slabs =~= h.slabs);
            assert(h.drained(k) == h);
        }
    }
    proof {
        steps::lemma_drained(h, k);
    }
    let ghost h1 = *heap;
    let r: usize = take_slot(heap, id, class);
    proof {
        assert forall|x: int| h.owns(x) implies #[trigger] heap.byte(x) == old(heap).byte(x) by {
            lemma_same_owner(h, h1@, x);
            assert(heap.byte(x) == h1.byte(x));
        }
    }
    r
}

/// Heaps with the same blocks have the same bytes in the client's hands.
proof fn lemma_same_owner(h: HeapState, n: HeapState, x: int)
    requires
        h.owns(x),
        forall|p: int| #[trigger] n.block(p) == h.block(p),
    ensures
        n.owns(x),
{
    let p = choose|p: int| #[trigger] h.block(p) is Some && p <= x < p + h.block(p)->0;
    assert(n.block(p) == h.block(p));
}

/// A heap is in good order after a step that left pages and slab allocators
/// alone and wrote within the pool only.
proof fn lemma_pool_done(new: Heap, old: Heap)
    requires
        old.wf(),
        new@.wf(),
        old.central is Some,
        new.central is Some,
        new.huge == old.huge,
        new.registry == old.registry,
        new.central->0.slab == old.central->0.slab,
        new.central->0.arena.mem.wf(),
        new.central->0.arena.mem.same_place(old.central->0.arena.mem),
        new.central->0.arena.meta.total_size == old.central->0.arena.meta.total_size,
        new.central->0.arena.meta.next_free_page >= old.central->0.arena.meta.next_free_page,
        new.central->0.arena.meta.next_free_page <= PAGES_PER_ARENA,
        new.central->0.arena.meta.alloc_count <= new.central->0.arena.meta.next_free_page - META_PAGES,
        new.central->0.arena.pages@.len() == PAGES_PER_ARENA,
        new.central->0.arena.free@.len() == PAGES_PER_ARENA,
        forall|j: int|
            #![trigger new.central->0.arena.pages@[j]]
            0 <= j < PAGES_PER_ARENA ==> if j < old@.arena->0.next {
                &&& new.central->0.arena.pages@[j] == old.central->0.arena.pages@[j]
                &&& new.central->0.arena.free@[j] == old.central->0.arena.free@[j]
            } else {
                &&& new.central->0.arena.pages@[j].size_class == NO_CLASS
                &&& new.central->0.arena.free@[j].len() == 0
            },
        new.central->0.tlsf.wf(new.central->0.arena.mem),
        new.central->0.runs.wf(),
        forall|x: int|
            #![trigger new.central->0.arena.mem.byte(x)]
            old@.in_arena(x) && !old@.in_pool(x) ==> new.central->0.arena.mem.byte(x)
                == old.central->0.arena.mem.byte(x),
    ensures
        new.wf(),
        new.continues(old),
{
    let a0 = old.central->0.arena;
    let a1 = new.central->0.arena;
    let h = old@;
    assert forall|j: int| 0 <= j < PAGES_PER_ARENA implies #[trigger] a1.page_ok(j) by {
        assert(a0.page_ok(j));
        assert(h.page_ok(j));
        assert(j < h.arena->0.next ==> a1.pages@[j] == a0.pages@[j]);
        assert(j < h.arena->0.next ==> a1.free@[j] == a0.free@[j]);
        if j < h.arena->0.next {
            let c = a0.pages@[j].size_class as int;
            if c != NO_CLASS {
                crate::size_class::lemma_sizes(c);
                crate::size_class::lemma_slots(c);
                let z = SizeClass::size(c);
                let f = a0.free@[j];
                assert forall|k: int, x: int|
                    #![trigger f[k], a1.mem.byte(x)]
                    0 <= k < f.len() && crate::arena::Chain::slot(a0@.page(j), z, f[k]) <= x
                        < crate::arena::Chain::slot(a0@.page(j), z, f[k]) + 2 implies a1.mem.byte(x)
                    == a0.mem.byte(x) by {
                    crate::arena::lemma_slot_in_page(a0@.page(j), z, SizeClass::slots(c, 4096), f[k]);
                    assert(h.in_arena(x) && !h.in_pool(x));
                }
            }
            a1.lemma_page_kept(a0, j);
        }
    }
    assert(a1.wf());
    assert forall|m: int|
        #![trigger new.registry.caches@[m]]
        0 <= m < MAX_THREADS && new.registry.caches@[m] is Some implies new.registry.caches@[m]->0.wf(a1) by {
        let c = old.registry.caches@[m]->0;
        assert(old.registry.caches@[m] is Some);
        assert(h.slabs[m] == Some(c@));
        assert(new@.slabs[m] == Some(c@));
        assert forall|j: int|
            #![trigger a1.pages@[j]]
            0 <= j < PAGES_PER_ARENA && SlabAllocator::listed(c@.lists, j) implies a1.pages@[j] == a0.pages@[j]
            && a1.free@[j] == a0.free@[j] by {
            c.slab.listed_page(a0, j);
        }
        assert forall|p: int| #[trigger] c@.pending.contains(p) && a0@.used(p) implies a1@.used(p) by {
            assert(new@.slab_ok(m));
            let i = c@.pending.index_of(p);
            assert(new@.slabs[m]->0.pending[i] == p);
        }
        assert forall|p: int, x: int|
            #![trigger c@.pending.contains(p), a1.mem.byte(x)]
            c@.pending.contains(p) && p <= x < p + 8 implies a1.mem.byte(x) == a0.mem.byte(x) by {
            assert(h.stacked(m, p));
            steps::lemma_stacked(h, m, p);
            crate::slab::laws::lemma_used(a0@, p);
            assert(h.page_ok(a0@.page_of(p)));
            assert(h.in_arena(x) && !h.in_pool(x));
        }
        c.lemma_kept(a1, a0);
    }
    let g = old.central->0.slab;
    assert forall|j: int|
        #![trigger a1.pages@[j]]
        0 <= j < PAGES_PER_ARENA && SlabAllocator::listed(g@, j) implies a1.pages@[j] == a0.pages@[j]
        && a1.free@[j] == a0.free@[j] by {
        g.listed_page(a0, j);
    }
    g.lemma_kept_at(a1, a0);
    assert(new@.slabs =~= h.slabs);
}

/// A block from the pool, or else whole pages of the arena; 0 if neither has
/// room.
fn large_alloc(heap: &mut Heap, size: usize) -> (r: usize)
    requires
        old(heap).wf(),
        old(heap)@.arena is Some,
        0 < size < HUGE_ALLOC_THRESHOLD,
    ensures
        final(heap).wf(),
        old(heap)@.large(size as int) == (final(heap)@, r as int),
        final(heap).continues(*old(heap)),
        final(heap).keeps_bytes(*old(heap)),
{
    let ghost h = heap@;
    match &mut heap.central {
        Some(c) => {
            let ghost a0 = c.arena;
            let p: usize = c.tlsf.allocate(&mut c.arena.mem, size);
            if p != 0 {
                proof {
                    let n = HeapState { tlsf: h.tlsf.allocated(size as int), ..h };
                    assert(h.tlsf.fit(size as int) is Some);
                    steps::lemma_pool_alloc(h, size as int);
                    assert(heap@.slabs =~= h.slabs);
                    assert(heap@.huge =~= h.huge);
                    let a1 = heap.central->0.arena;
                    assert(a1@.pages =~= a0@.pages);
                    assert(heap@ == n);
                    assert forall|j: int|
                        #![trigger a1.pages@[j]]
                        0 <= j < PAGES_PER_ARENA && j >= h.arena->0.next implies a1.pages@[j].size_class
                        == NO_CLASS && a1.free@[j].len() == 0 by {
                        assert(h.page_ok(j));
                        assert(a0.page_ok(j));
                    }
                    assert forall|x: int|
                        #![trigger a1.mem.byte(x)]
                        h.in_arena(x) && !h.in_pool(x) implies a1.mem.byte(x) == a0.mem.byte(x) by {
                        lemma_outside_pool(h, x);
                    }
                    lemma_pool_done(*heap, *old(heap));
                    assert forall|x: int| h.owns(x) implies #[trigger] heap.byte(x) == old(heap).byte(x) by {
                        laws::lemma_owned(h, x);
                    }
                }
                return p;
            }
            proof {
                if let Some(b) = h.tlsf.fit(size as int) {
                    crate::tlsf::laws::fit_is_large_enough(h.tlsf, size as int);
                    assert(h.tlsf.has(b));
                }
            }
        },
        None => {
            return 0;
        },
    }
    proof {
        assert(heap.central->0 == old(heap).central->0);
        assert(heap@ == h);
    }
    page_alloc(heap, size)
}

/// A run of whole pages: a spare one, or else new pages; 0 if there is no room.
fn page_alloc(heap: &mut Heap, size: usize) -> (r: usize)
    requires
        old(heap).wf(),
        old(heap)@.arena is Some,
        0 < size < HUGE_ALLOC_THRESHOLD,
    ensures
        final(heap).wf(),
        old(heap)@.whole_pages((size + 4095) / 4096) == (final(heap)@, r as int),
        final(heap).continues(*old(heap)),
        final(heap).keeps_bytes(*old(heap)),
{
    let ghost h = heap@;
    let len: usize = (size + 4095) / 4096 * 4096;
    let ghost m = (size + 4095) / 4096;
    match &mut heap.central {
        Some(c) => {
            let ghost a0 = c.arena;
            if let Some(q) = c.runs.take(len) {
                proof {
                    let i = h.runs.fit(len as int)->0;
                    runs::lemma_fit(h.runs, 0, len as int);
                    steps::lemma_run_taken(h, i);
                    let n = HeapState { runs: h.runs.taken(i), ..h };
                    assert(heap@.slabs =~= h.slabs);
                    assert(heap@.huge =~= h.huge);
                    assert(heap@ == n);
                }
                return q;
            }
            let q: usize = c.arena.allocate(size, MAX_ALIGN);
            if q != 0 {
                proof {
                    steps::lemma_run_added(h, size as int);
                }
                c.runs.grow(q, len);
                proof {
                    let n = HeapState {
                        arena: Some(h.arena->0.pages_taken(m as int)),
                        runs: h.runs.grown(q as int, m * 4096),
                        ..h
                    };
                    assert(heap@.slabs =~= h.slabs);
                    assert(heap@.huge =~= h.huge);
                    assert(heap@ == n);
                    let a1 = heap.central->0.arena;
                    assert forall|j: int|
                        #![trigger a1.pages@[j]]
                        0 <= j < PAGES_PER_ARENA implies if j < h.arena->0.next {
                        &&& a1.pages@[j] == a0.pages@[j]
                        &&& a1.free@[j] == a0.free@[j]
                    } else {
                        &&& a1.pages@[j].size_class == NO_CLASS
                        &&& a1.free@[j].len() == 0
                    } by {
                        assert(n.arena->0.pages[j] == a1@.pages[j]);
                        assert(h.page_ok(j));
                        assert(a0.page_ok(j));
                        assert(a0@.pages[j].free == a0.free@[j]);
                    }
                    lemma_pool_done(*heap, *old(heap));
                    assert forall|x: int| h.owns(x) implies #[trigger] heap.byte(x) == old(heap).byte(x) by {
                        laws::lemma_owned(h, x);
                    }
                }
            } else {
                proof {
                    assert(heap.central->0 == old(heap).central->0);
                    assert(heap@ == h);
                }
            }
            q
        },
        None => 0,
    }
}

/// Outside the pool all bytes are the client's to the pool.
proof fn lemma_outside_pool(h: HeapState, x: int)
    requires
        h.wf(),
        h.arena is Some,
        !h.in_pool(x),
    ensures
        h.tlsf.client(x),
{
    if h.tlsf.covers(x) {
        let b = choose|b: int| #[trigger] h.tlsf.has(b) && b <= x < h.tlsf.next(b);
        assert(h.tlsf.has(b));
    }
}

impl Heap {
    /// The bytes that the client still holds are as they were.
    pub open spec fn keeps_rest(self, old: Heap) -> bool {
        forall|x: int| self@.owns(x) ==> #[trigger] self.byte(x) == old.byte(x)
    }
}

/// What the client still holds after it gave the block at `p` back, it held
/// before, and it is no part of that block.
proof fn lemma_rest(h: HeapState, n: HeapState, p: int, x: int)
    requires
        h.wf(),
        n.owns(x),
        h.block(p) is Some,
        n.block(p) is None,
        forall|q: int| q != p ==> #[trigger] n.block(q) == h.block(q),
    ensures
        h.owns(x),
        !(p <= x < p + h.block(p)->0),
{
    let q = choose|q: int| #[trigger] n.block(q) is Some && q <= x < q + n.block(q)->0;
    assert(h.block(q) == n.block(q));
    if q < p {
        laws::blocks_are_disjoint(h, q, p);
    } else {
        laws::blocks_are_disjoint(h, p, q);
    }
}

/// The facts about a slot that is given back through slab allocator `k`.
proof fn lemma_slot_freed(new: Heap, old: Heap, k: int, p: int)
    requires
        old.wf(),
        old.central is Some,
        new.central is Some,
        old@.in_arena(p),
        old@.class_at(p) != 0xFF,
        old@.block(p) is Some,
        0 <= k <= MAX_THREADS,
        old@.slabs[k] is Some,
        k < MAX_THREADS ==> old@.arena->0.pages[old@.arena->0.page_of(p)].owner == k,
        new@ == old@.with_slab(k, old@.slab(k).returned(p)),
        new.central->0.tlsf == old.central->0.tlsf,
        new.central->0.runs == old.central->0.runs,
        new.huge == old.huge,
        new.registry.tls_key == old.registry.tls_key,
        new.registry.shape(),
        new.central->0.arena.wf(),
        new.central->0.arena.mem.same_outside(old.central->0.arena.mem, p, p + 2),
        forall|m: int|
            0 <= m < MAX_THREADS && m != k ==> #[trigger] new.registry.caches@[m]
                == old.registry.caches@[m],
        k != MAX_THREADS ==> new.central->0.slab == old.central->0.slab,
        k != MAX_THREADS ==> {
            &&& new.registry.caches@[k] is Some
            &&& new.registry.caches@[k]->0.slab.wf(new.central->0.arena)
            &&& new.registry.caches@[k]->0.remote_frees == old.registry.caches@[k]->0.remote_frees
            &&& new.registry.caches@[k]->0.page == old.registry.caches@[k]->0.page
        },
        k == MAX_THREADS ==> new.central->0.slab.wf(new.central->0.arena),
        SlabAllocator::other_links_kept(
            new.central->0.arena,
            old.central->0.arena,
            new@.slabs[k]->0.lists,
            old@.slabs[k]->0.lists,
        ),
    ensures
        new.wf(),
        new.continues(old),
        new.keeps_rest(old),
{
    let h = old@;
    let a0 = old.central->0.arena;
    let a1 = new.central->0.arena;
    steps::lemma_returned(h, k, p);
    laws::lemma_block_place(h, p);
    crate::slab::laws::lemma_used(a0@, p);
    assert forall|j: int| #![trigger a1.pages@[j]] 0 <= j < h.arena->0.next implies a1.pages@[j].size_class
        == a0.pages@[j].size_class by {
        assert(new@.arena->0.pages[j].class == h.arena->0.pages[j].class);
    }
    assert forall|m: int, q: int, x: int|
        #![trigger h.stacked(m, q), a1.mem.byte(x)]
        h.stacked(m, q) && q <= x < q + 8 implies a1.mem.byte(x) == a0.mem.byte(x) by {
        steps::lemma_stacked(h, m, q);
        crate::slab::laws::lemma_used(a0@, q);
        assert(h.pending(q));
        crate::slab::laws::used_slots_are_disjoint(a0@, p, q);
    }
    if k != MAX_THREADS {
        let c0 = old.registry.caches@[k]->0;
        let c1 = new.registry.caches@[k]->0;
        let ps = c0.pending@;
        assert(old.registry.caches@[k] is Some);
        assert(h.slabs[k]->0.pending == ps && new@.slabs[k]->0.pending == c1.pending@);
        assert(c1.pending@ == ps);
        assert forall|i: int| 0 <= i < ps.len() implies #[trigger] ThreadCache::node_ok(a1, ps, i) by {
            assert(ThreadCache::node_ok(a0, ps, i));
            assert(new@.slab_ok(k));
            assert(new@.slabs[k]->0.pending[i] == ps[i]);
            assert(ps.contains(ps[i]));
            assert(h.stacked(k, ps[i]));
            crate::slab::laws::lemma_used(a0@, ps[i]);
            crate::memory::lemma_word_same(a1.mem, a0.mem, ps[i]);
        }
        assert(c1.wf(a1));
    }
    lemma_slab_done(new, old, k);
    assert forall|x: int| new@.owns(x) implies #[trigger] new.byte(x) == old.byte(x) by {
        lemma_rest(h, new@, p, x);
    }
}

/// Gives a slot of a page of cache `id` back to its page.
fn free_own(heap: &mut Heap, id: u16, ptr: usize)
    requires
        old(heap).wf(),
        old(heap)@.arena is Some,
        id < MAX_THREADS,
        old(heap)@.slabs[id as int] is Some,
        old(heap)@.in_arena(ptr as int),
        old(heap)@.class_at(ptr as int) != 0xFF,
        old(heap)@.block(ptr as int) is Some,
        old(heap)@.arena->0.pages[old(heap)@.arena->0.page_of(ptr as int)].owner == id,
    ensures
        final(heap).wf(),
        final(heap)@ == old(heap)@.with_slab(id as int, old(heap)@.slab(id as int).returned(ptr as int)),
        final(heap).continues(*old(heap)),
        final(heap).keeps_rest(*old(heap)),
{
    let ghost h = heap@;
    let ghost k = id as int;
    proof {
        laws::lemma_block_place(h, ptr as int);
    }
    match &mut heap.central {
        Some(c) => {
            match &mut heap.registry.caches[id as usize] {
                Some(tc) => {
                    proof {
                        assert(old(heap).registry.caches@[k]->0.wf(old(heap).central->0.arena));
                    }
                    let page_idx: usize = c.arena.ptr_to_page_index(ptr);
                    let meta: usize = c.arena.meta_ptr(page_idx);
                    tc.slab.free_no_arena(&mut c.arena, ptr, page_idx, meta);
                },
                None => {},
            }
        },
        None => {},
    }
    proof {
        assert(old(heap).registry.caches@[k] is Some);
        assert(h.slab(k) == (SlabState {
            arena: old(heap).central->0.arena@,
            lists: old(heap).registry.caches@[k]->0.slab@,
        }));
        let n = h.with_slab(k, h.slab(k).returned(ptr as int));
        assert(heap@.slabs =~= n.slabs);
        assert(heap@.huge =~= h.huge);
        assert(heap@ == n);
        lemma_slot_freed(*heap, *old(heap), k, ptr as int);
    }
}

/// Gives a slot of a page that belongs to no cache back to its page.
fn free_shared(heap: &mut Heap, ptr: usize)
    requires
        old(heap).wf(),
        old(heap)@.arena is Some,
        old(heap)@.in_arena(ptr as int),
        old(heap)@.class_at(ptr as int) != 0xFF,
        old(heap)@.block(ptr as int) is Some,
    ensures
        final(heap).wf(),
        final(heap)@ == old(heap)@.with_slab(
            MAX_THREADS as int,
            old(heap)@.slab(MAX_THREADS as int).returned(ptr as int),
        ),
        final(heap).continues(*old(heap)),
        final(heap).keeps_rest(*old(heap)),
{
    let ghost h = heap@;
    let ghost k = MAX_THREADS as int;
    proof {
        laws::lemma_block_place(h, ptr as int);
    }
    match &mut heap.central {
        Some(c) => {
            c.slab.free(ptr, &mut c.arena);
        },
        None => {},
    }
    proof {
        assert(h.slab(k) == (SlabState {
            arena: old(heap).central->0.arena@,
            lists: old(heap).central->0.slab@,
        }));
        let n = h.with_slab(k, h.slab(k).returned(ptr as int));
        assert(heap@.slabs =~= n.slabs);
        assert(heap@.huge =~= h.huge);
        assert(heap@ == n);
        lemma_slot_freed(*heap, *old(heap), k, ptr as int);
    }
}

/// Pushes a slot onto the stack of the cache that its page belongs to.
fn free_remote(heap: &mut Heap, owner: u16, ptr: usize)
    requires
        old(heap).wf(),
        old(heap)@.arena is Some,
        old(heap)@.in_arena(ptr as int),
        old(heap)@.class_at(ptr as int) != 0xFF,
        old(heap)@.block(ptr as int) is Some,
        owner == old(heap)@.arena->0.pages[old(heap)@.arena->0.page_of(ptr as int)].owner,
    ensures
        final(heap).wf(),
        final(heap)@ == old(heap)@.with_pending(
            owner as int,
            seq![ptr as int] + old(heap)@.slabs[owner as int]->0.pending,
        ),
        final(heap).continues(*old(heap)),
        final(heap).keeps_rest(*old(heap)),
{
    let ghost h = heap@;
    let ghost p = ptr as int;
    let ghost k = owner as int;
    proof {
        laws::lemma_block_place(h, p);
        steps::lemma_pushed(h, p);
        assert forall|m: int|
            #![trigger heap.registry.caches@[m]]
            0 <= m < MAX_THREADS && heap.registry.caches@[m] is Some implies !heap.registry.caches@[m]->0.pending@.contains(
        p) by {
            assert(h.slabs[m] == Some(heap.registry.caches@[m]->0@));
            if heap.registry.caches@[m]->0.pending@.contains(p) {
                assert(h.stacked(m, p));
                assert(h.pending(p));
            }
        }
        assert(heap.registry@[k] is Some) by {
            assert(h.slabs[k] is Some);
        }
    }
    match &mut heap.central {
        Some(c) => {
            remote_free_push(&mut heap.registry, &mut c.arena, owner, ptr);
        },
        None => {},
    }
    proof {
        let n = h.with_pending(k, seq![p] + h.slabs[k]->0.pending);
        assert(heap.registry@[k]->0 == n.slabs[k]->0);
        assert(heap@.slabs =~= n.slabs);
        assert(heap@.huge =~= h.huge);
        assert(heap@ == n);
        let a0 = old(heap).central->0.arena;
        let a1 = heap.central->0.arena;
        let g = old(heap).central->0.slab;
        g.lemma_kept_at(a1, a0);
        let t = old(heap).central->0.tlsf;
        assert forall|x: int|
            #![trigger a1.mem.byte(x)]
            a1.mem.has(x, 1) && !t@.client(x) implies a1.mem.byte(x) == a0.mem.byte(x) by {
            let b = choose|b: int| #[trigger] t@.has(b) && b <= x < t@.next(b);
            assert(t@.has(b));
        }
        t.client_writes_keep_order(a1.mem, a0.mem);
        assert forall|tls: ThreadLocals| #[trigger] old(heap).knows(tls) implies heap.knows(tls)
            && heap.handle(tls) == old(heap).handle(tls) by {
            let e = old(heap).handle(tls);
            if e != 0 && e - 1 != k {
                assert(n.slabs[e - 1] == h.slabs[e - 1]);
            }
        }
        assert forall|x: int| heap@.owns(x) implies #[trigger] heap.byte(x) == old(heap).byte(x) by {
            lemma_rest(h, heap@, p, x);
        }
    }
}

/// Gives a block back to the pool.
fn free_pool(heap: &mut Heap, ptr: usize)
    requires
        old(heap).wf(),
        old(heap)@.arena is Some,
        old(heap)@.in_pool(ptr as int),
        old(heap)@.block(ptr as int) is Some,
    ensures
        final(heap).wf(),
        final(heap)@ == (HeapState { tlsf: old(heap)@.tlsf.freed(ptr as int), ..old(heap)@ }),
        final(heap).continues(*old(heap)),
        final(heap).keeps_rest(*old(heap)),
{
    let ghost h = heap@;
    let ghost p = ptr as int;
    proof {
        steps::lemma_pool_page(h, p);
        laws::lemma_block_place(h, p);
        steps::lemma_pool_free(h, p);
    }
    match &mut heap.central {
        Some(c) => {
            c.tlsf.free(&mut c.arena.mem, ptr);
        },
        None => {},
    }
    proof {
        let n = HeapState { tlsf: h.tlsf.freed(p), ..h };
        let a0 = old(heap).central->0.arena;
        let a1 = heap.central->0.arena;
        assert(a1@.pages =~= a0@.pages);
        assert(heap@.slabs =~= h.slabs);
        assert(heap@.huge =~= h.huge);
        assert(heap@ == n);
        assert forall|j: int|
            #![trigger a1.pages@[j]]
            0 <= j < PAGES_PER_ARENA && j >= h.arena->0.next implies a1.pages@[j].size_class == NO_CLASS
            && a1.free@[j].len() == 0 by {
            assert(h.page_ok(j));
            assert(a0.page_ok(j));
        }
        assert forall|x: int|
            #![trigger a1.mem.byte(x)]
            h.in_arena(x) && !h.in_pool(x) implies a1.mem.byte(x) == a0.mem.byte(x) by {
            lemma_outside_pool(h, x);
        }
        lemma_pool_done(*heap, *old(heap));
        assert forall|x: int| heap@.owns(x) implies #[trigger] heap.byte(x) == old(heap).byte(x) by {
            lemma_rest(h, heap@, p, x);
            laws::lemma_owned(h, x);
        }
    }
}

/// The identifier of the calling thread's cache, if it has one or can be given
/// one.
fn current_cache(heap: &mut Heap, tls: &mut ThreadLocals, reply: Option<Region>) -> (r: Option<u16>)
    requires
        old(heap).wf(),
        old(heap).knows(*old(tls)),
    ensures
        final(heap).wf(),
        final(heap).knows(*final(tls)),
        ({
            let j = old(heap)@.joined(
                old(heap).handle(*old(tls)),
                is_mapping(reply, PAGE_SIZE as int),
            );
            &&& final(heap)@ == j.heap
            &&& final(heap).handle(*final(tls)) == j.handle
            &&& match r {
                Some(id) => j.ptr == id + 1 && id < MAX_THREADS,
                None => j.ptr == 0,
            }
        }),
        final(heap).continues(*old(heap)),
        final(heap).new_cache_on(
            final(heap).handle(*final(tls)),
            *old(heap),
            old(heap).handle(*old(tls)),
            reply,
        ),
        final(heap).keeps_bytes(*old(heap)),
{
    let ghost h = heap@;
    let ghost e = heap.handle(*tls);
    let ghost page = is_mapping(reply, PAGE_SIZE as int);
    proof {
        assert(heap.registry.knows(*tls)) by {
            if heap.central is Some && e != 0 {
                assert(h.slabs[e - 1] is Some);
            }
        }
    }
    let r = ThreadCache::get_or_create(&mut heap.registry, tls, reply);
    proof {
        let j = h.joined(e, page);
        steps::lemma_joined(h, e, page);
        assert(heap@.huge =~= h.huge);
        assert(heap@.slabs =~= j.heap.slabs);
        assert(heap@ == j.heap);
        assert(old(heap).central is Some ==> old(heap).registry.wf(old(heap).central->0.arena));
        assert forall|t: ThreadLocals| #[trigger] old(heap).knows(t) implies heap.knows(t) && heap.handle(t)
            == old(heap).handle(t) by {
            let f = old(heap).handle(t);
            if f != 0 {
                assert(h.slabs[f - 1] is Some);
                assert(j.heap.slabs[f - 1] is Some);
            }
        }
    }
    r
}

/// A block with a mapping of its own; 0 if it cannot be mapped.
fn huge_block(heap: &mut Heap, size: usize, reply: Option<Region>) -> (r: usize)
    requires
        old(heap).wf(),
        old(heap).offered(OsReplies { arena: None, page: None, huge: reply }),
    ensures
        final(heap).wf(),
        old(heap)@.huge_alloc(
            size as int,
            (OsReplies { arena: None, page: None, huge: reply }).grants(size as int).huge,
        ) == (final(heap)@, r as int),
        final(heap).continues(*old(heap)),
        final(heap).keeps_bytes(*old(heap)),
        r != 0 ==> {
            let len = HugeBlocks::total(size as int) - 4096;
            &&& size <= len
            &&& r % 4096 == 0
            &&& len > 0 ==> old(heap)@.block(r as int) is None && final(heap)@.block(r as int) == Some(len)
            &&& forall|p: int| p != r ==> #[trigger] final(heap)@.block(p) == old(heap)@.block(p)
        },
{
    let ghost h = heap@;
    let ghost total = HugeBlocks::total(size as int);
    proof {
        assert forall|p: usize| reply is Some && #[trigger] heap.huge@.dom().contains(p) implies reply->0.apart(
            heap.huge@[p],
        ) by {
            assert(h.huge.dom().contains(p as int));
            assert(HugeBlocks::block_ok(p, heap.huge@[p]));
        }
    }
    let r: usize = huge_alloc(&mut heap.huge, size, reply);
    proof {
        if r != 0 {
            let base = reply->0.base as int;
            assert(h.clear_of_huge(base, base + total));
            steps::lemma_huge_gained(h, base, total - 4096);
            let n = HeapState { huge: h.huge.insert(r as int, total - 4096), ..h };
            assert(heap.huge@.dom().contains(r));
            assert(HugeBlocks::block_ok(r, heap.huge@[r]));
            assert(heap@.huge =~= n.huge) by {
                assert forall|p: int| #[trigger] heap@.huge.dom().contains(p) <==> n.huge.dom().contains(p) by {};
                assert forall|p: int| n.huge.dom().contains(p) implies #[trigger] heap@.huge[p] == n.huge[p] by {
                    if p != r {
                        assert(heap.huge@[p as usize] == old(heap).huge@[p as usize]);
                    }
                }
            }
            assert(heap@ == n);
            assert forall|x: int| h.owns(x) implies #[trigger] heap.byte(x) == old(heap).byte(x) by {
                lemma_huge_byte(*heap, *old(heap), x);
            }
        } else {
            assert(heap@ == h);
        }
    }
    r
}

/// The bytes of a huge block that is held before and after, with the same
/// mapping.
proof fn lemma_huge_byte(new: Heap, old: Heap, x: int)
    requires
        old.wf(),
        new.wf(),
        new.central == old.central,
        old@.owns(x),
        forall|p: usize| #[trigger]
            old.huge@.dom().contains(p) && old.huge@[p].has(x, 1) ==> new.huge@.dom().contains(p)
                && new.huge@[p] == old.huge@[p],
    ensures
        new.byte(x) == old.byte(x),
{
    let h = old@;
    if !h.in_arena(x) {
        let b = choose|b: int| #[trigger] h.block(b) is Some && b <= x < b + h.block(b)->0;
        laws::lemma_block_place(h, b);
        assert(!h.in_arena(b)) by {
            if h.in_arena(b) {
                laws::lemma_owned(h, x);
                if h.class_at(b) == 0xFF && !h.in_pool(b) {
                    assert(h.run_ok(b));
                }
            }
        }
        let q = b as usize;
        assert(old.huge@.dom().contains(q));
        assert(HugeBlocks::block_ok(q, old.huge@[q]));
        assert(old.huge@[q].has(x, 1));
        let p0 = choose|p: usize| #[trigger] old.huge@.dom().contains(p) && old.huge@[p].has(x, 1);
        let p1 = choose|p: usize| #[trigger] new.huge@.dom().contains(p) && new.huge@[p].has(x, 1);
        assert(new.huge@.dom().contains(q) && new.huge@[q].has(x, 1));
        if p0 != q {
            assert(old.huge@[p0].apart(old.huge@[q]));
        }
        if p1 != q {
            assert(new.huge@[p1].apart(new.huge@[q]));
        }
    }
}

/// Mappings that are offered and granted are new in terms of the state.
proof fn lemma_grants_new(heap: Heap, os: OsReplies, size: int)
    requires
        heap.wf(),
        heap.offered(os),
        size >= 0,
    ensures
        laws::grants_are_new(heap@, size, os.grants(size)),
{
    if is_mapping(os.arena, DEFAULT_ARENA_SIZE as int) {
        assert(heap.offered(OsReplies { arena: os.arena, page: None, huge: None }));
        lemma_arena_grant(heap, os.arena);
    }
    let total = HugeBlocks::total(size);
    if is_mapping(os.huge, total) {
        let base = os.huge->0.base as int;
        assert(heap@.clear_of_huge(base, base + total));
    }
}

/// Bytes that the client holds stay in its hands when the arena is made.
proof fn lemma_inited_owner(h: HeapState, grant: Option<int>, x: int)
    requires
        h.owns(x),
        h.inited(grant).same_blocks_but(h, 0),
        h.wf(),
    ensures
        h.inited(grant).owns(x),
{
    let p = choose|p: int| #[trigger] h.block(p) is Some && p <= x < p + h.block(p)->0;
    laws::lemma_block_place(h, p);
    assert(h.inited(grant).block(p) == h.block(p));
}

/// A small block from the calling thread's cache; 0 if the thread has none or
/// the cache has no page.
fn small_block(heap: &mut Heap, tls: &mut ThreadLocals, page: Option<Region>, size: usize) -> (r: usize)
    requires
        old(heap).wf(),
        old(heap).knows(*old(tls)),
        old(heap)@.arena is Some,
        0 < size <= SLAB_MAX_SIZE,
    ensures
        final(heap).wf(),
        final(heap).knows(*final(tls)),
        ({
            let j = old(heap)@.joined(old(heap).handle(*old(tls)), is_mapping(page, PAGE_SIZE as int));
            &&& final(heap).handle(*final(tls)) == j.handle
            &&& if j.ptr == 0 {
                final(heap)@ == j.heap && r == 0
            } else {
                j.heap.small(j.ptr - 1, HeapState::class_for(size as int)) == (final(heap)@, r as int)
            }
        }),
        r == 0 ==> forall|p: int| #[trigger] final(heap)@.block(p) == old(heap)@.block(p),
        final(heap).keeps_bytes(*old(heap)),
        final(heap).continues(*old(heap)),
        final(heap).new_cache_on(
            final(heap).handle(*final(tls)),
            *old(heap),
            old(heap).handle(*old(tls)),
            page,
        ),
{
    let ghost h = heap@;
    proof {
        vstd::arithmetic::power2::lemma2_to64();
        lemma_max_align_pow2();
    }
    let rounded: usize = align_up(size, MAX_ALIGN);
    assert(rounded == HeapState::rounded(size as int));
    if let Some(class) = size_to_class(rounded) {
        proof {
            laws::lemma_class_for(size as int, class as int);
            steps::lemma_joined(h, heap.handle(*tls), is_mapping(page, PAGE_SIZE as int));
        }
        let id = current_cache(heap, tls, page);
        let ghost heap1 = *heap;
        if let Some(id) = id {
            let p: usize = small_alloc(heap, id, class);
            proof {
                laws::lemma_small(heap1@, id as int, class as int);
                assert forall|x: int| h.owns(x) implies #[trigger] heap.byte(x) == old(heap).byte(x) by {
                    lemma_same_owner(h, heap1@, x);
                    assert(heap1.byte(x) == old(heap).byte(x));
                }
            }
            return p;
        }
    }
    0
}

/// Allocates `size` bytes, aligned to 16. The result is 0 if `size` is 0 and if
/// the allocation fails.
///
/// Small blocks come from the calling thread's cache. Larger ones, and small
/// ones for which there is no page or no cache, come from the pool or else from
/// whole pages. From the threshold on, blocks are mapped directly.
pub fn ferrum_malloc(heap: &mut Heap, tls: &mut ThreadLocals, os: OsReplies, size: usize) -> (r: usize)
    requires
        old(heap).wf(),
        old(heap).knows(*old(tls)),
        old(heap).offered(os),
    ensures
        final(heap).wf(),
        final(heap).knows(*final(tls)),
        ({
            let out = old(heap)@.malloc(old(heap).handle(*old(tls)), size as int, os.grants(size as int));
            &&& final(heap)@ == out.heap
            &&& final(heap).handle(*final(tls)) == out.handle
            &&& r == out.ptr
        }),
        final(heap)@.same_blocks_but(old(heap)@, r as int),
        r != 0 ==> {
            &&& r % 16 == 0
            &&& final(heap)@.block(r as int) is Some
            &&& final(heap)@.block(r as int)->0 >= size
            &&& old(heap)@.block(r as int) is None || old(heap)@.block(r as int) == Some(0int)
        },
        final(heap).keeps_bytes(*old(heap)),
        final(heap).continues(*old(heap)),
        final(heap).new_cache_on(
            final(heap).handle(*final(tls)),
            *old(heap),
            old(heap).handle(*old(tls)),
            os.page,
        ),
{
    let ghost h = heap@;
    let ghost e = heap.handle(*tls);
    let ghost g = os.grants(size as int);
    proof {
        lemma_grants_new(*heap, os, size as int);
        laws::malloc_hands_out_a_new_block(h, e, size as int, g);
        assert(heap.offered(OsReplies { arena: os.arena, page: None, huge: None }));
    }
    if size == 0 {
        return 0;
    }
    ensure_init(heap, os.arena);
    let ghost heap1 = *heap;
    proof {
        assert(heap.offered(OsReplies { arena: None, ..os }));
        assert(heap.offered(OsReplies { arena: None, page: None, huge: os.huge }));
        steps::lemma_inited(h, g.arena);
        assert(heap@ == h.inited(g.arena));
        assert(heap@.same_blocks_but(h, 0));
    }
    if size >= HUGE_ALLOC_THRESHOLD {
        let r: usize = huge_block(heap, size, os.huge);
        proof {
            assert forall|x: int| h.owns(x) implies #[trigger] heap.byte(x) == old(heap).byte(x) by {
                lemma_inited_owner(h, g.arena, x);
                assert(heap.byte(x) == heap1.byte(x));
            }
        }
        return r;
    }
    if heap.central.is_none() {
        return 0;
    }
    if size <= SLAB_MAX_SIZE {
        let p: usize = small_block(heap, tls, os.page, size);
        if p != 0 {
            proof {
                assert forall|x: int| h.owns(x) implies #[trigger] heap.byte(x) == old(heap).byte(x) by {
                    lemma_inited_owner(h, g.arena, x);
                    assert(heap.byte(x) == heap1.byte(x));
                }
            }
            return p;
        }
    }
    let ghost heap4 = *heap;
    let r: usize = large_alloc(heap, size);
    proof {
        assert forall|x: int| h.owns(x) implies #[trigger] heap.byte(x) == old(heap).byte(x) by {
            lemma_inited_owner(h, g.arena, x);
            lemma_same_owner(heap1@, heap4@, x);
            assert(heap.byte(x) == heap4.byte(x));
            assert(heap4.byte(x) == old(heap).byte(x));
        }
    }
    r
}

proof fn lemma_max_align_pow2()
    ensures
        vstd::arithmetic::power2::is_pow2(MAX_ALIGN as int),
{
    reveal_with_fuel(vstd::arithmetic::power2::is_pow2, 6);
}

/// Where an address lies.
enum Place {
    /// Outside the arena.
    Outside,
    /// In a page of slots, of a class and for an owner.
    Slots { class: u8, owner: u16 },
    /// In the pool.
    Pool,
    /// Elsewhere in the arena.
    Pages,
}

/// Looks an address up.
fn place_of(heap: &Heap, ptr: usize) -> (r: Place)
    requires
        heap.wf(),
    ensures
        match r {
            Place::Outside => !heap@.in_arena(ptr as int),
            Place::Slots { class, owner } => {
                let a = heap@.arena->0;
                &&& heap@.in_arena(ptr as int)
                &&& heap@.class_at(ptr as int) == class
                &&& class != NO_CLASS
                &&& class < NUM_SIZE_CLASSES
                &&& owner == a.pages[a.page_of(ptr as int)].owner
            },
            Place::Pool => heap@.in_arena(ptr as int) && heap@.class_at(ptr as int) == 0xFF
                && heap@.in_pool(ptr as int),
            Place::Pages => heap@.in_arena(ptr as int) && heap@.class_at(ptr as int) == 0xFF
                && !heap@.in_pool(ptr as int),
        },
{
    match &heap.central {
        Some(c) => {
            if !c.arena.contains(ptr) {
                return Place::Outside;
            }
            let page_idx: usize = c.arena.ptr_to_page_index(ptr);
            if page_idx > 0 {
                let meta = c.arena.pages[page_idx];
                if meta.size_class != NO_CLASS {
                    assert(c.arena.page_ok(page_idx as int));
                    return Place::Slots { class: meta.size_class, owner: meta.owner_id };
                }
                if c.tlsf.contains(&c.arena.mem, ptr) {
                    return Place::Pool;
                }
            }
            Place::Pages
        },
        None => Place::Outside,
    }
}

/// Takes a block of whole pages from the client. It is ignored if the client
/// does not hold it.
fn free_pages(heap: &mut Heap, ptr: usize)
    requires
        old(heap).wf(),
        old(heap)@.in_arena(ptr as int),
        old(heap)@.class_at(ptr as int) == 0xFF,
        !old(heap)@.in_pool(ptr as int),
    ensures
        final(heap).wf(),
        final(heap)@ == (HeapState { runs: old(heap)@.runs.given_back(ptr as int), ..old(heap)@ }),
        final(heap).continues(*old(heap)),
        forall|x: int| #[trigger] final(heap).byte(x) == old(heap).byte(x),
{
    let ghost h = heap@;
    match &mut heap.central {
        Some(c) => {
            c.runs.give_back(ptr);
        },
        None => {},
    }
    proof {
        steps::lemma_run_given_back(h, ptr as int);
        assert(heap@.slabs =~= h.slabs);
        assert(heap@ == (HeapState { runs: h.runs.given_back(ptr as int), ..h }));
    }
}

/// Gives a huge block back; the result is to be unmapped.
fn free_huge(heap: &mut Heap, ptr: usize) -> (r: Option<Region>)
    requires
        old(heap).wf(),
        !old(heap)@.in_arena(ptr as int),
    ensures
        final(heap).wf(),
        final(heap)@ == (HeapState { huge: old(heap)@.huge.remove(ptr as int), ..old(heap)@ }),
        final(heap).continues(*old(heap)),
        final(heap).keeps_rest(*old(heap)),
        match r {
            Some(region) => old(heap)@.huge.dom().contains(ptr as int) && region.base == ptr - PAGE_SIZE
                && region.bytes@.len() == old(heap)@.huge[ptr as int] + PAGE_SIZE,
            None => !old(heap)@.huge.dom().contains(ptr as int),
        },
{
    let ghost h = heap@;
    let r = huge_free(&mut heap.huge, ptr);
    proof {
        steps::lemma_huge_lost(h, ptr as int);
        let n = HeapState { huge: h.huge.remove(ptr as int), ..h };
        assert(heap@.huge =~= n.huge);
        assert(heap@ == n);
        if old(heap).huge@.dom().contains(ptr) {
            assert(HugeBlocks::block_ok(ptr, old(heap).huge@[ptr]));
        }
        assert forall|x: int| heap@.owns(x) implies #[trigger] heap.byte(x) == old(heap).byte(x) by {
            let q = choose|q: int| #[trigger] n.block(q) is Some && q <= x < q + n.block(q)->0;
            assert(h.block(q) == n.block(q));
            assert forall|p: usize| #[trigger]
                heap.huge@.dom().contains(p) && heap.huge@[p].has(x, 1) implies old(heap).huge@.dom().contains(
                p,
            ) && old(heap).huge@[p] == heap.huge@[p] by {};
            lemma_huge_byte(*old(heap), *heap, x);
        }
    }
    r
}

/// Gives back what `ferrum_malloc` handed out. Null, and addresses that are
/// none of the heap's, are ignored. The result, if there is one, is the mapping
/// of a huge block, which is to be unmapped.
///
/// A small block goes back to its page if the page belongs to the calling
/// thread, and onto the stack of the owner if not. Whole pages become a spare
/// run, which is handed out again.
pub fn ferrum_free(heap: &mut Heap, tls: &mut ThreadLocals, os: OsReplies, ptr: usize) -> (r: Option<
    Region,
>)
    requires
        old(heap).wf(),
        old(heap).knows(*old(tls)),
        old(heap).offered(os),
        old(heap)@.inited(os.grants(0).arena).may_free(ptr as int),
    ensures
        final(heap).wf(),
        final(heap).knows(*final(tls)),
        ({
            let out = old(heap)@.freed(old(heap).handle(*old(tls)), ptr as int, os.grants(0));
            &&& final(heap)@ == out.heap
            &&& final(heap).handle(*final(tls)) == out.handle
        }),
        unmaps(old(heap)@.inited(os.grants(0).arena), ptr as int, r),
        final(heap)@.block(ptr as int) is None,
        final(heap)@.same_blocks_but(old(heap)@, ptr as int),
        final(heap).keeps_rest(*old(heap)),
        final(heap).continues(*old(heap)),
        final(heap).new_cache_on(
            final(heap).handle(*final(tls)),
            *old(heap),
            old(heap).handle(*old(tls)),
            os.page,
        ),
{
    let ghost h = heap@;
    let ghost e = heap.handle(*tls);
    let ghost g = os.grants(0);
    proof {
        lemma_grants_new(*heap, os, 0);
        laws::free_takes_the_block_back(h, e, ptr as int, g);
        assert(heap.offered(OsReplies { arena: os.arena, page: None, huge: None }));
    }
    if ptr == 0 {
        return None;
    }
    ensure_init(heap, os.arena);
    let ghost heap1 = *heap;
    proof {
        steps::lemma_inited(h, g.arena);
        steps::lemma_joined(heap1@, e, g.page);
    }
    let id = current_cache(heap, tls, os.page);
    let ghost heap2 = *heap;
    let ghost s2 = heap@;
    proof {
        assert(s2.block(ptr as int) == heap1@.block(ptr as int));
    }
    let mut r: Option<Region> = None;
    match place_of(heap, ptr) {
        Place::Slots { class, owner } => {
            let own: bool = match id {
                Some(k) => owner == k,
                None => false,
            };
            if own {
                free_own(heap, owner, ptr);
            } else if owner != 0xFFFF {
                free_remote(heap, owner, ptr);
            } else {
                free_shared(heap, ptr);
            }
        },
        Place::Pool => {
            free_pool(heap, ptr);
        },
        Place::Pages => {
            free_pages(heap, ptr);
        },
        Place::Outside => {
            r = free_huge(heap, ptr);
        },
    }
    proof {
        assert forall|x: int| heap@.owns(x) implies #[trigger] heap.byte(x) == old(heap).byte(x) by {
            assert(heap.byte(x) == heap2.byte(x));
            let q = choose|q: int| #[trigger] heap@.block(q) is Some && q <= x < q + heap@.block(q)->0;
            assert(q != ptr);
            assert(h.block(q) == heap@.block(q));
            assert(h.owns(x));
            lemma_inited_owner(h, g.arena, x);
        }
    }
    r
}

/// The usable size of the block at `ptr`: that of its slot, its payload in the
/// pool, its pages, or its mapping. It is 0 for null and for an address that is
/// none of the heap's.
pub fn ferrum_usable_size(heap: &mut Heap, reply: Option<Region>, ptr: usize) -> (r: usize)
    requires
        old(heap).wf(),
        old(heap).offered(OsReplies { arena: reply, page: None, huge: None }),
        ({
            let s1 = old(heap)@.inited((OsReplies { arena: reply, page: None, huge: None }).grants(0).arena);
            ptr != 0 && s1.in_arena(ptr as int) && s1.class_at(ptr as int) == 0xFF && s1.in_pool(ptr as int)
                ==> s1.block(ptr as int) is Some
        }),
    ensures
        final(heap).wf(),
        ({
            let s1 = old(heap)@.inited((OsReplies { arena: reply, page: None, huge: None }).grants(0).arena);
            if ptr == 0 {
                r == 0 && *final(heap) == *old(heap)
            } else {
                &&& r == s1.usable(ptr as int)
                &&& s1.block(ptr as int) matches Some(n) ==> r == n
                &&& final(heap)@ == s1
            }
        }),
        final(heap).keeps_bytes(*old(heap)),
        final(heap).continues(*old(heap)),
        forall|os: OsReplies|
            os.arena == reply && old(heap).offered(os) ==> #[trigger] final(heap).offered(
                (OsReplies { arena: None, ..os }),
            ),
{
    if ptr == 0 {
        return 0;
    }
    ensure_init(heap, reply);
    proof {
        if heap@.block(ptr as int) is Some {
            laws::usable_size_is_block_size(heap@, ptr as int);
        }
    }
    match place_of(heap, ptr) {
        Place::Slots { class, owner } => class_to_size(class),
        Place::Pool => {
            proof {
                assert(heap@.tlsf.live(ptr as int));
            }
            match &heap.central {
                Some(c) => c.tlsf.usable_size(&c.arena.mem, ptr),
                None => 0,
            }
        },
        Place::Pages => match &heap.central {
            Some(c) => c.runs.size_of(ptr),
            None => 0,
        },
        Place::Outside => huge_usable_size(&heap.huge, ptr),
    }
}

/// Bytes that the client holds may change without harm to the heap.
proof fn lemma_arena_written(new: Heap, old: Heap, lo: int, hi: int)
    requires
        old.wf(),
        old.central is Some,
        new.central is Some,
        new.registry == old.registry,
        new.huge == old.huge,
        new.ids == old.ids,
        new.central->0.slab == old.central->0.slab,
        new.central->0.tlsf == old.central->0.tlsf,
        new.central->0.runs == old.central->0.runs,
        new.central->0.arena.meta == old.central->0.arena.meta,
        new.central->0.arena.pages == old.central->0.arena.pages,
        new.central->0.arena.free == old.central->0.arena.free,
        new.central->0.arena.mem.wf(),
        new.central->0.arena.mem.same_outside(old.central->0.arena.mem, lo, hi),
        forall|x: int| lo <= x < hi ==> #[trigger] old@.owns(x) && old@.in_arena(x),
    ensures
        new.wf(),
        new@ == old@,
        new.continues(old),
        forall|x: int|
            old@.owns(x) && !(lo <= x < hi) ==> #[trigger] new.byte(x) == old.byte(x),
        forall|x: int| lo <= x < hi ==> #[trigger] new.byte(x) == new.central->0.arena.mem.byte(x),
{
    let h = old@;
    let a0 = old.central->0.arena;
    let a1 = new.central->0.arena;
    assert(a1@.pages =~= a0@.pages);
    assert(new@ == h);
    assert forall|j: int| 0 <= j < PAGES_PER_ARENA implies #[trigger] a1.page_ok(j) by {
        assert(a0.page_ok(j));
        let c = a0.pages@[j].size_class as int;
        if c != NO_CLASS {
            let z = SizeClass::size(c);
            let f = a0.free@[j];
            assert forall|k: int, x: int|
                #![trigger f[k], a1.mem.byte(x)]
                0 <= k < f.len() && crate::arena::Chain::slot(a0@.page(j), z, f[k]) <= x
                    < crate::arena::Chain::slot(a0@.page(j), z, f[k]) + 2 implies a1.mem.byte(x)
                == a0.mem.byte(x) by {
                crate::size_class::lemma_sizes(c);
                crate::size_class::lemma_slots(c);
                crate::arena::lemma_slot_in_page(a0@.page(j), z, SizeClass::slots(c, 4096), f[k]);
                if lo <= x < hi {
                    laws::lemma_owned(h, x);
                    assert(h.arena->0.pages[j].free.contains(f[k]));
                    assert(h.arena->0.slot(j, f[k]) == crate::arena::Chain::slot(a0@.page(j), z, f[k]));
                }
            }
        }
        a1.lemma_page_kept(a0, j);
    }
    assert(a1.wf());
    assert forall|m: int|
        #![trigger new.registry.caches@[m]]
        0 <= m < MAX_THREADS && new.registry.caches@[m] is Some implies new.registry.caches@[m]->0.wf(a1) by {
        let c = old.registry.caches@[m]->0;
        assert(old.registry.caches@[m] is Some);
        assert(h.slabs[m] == Some(c@));
        assert forall|p: int, x: int|
            #![trigger c@.pending.contains(p), a1.mem.byte(x)]
            c@.pending.contains(p) && p <= x < p + 8 implies a1.mem.byte(x) == a0.mem.byte(x) by {
            assert(h.stacked(m, p));
            assert(h.pending(p));
            steps::lemma_stacked(h, m, p);
            crate::slab::laws::lemma_used(a0@, p);
            if lo <= x < hi {
                laws::lemma_owned(h, x);
                assert(h.block(p) is None);
            }
        }
        c.lemma_kept(a1, a0);
    }
    let g = old.central->0.slab;
    g.lemma_kept_at(a1, a0);
    let t = old.central->0.tlsf;
    assert forall|x: int|
        #![trigger a1.mem.byte(x)]
        a1.mem.has(x, 1) && !t@.client(x) implies a1.mem.byte(x) == a0.mem.byte(x) by {
        if lo <= x < hi {
            laws::lemma_owned(h, x);
        }
    }
    t.client_writes_keep_order(a1.mem, a0.mem);
    assert forall|x: int| lo <= x < hi implies #[trigger] new.byte(x) == a1.mem.byte(x) by {
        assert(h.owns(x));
    }
}

/// The bytes of a block are the client's, all in one mapping.
proof fn lemma_block_bytes(heap: Heap, p: int)
    requires
        heap.wf(),
        heap@.block(p) is Some,
    ensures
        ({
            let n = heap@.block(p)->0;
            &&& forall|x: int| p <= x < p + n ==> #[trigger] heap@.owns(x)
            &&& heap@.in_arena(p) ==> {
                &&& heap.central->0.arena.mem.has(p, n)
                &&& forall|x: int| p <= x < p + n ==> #[trigger] heap@.in_arena(x)
            }
            &&& !heap@.in_arena(p) ==> {
                let q = p as usize;
                &&& q == p
                &&& heap.huge@.dom().contains(q)
                &&& HugeBlocks::block_ok(q, heap.huge@[q])
                &&& n == heap.huge@[q].bytes@.len() - 4096
                &&& forall|x: int|
                    p <= x < p + n ==> #[trigger] heap.byte(x) == heap.huge@[q].byte(x)
                        && !heap@.in_arena(x)
            }
        }),
{
    let h = heap@;
    let n = h.block(p)->0;
    laws::lemma_block_place(h, p);
    assert forall|x: int| p <= x < p + n implies #[trigger] h.owns(x) by {
        assert(h.block(p) is Some && p <= x < p + h.block(p)->0);
    }
    if h.in_arena(p) {
        if h.class_at(p) == 0xFF && !h.in_pool(p) {
            assert(h.run_ok(p));
        }
    } else {
        let q = p as usize;
        assert(heap.huge@.dom().contains(q));
        assert(HugeBlocks::block_ok(q, heap.huge@[q]));
        assert forall|x: int| p <= x < p + n implies #[trigger] heap.byte(x) == heap.huge@[q].byte(x)
            && !h.in_arena(x) by {
            assert(h.huge.dom().contains(p));
            assert(heap.huge@[q].has(x, 1));
            let r = choose|r: usize| #[trigger] heap.huge@.dom().contains(r) && heap.huge@[r].has(x, 1);
            if r != q {
                assert(heap.huge@[r].apart(heap.huge@[q]));
            }
        }
    }
}

/// What a change to the mapping of one huge block leaves.
proof fn lemma_huge_written(new: Heap, old: Heap, ptr: usize, lo: int, hi: int)
    requires
        old.wf(),
        new.central == old.central,
        new.registry == old.registry,
        new.keys == old.keys,
        new.ids == old.ids,
        new.huge.wf(),
        old@.block(ptr as int) is Some,
        !old@.in_arena(ptr as int),
        new.huge@ == old.huge@.insert(ptr, new.huge@[ptr]),
        new.huge@[ptr].same_outside(old.huge@[ptr], lo, hi),
        ptr <= lo,
        hi <= ptr + old@.block(ptr as int)->0,
    ensures
        new.wf(),
        new@ == old@,
        new.continues(old),
        forall|x: int|
            old@.owns(x) && !(lo <= x < hi) ==> #[trigger] new.byte(x) == old.byte(x),
        forall|x: int| lo <= x < hi ==> #[trigger] new.byte(x) == new.huge@[ptr].byte(x),
{
    let h = old@;
    lemma_block_bytes(old, ptr as int);
    assert forall|p: usize| #[trigger] new.huge@.dom().contains(p) <==> old.huge@.dom().contains(p) by {};
    assert(new@.huge =~= h.huge) by {
        assert forall|p: int| h.huge.dom().contains(p) implies #[trigger] new@.huge[p] == h.huge[p] by {
            assert(old.huge@.dom().contains(p as usize));
        }
    }
    assert(new@ == h);
    assert(new.wf());
    lemma_block_bytes(new, ptr as int);
    assert forall|x: int| h.owns(x) && !(lo <= x < hi) implies #[trigger] new.byte(x) == old.byte(x) by {
        if !h.in_arena(x) {
            let b = choose|b: int| #[trigger] h.block(b) is Some && b <= x < b + h.block(b)->0;
            lemma_block_bytes(old, b);
            lemma_block_bytes(new, b);
            assert(old.huge@[ptr].base == new.huge@[ptr].base);
        }
    }
}

/// Copies out `n` bytes of a block, from `offset` on.
pub fn read_block(heap: &Heap, ptr: usize, offset: usize, n: usize) -> (r: Vec<u8>)
    requires
        heap.wf(),
        heap@.block(ptr as int) is Some,
        offset + n <= heap@.block(ptr as int)->0,
    ensures
        r@.len() == n,
        forall|i: int| 0 <= i < n ==> #[trigger] r@[i] == heap.byte(ptr + offset + i),
{
    proof {
        lemma_block_bytes(*heap, ptr as int);
        laws::lemma_block_place(heap@, ptr as int);
    }
    match &heap.central {
        Some(c) => {
            if c.arena.contains(ptr) {
                return c.arena.mem.read_bytes(ptr + offset, n);
            }
        },
        None => {},
    }
    heap.huge.read_bytes(ptr, offset, n)
}

/// Writes bytes to a block, from `offset` on.
pub fn write_block(heap: &mut Heap, ptr: usize, offset: usize, bytes: &Vec<u8>)
    requires
        old(heap).wf(),
        old(heap)@.block(ptr as int) is Some,
        offset + bytes@.len() <= old(heap)@.block(ptr as int)->0,
    ensures
        final(heap).wf(),
        final(heap)@ == old(heap)@,
        final(heap).continues(*old(heap)),
        forall|i: int|
            0 <= i < bytes@.len() ==> #[trigger] final(heap).byte(ptr + offset + i) == bytes@[i],
        forall|x: int|
            old(heap)@.owns(x) && !(ptr + offset <= x < ptr + offset + bytes@.len())
                ==> #[trigger] final(heap).byte(x) == old(heap).byte(x),
{
    let ghost lo = ptr + offset;
    let ghost hi = ptr + offset + bytes@.len();
    proof {
        lemma_block_bytes(*heap, ptr as int);
        laws::lemma_block_place(heap@, ptr as int);
    }
    match &mut heap.central {
        Some(c) => {
            if c.arena.contains(ptr) {
                c.arena.mem.write_bytes(ptr + offset, bytes);
                proof {
                    lemma_arena_written(*heap, *old(heap), lo, hi);
                }
                return;
            }
        },
        None => {},
    }
    heap.huge.write_bytes(ptr, offset, bytes);
    proof {
        lemma_huge_written(*heap, *old(heap), ptr, lo, hi);
    }
}

/// Sets the first `n` bytes of a block to `v`.
pub fn fill_block(heap: &mut Heap, ptr: usize, v: u8, n: usize)
    requires
        old(heap).wf(),
        old(heap)@.block(ptr as int) is Some,
        n <= old(heap)@.block(ptr as int)->0,
    ensures
        final(heap).wf(),
        final(heap)@ == old(heap)@,
        final(heap).continues(*old(heap)),
        forall|x: int| ptr <= x < ptr + n ==> #[trigger] final(heap).byte(x) == v,
        forall|x: int|
            old(heap)@.owns(x) && !(ptr <= x < ptr + n) ==> #[trigger] final(heap).byte(x) == old(
                heap,
            ).byte(x),
{
    proof {
        lemma_block_bytes(*heap, ptr as int);
        laws::lemma_block_place(heap@, ptr as int);
    }
    match &mut heap.central {
        Some(c) => {
            if c.arena.contains(ptr) {
                c.arena.mem.fill(ptr, v, n);
                proof {
                    lemma_arena_written(*heap, *old(heap), ptr as int, ptr + n);
                }
                return;
            }
        },
        None => {},
    }
    heap.huge.fill(ptr, v, n);
    proof {
        lemma_huge_written(*heap, *old(heap), ptr, ptr as int, ptr + n);
    }
}

/// Allocates `count * size` bytes, all of them zero. The result is 0 if the
/// product overflows, if it is 0, and if the allocation fails.
pub fn ferrum_calloc(
    heap: &mut Heap,
    tls: &mut ThreadLocals,
    os: OsReplies,
    count: usize,
    size: usize,
) -> (r: usize)
    requires
        old(heap).wf(),
        old(heap).knows(*old(tls)),
        old(heap).offered(os),
    ensures
        final(heap).wf(),
        final(heap).knows(*final(tls)),
        count * size > usize::MAX ==> r == 0 && *final(heap) == *old(heap) && *final(tls) == *old(tls),
        count * size <= usize::MAX ==> {
            let out = old(heap)@.malloc(
                old(heap).handle(*old(tls)),
                count * size,
                os.grants(count * size),
            );
            &&& final(heap)@ == out.heap
            &&& final(heap).handle(*final(tls)) == out.handle
            &&& r == out.ptr
        },
        r != 0 ==> forall|x: int| r <= x < r + count * size ==> #[trigger] final(heap).byte(x) == 0,
        final(heap)@.same_blocks_but(old(heap)@, r as int),
        r != 0 ==> {
            &&& r % 16 == 0
            &&& final(heap)@.block(r as int) is Some
            &&& final(heap)@.block(r as int)->0 >= count * size
            &&& old(heap)@.block(r as int) is None || old(heap)@.block(r as int) == Some(0int)
        },
        final(heap).keeps_bytes(*old(heap)),
        final(heap).continues(*old(heap)),
        final(heap).new_cache_on(
            final(heap).handle(*final(tls)),
            *old(heap),
            old(heap).handle(*old(tls)),
            os.page,
        ),
{
    let total: usize = match count.checked_mul(size) {
        Some(total) => total,
        None => {
            return 0;
        },
    };
    let ptr: usize = ferrum_malloc(heap, tls, os, total);
    if ptr != 0 {
        let ghost heap1 = *heap;
        fill_block(heap, ptr, 0, total);
        proof {
            assert forall|x: int| old(heap)@.owns(x) implies #[trigger] heap.byte(x) == old(heap).byte(x) by {
                lemma_kept_block(old(heap)@, heap1@, ptr as int, x);
                assert(heap1.byte(x) == old(heap).byte(x));
            }
        }
    }
    ptr
}

/// A byte held before an allocation is held after it, and is no part of the new
/// block.
proof fn lemma_kept_block(h: HeapState, n: HeapState, r: int, x: int)
    requires
        h.wf(),
        n.wf(),
        h.owns(x),
        n.same_blocks_but(h, r),
        n.block(r) is Some,
        h.block(r) is None || h.block(r) == Some(0int),
    ensures
        n.owns(x),
        !(r <= x < r + n.block(r)->0),
{
    let p = choose|p: int| #[trigger] h.block(p) is Some && p <= x < p + h.block(p)->0;
    assert(p != r);
    assert(n.block(p) == h.block(p));
    if p < r {
        laws::blocks_are_disjoint(n, p, r);
    } else {
        laws::blocks_are_disjoint(n, r, p);
    }
}

/// Copies the first `n` bytes of the block at `from` to the start of the block
/// at `to`.
fn copy_block(heap: &mut Heap, from: usize, to: usize, n: usize)
    requires
        old(heap).wf(),
        old(heap)@.block(from as int) is Some,
        n <= old(heap)@.block(from as int)->0,
        old(heap)@.block(to as int) is Some,
        n <= old(heap)@.block(to as int)->0,
    ensures
        final(heap).wf(),
        final(heap)@ == old(heap)@,
        final(heap).continues(*old(heap)),
        final(heap).copied(*old(heap), from as int, to as int, n as int),
{
    let bytes = read_block(heap, from, 0, n);
    write_block(heap, to, 0, &bytes);
    proof {
        assert forall|x: int| heap@.owns(x) implies #[trigger] heap.byte(x) == (if to <= x < to + n {
            old(heap).byte(from + (x - to))
        } else {
            old(heap).byte(x)
        }) by {
            if to <= x < to + n {
                let i = x - to;
                assert(heap.byte(to + 0 + i) == bytes@[i]);
                assert(bytes@[i] == old(heap).byte(from + 0 + i));
            }
        }
    }
}

/// The lesser of two numbers.
pub open spec fn least(a: int, b: int) -> int {
    if a < b {
        a
    } else {
        b
    }
}

impl Heap {
    /// The bytes that the client holds are those of `m`, but that the first `n`
    /// bytes at `to` are those at `from`.
    pub open spec fn copied(self, m: Heap, from: int, to: int, n: int) -> bool {
        forall|x: int|
            self@.owns(x) ==> #[trigger] self.byte(x) == (if to <= x < to + n {
                m.byte(from + (x - to))
            } else {
                m.byte(x)
            })
    }

    /// From `old` the heap came to the state `target` in a step that kept the
    /// client's bytes, and there exactly `n` bytes were copied.
    pub open spec fn copied_after(
        self,
        old: Heap,
        target: HeapState,
        from: int,
        to: int,
        n: int,
    ) -> bool {
        exists|m: Heap|
            m.wf() && m@ == target && m.keeps_bytes(old) && #[trigger] self.copied(m, from, to, n)
    }
}

/// Copies the first `n` bytes of the block at `ptr` to the block at `new_ptr`,
/// and gives the former back. What is to be unmapped, if anything, is the
/// result.
fn replace_block(
    heap: &mut Heap,
    tls: &mut ThreadLocals,
    again: Option<Region>,
    ptr: usize,
    new_ptr: usize,
    n: usize,
) -> (r: Option<Region>)
    requires
        old(heap).wf(),
        old(heap).knows(*old(tls)),
        old(heap)@.block(ptr as int) is Some,
        n <= old(heap)@.block(ptr as int)->0,
        old(heap)@.block(new_ptr as int) is Some,
        n <= old(heap)@.block(new_ptr as int)->0,
        ptr != new_ptr,
    ensures
        final(heap).wf(),
        final(heap).knows(*final(tls)),
        ({
            let out = old(heap)@.freed(
                old(heap).handle(*old(tls)),
                ptr as int,
                Grants { arena: None, page: is_mapping(again, PAGE_SIZE as int), huge: None },
            );
            &&& final(heap)@ == out.heap
            &&& final(heap).handle(*final(tls)) == out.handle
        }),
        unmaps(old(heap)@, ptr as int, r),
        final(heap)@.block(ptr as int) is None,
        final(heap)@.same_blocks_but(old(heap)@, ptr as int),
        final(heap).copied(*old(heap), ptr as int, new_ptr as int, n as int),
        final(heap).continues(*old(heap)),
        final(heap).new_cache_on(
            final(heap).handle(*final(tls)),
            *old(heap),
            old(heap).handle(*old(tls)),
            again,
        ),
{
    copy_block(heap, ptr, new_ptr, n);
    let ghost heap1 = *heap;
    let last = OsReplies { arena: None, page: again, huge: None };
    proof {
        assert(heap1.offered(last));
        assert(heap1@.inited(last.grants(0).arena) == heap1@);
    }
    let region = ferrum_free(heap, tls, last, ptr);
    proof {
        assert(last.grants(0) == (Grants { arena: None, page: is_mapping(again, PAGE_SIZE as int), huge: None }));
        assert forall|x: int| heap@.owns(x) implies #[trigger] heap.byte(x) == heap1.byte(x) && heap1@.owns(
            x,
        ) by {
            lemma_old_owner(heap1@, heap@, ptr as int, x);
        }
    }
    region
}

/// Moves the block at `ptr` into a new one of `new_size` bytes. The second part
/// of the result, if there is one, is to be unmapped.
fn move_block(
    heap: &mut Heap,
    tls: &mut ThreadLocals,
    os: OsReplies,
    again: Option<Region>,
    ptr: usize,
    new_size: usize,
) -> (r: (usize, Option<Region>))
    requires
        old(heap).wf(),
        old(heap).knows(*old(tls)),
        old(heap).offered(os),
        ptr != 0,
        new_size > 0,
        old(heap)@.block(ptr as int) is Some,
        old(heap)@.block(ptr as int)->0 > 0,
    ensures
        final(heap).wf(),
        final(heap).knows(*final(tls)),
        ({
            let out = old(heap)@.moved(
                old(heap).handle(*old(tls)),
                ptr as int,
                new_size as int,
                os.grants(new_size as int),
                is_mapping(again, PAGE_SIZE as int),
            );
            &&& final(heap)@ == out.heap
            &&& final(heap).handle(*final(tls)) == out.handle
            &&& r.0 == out.ptr
        }),
        if r.0 == 0 {
            r.1 is None
        } else {
            unmaps(old(heap)@.inited(os.grants(0).arena), ptr as int, r.1)
        },
        r.0 != 0 ==> {
            &&& r.0 % 16 == 0
            &&& final(heap)@.block(r.0 as int) is Some
            &&& final(heap)@.block(r.0 as int)->0 >= new_size
            &&& r.0 != ptr
            &&& final(heap)@.block(ptr as int) is None
            &&& forall|i: int|
                0 <= i < new_size && i < old(heap)@.block(ptr as int)->0 ==> #[trigger] final(heap).byte(
                    r.0 + i,
                ) == old(heap).byte(ptr + i)
        },
        r.0 != 0 ==> final(heap).copied_after(
            *old(heap),
            old(heap)@.move_target(old(heap).handle(*old(tls)), new_size as int, os.grants(new_size as int)).heap,
            ptr as int,
            r.0 as int,
            least(old(heap)@.block(ptr as int)->0, new_size as int),
        ),
        forall|x: int|
            final(heap)@.owns(x) && !(r.0 != 0 && r.0 <= x < r.0 + final(heap)@.block(r.0 as int)->0)
                ==> #[trigger] final(heap).byte(x) == old(heap).byte(x),
        r.0 == 0 ==> final(heap)@.same_blocks_but(old(heap)@, 0),
        final(heap)@.same_blocks_but_two(old(heap)@, ptr as int, r.0 as int),
        final(heap).continues(*old(heap)),
        final(heap).new_cache_on(
            final(heap).handle(*final(tls)),
            *old(heap),
            old(heap).handle(*old(tls)),
            if old(heap)@.move_target(
                old(heap).handle(*old(tls)),
                new_size as int,
                os.grants(new_size as int),
            ).handle != 0 {
                os.page
            } else {
                again
            },
        ),
{
    let ghost h = heap@;
    let ghost g = os.grants(new_size as int);
    proof {
        lemma_grants_new(*heap, os, new_size as int);
        steps::lemma_inited(h, g.arena);
        assert(h.inited(g.arena).same_blocks_but(h, 0));
        laws::lemma_block_place(h, ptr as int);
        assert(heap.offered(OsReplies { arena: os.arena, page: None, huge: None }));
    }
    let old_size: usize = ferrum_usable_size(heap, os.arena, ptr);
    let ghost heap1 = *heap;
    let ghost size = h.block(ptr as int)->0;
    proof {
        assert(heap@.block(ptr as int) == Some(size));
    }
    let copy_size: usize = if old_size < new_size {
        old_size
    } else {
        new_size
    };
    let rest = OsReplies { arena: None, page: os.page, huge: os.huge };
    proof {
        assert(heap.offered(OsReplies { arena: None, ..os }));
        assert(rest.grants(new_size as int) == (Grants { arena: None, ..g }));
    }
    let new_ptr: usize = ferrum_malloc(heap, tls, rest, new_size);
    let ghost heap2 = *heap;
    if new_ptr == 0 {
        proof {
            assert forall|x: int| heap@.owns(x) implies #[trigger] heap.byte(x) == old(heap).byte(x) by {
                lemma_old_owner(heap1@, heap2@, 0, x);
                lemma_old_owner(h, heap1@, 0, x);
                assert(heap1.byte(x) == old(heap).byte(x));
            }
            lemma_two_steps(h, heap1@, heap2@);
        }
        return (0, None);
    }
    proof {
        assert(heap2@.block(ptr as int) == Some(size));
        assert(heap2.keeps_bytes(*old(heap))) by {
            assert forall|x: int| h.owns(x) implies #[trigger] heap2.byte(x) == old(heap).byte(x) by {
                lemma_inited_owner(h, g.arena, x);
                assert(heap1.byte(x) == old(heap).byte(x));
            }
        }
    }
    let region = replace_block(heap, tls, again, ptr, new_ptr, copy_size);
    proof {
        assert(unmaps(heap1@, ptr as int, region)) by {
            lemma_grants_new(heap1, rest, new_size as int);
            laws::lemma_places_stay(
                heap1@,
                heap1.handle(*old(tls)),
                new_size as int,
                rest.grants(new_size as int),
                ptr as int,
            );
        }
        assert(heap@.block(new_ptr as int) == heap2@.block(new_ptr as int));
        assert(heap.copied_after(
            *old(heap),
            h.move_target(old(heap).handle(*old(tls)), new_size as int, g).heap,
            ptr as int,
            new_ptr as int,
            least(size, new_size as int),
        )) by {
            assert(heap2@ == h.move_target(old(heap).handle(*old(tls)), new_size as int, g).heap);
            assert(copy_size == least(size, new_size as int));
            assert(heap.copied(heap2, ptr as int, new_ptr as int, copy_size as int));
        }
        assert forall|i: int| 0 <= i < new_size && i < size implies #[trigger] heap.byte(new_ptr + i)
            == old(heap).byte(ptr + i) by {
            lemma_in_block(heap@, new_ptr as int, new_ptr + i);
            lemma_in_block(h, ptr as int, ptr + i);
            assert(heap.byte(new_ptr + i) == heap2.byte(ptr + i));
        }
        assert forall|x: int|
            heap@.owns(x) && !(new_ptr <= x < new_ptr + heap@.block(new_ptr as int)->0) implies #[trigger] heap.byte(
        x) == old(heap).byte(x) by {
            lemma_old_owner(heap2@, heap@, ptr as int, x);
            assert(heap.byte(x) == heap2.byte(x));
            lemma_old_owner(heap1@, heap2@, new_ptr as int, x);
            assert(heap2.byte(x) == heap1.byte(x));
            lemma_old_owner(h, heap1@, 0, x);
            assert(heap1.byte(x) == old(heap).byte(x));
        }
    }
    (new_ptr, region)
}

/// Changes the size of the block at `ptr` to `new_size`: the result is the new
/// block, or 0 if the allocation fails, in which case the old block stays.
/// Null is allocated anew; size 0 gives the block back. The second part of the
/// result, if there is one, is to be unmapped.
///
/// The new block starts with the bytes of the old one: as many are copied as
/// the old block has, or as the new one is to have if that is less. `again` is the operating system's answer to a second request for the
/// page of a cache.
pub fn ferrum_realloc(
    heap: &mut Heap,
    tls: &mut ThreadLocals,
    os: OsReplies,
    again: Option<Region>,
    ptr: usize,
    new_size: usize,
) -> (r: (usize, Option<Region>))
    requires
        old(heap).wf(),
        old(heap).knows(*old(tls)),
        old(heap).offered(os),
        ptr != 0 && new_size == 0 ==> old(heap)@.inited(os.grants(0).arena).may_free(ptr as int),
        ptr != 0 && new_size > 0 ==> old(heap)@.block(ptr as int) is Some && old(heap)@.block(
            ptr as int,
        )->0 > 0,
    ensures
        final(heap).wf(),
        final(heap).knows(*final(tls)),
        ({
            let h = old(heap)@;
            let e = old(heap).handle(*old(tls));
            let g = os.grants(new_size as int);
            let out = if ptr == 0 {
                h.malloc(e, new_size as int, g)
            } else if new_size == 0 {
                h.freed(e, ptr as int, g)
            } else {
                h.moved(e, ptr as int, new_size as int, g, is_mapping(again, PAGE_SIZE as int))
            };
            &&& final(heap)@ == out.heap
            &&& final(heap).handle(*final(tls)) == out.handle
            &&& r.0 == out.ptr
        }),
        if ptr == 0 || (new_size > 0 && r.0 == 0) {
            r.1 is None
        } else {
            unmaps(old(heap)@.inited(os.grants(0).arena), ptr as int, r.1)
        },
        new_size > 0 && r.0 != 0 ==> {
            &&& r.0 % 16 == 0
            &&& final(heap)@.block(r.0 as int) is Some
            &&& final(heap)@.block(r.0 as int)->0 >= new_size
        },
        ptr != 0 && new_size > 0 && r.0 != 0 ==> {
            &&& r.0 != ptr
            &&& final(heap)@.block(ptr as int) is None
            &&& forall|i: int|
                0 <= i < new_size && i < old(heap)@.block(ptr as int)->0 ==> #[trigger] final(heap).byte(
                    r.0 + i,
                ) == old(heap).byte(ptr + i)
        },
        ptr != 0 && new_size > 0 && r.0 != 0 ==> final(heap).copied_after(
            *old(heap),
            old(heap)@.move_target(old(heap).handle(*old(tls)), new_size as int, os.grants(new_size as int)).heap,
            ptr as int,
            r.0 as int,
            least(old(heap)@.block(ptr as int)->0, new_size as int),
        ),
        forall|x: int|
            final(heap)@.owns(x) && !(r.0 != 0 && r.0 <= x < r.0 + final(heap)@.block(r.0 as int)->0)
                ==> #[trigger] final(heap).byte(x) == old(heap).byte(x),
        r.0 == 0 && new_size > 0 ==> final(heap)@.same_blocks_but(old(heap)@, 0),
        ptr != 0 && new_size == 0 ==> final(heap)@.block(ptr as int) is None,
        final(heap)@.same_blocks_but_two(old(heap)@, ptr as int, r.0 as int),
        final(heap).continues(*old(heap)),
        final(heap).new_cache_on(
            final(heap).handle(*final(tls)),
            *old(heap),
            old(heap).handle(*old(tls)),
            if ptr == 0 || new_size == 0 || old(heap)@.move_target(
                old(heap).handle(*old(tls)),
                new_size as int,
                os.grants(new_size as int),
            ).handle != 0 {
                os.page
            } else {
                again
            },
        ),
{
    let ghost h = heap@;
    if ptr == 0 {
        let p: usize = ferrum_malloc(heap, tls, os, new_size);
        proof {
            assert forall|x: int|
                heap@.owns(x) && !(p != 0 && p <= x < p + heap@.block(p as int)->0) implies #[trigger] heap.byte(
            x) == old(heap).byte(x) by {
                lemma_old_owner(h, heap@, p as int, x);
            }
        }
        return (p, None);
    }
    if new_size == 0 {
        let region = ferrum_free(heap, tls, os, ptr);
        return (0, region);
    }
    move_block(heap, tls, os, again, ptr, new_size)
}

/// A byte in a block is the client's.
proof fn lemma_in_block(h: HeapState, p: int, x: int)
    requires
        h.block(p) is Some,
        p <= x < p + h.block(p)->0,
    ensures
        h.owns(x),
{
}

/// What the client holds beyond the block at `r`, it held before.
pub proof fn lemma_old_owner(h: HeapState, n: HeapState, r: int, x: int)
    requires
        n.owns(x),
        n.same_blocks_but(h, r),
        n.block(r) is None || !(r <= x < r + n.block(r)->0),
    ensures
        h.owns(x),
{
    let p = choose|p: int| #[trigger] n.block(p) is Some && p <= x < p + n.block(p)->0;
    assert(h.block(p) == n.block(p));
}

/// Two steps that change no block.
proof fn lemma_two_steps(h: HeapState, m: HeapState, n: HeapState)
    requires
        m.same_blocks_but(h, 0),
        n.same_blocks_but(m, 0),
    ensures
        n.same_blocks_but(h, 0),
{
    assert forall|p: int| #[trigger] h.block(p) is Some && h.block(p)->0 > 0 && p != 0 implies n.block(p)
        == h.block(p) by {
        assert(m.block(p) == h.block(p));
    }
    assert forall|p: int| #[trigger] n.block(p) is Some && p != 0 implies h.block(p) == n.block(p) by {
        assert(m.block(p) == n.block(p));
    }
}

/// Allocates `size` bytes.
pub fn malloc(heap: &mut Heap, tls: &mut ThreadLocals, os: OsReplies, size: usize) -> (r: usize)
    requires
        old(heap).wf(),
        old(heap).knows(*old(tls)),
        old(heap).offered(os),
    ensures
        final(heap).wf(),
        final(heap).knows(*final(tls)),
        ({
            let out = old(heap)@.malloc(old(heap).handle(*old(tls)), size as int, os.grants(size as int));
            &&& final(heap)@ == out.heap
            &&& final(heap).handle(*final(tls)) == out.handle
            &&& r == out.ptr
        }),
        final(heap).keeps_bytes(*old(heap)),
        final(heap).continues(*old(heap)),
        final(heap).new_cache_on(
            final(heap).handle(*final(tls)),
            *old(heap),
            old(heap).handle(*old(tls)),
            os.page,
        ),
{
    ferrum_malloc(heap, tls, os, size)
}

/// Gives back what `malloc` handed out.
pub fn free(heap: &mut Heap, tls: &mut ThreadLocals, os: OsReplies, ptr: usize) -> (r: Option<Region>)
    requires
        old(heap).wf(),
        old(heap).knows(*old(tls)),
        old(heap).offered(os),
        old(heap)@.inited(os.grants(0).arena).may_free(ptr as int),
    ensures
        final(heap).wf(),
        final(heap).knows(*final(tls)),
        ({
            let out = old(heap)@.freed(old(heap).handle(*old(tls)), ptr as int, os.grants(0));
            &&& final(heap)@ == out.heap
            &&& final(heap).handle(*final(tls)) == out.handle
        }),
        unmaps(old(heap)@.inited(os.grants(0).arena), ptr as int, r),
        final(heap).keeps_rest(*old(heap)),
        final(heap).continues(*old(heap)),
        final(heap).new_cache_on(
            final(heap).handle(*final(tls)),
            *old(heap),
            old(heap).handle(*old(tls)),
            os.page,
        ),
{
    ferrum_free(heap, tls, os, ptr)
}

/// Allocates `nmemb * size` bytes, all of them zero. The result is 0 if the
/// product overflows or is 0, and if the allocation fails.
pub fn calloc(
    heap: &mut Heap,
    tls: &mut ThreadLocals,
    os: OsReplies,
    nmemb: usize,
    size: usize,
) -> (r: usize)
    requires
        old(heap).wf(),
        old(heap).knows(*old(tls)),
        old(heap).offered(os),
    ensures
        final(heap).wf(),
        final(heap).knows(*final(tls)),
        nmemb * size > usize::MAX || nmemb * size == 0 ==> {
            &&& r == 0
            &&& *final(heap) == *old(heap)
            &&& *final(tls) == *old(tls)
        },
        0 < nmemb * size <= usize::MAX ==> {
            let out = old(heap)@.malloc(
                old(heap).handle(*old(tls)),
                nmemb * size,
                os.grants(nmemb * size),
            );
            &&& final(heap)@ == out.heap
            &&& final(heap).handle(*final(tls)) == out.handle
            &&& r == out.ptr
        },
        r != 0 ==> forall|x: int| r <= x < r + nmemb * size ==> #[trigger] final(heap).byte(x) == 0,
        final(heap).keeps_bytes(*old(heap)),
        final(heap).continues(*old(heap)),
        final(heap).new_cache_on(
            final(heap).handle(*final(tls)),
            *old(heap),
            old(heap).handle(*old(tls)),
            os.page,
        ),
{
    let total_size: usize = match nmemb.checked_mul(size) {
        Some(total) => total,
        None => 0,
    };
    if total_size == 0 {
        return 0;
    }
    ferrum_calloc(heap, tls, os, nmemb, size)
}

/// Changes the size of a block.
pub fn realloc(
    heap: &mut Heap,
    tls: &mut ThreadLocals,
    os: OsReplies,
    again: Option<Region>,
    ptr: usize,
    size: usize,
) -> (r: (usize, Option<Region>))
    requires
        old(heap).wf(),
        old(heap).knows(*old(tls)),
        old(heap).offered(os),
        ptr != 0 && size == 0 ==> old(heap)@.inited(os.grants(0).arena).may_free(ptr as int),
        ptr != 0 && size > 0 ==> old(heap)@.block(ptr as int) is Some && old(heap)@.block(ptr as int)->0
            > 0,
    ensures
        final(heap).wf(),
        final(heap).knows(*final(tls)),
        ({
            let h = old(heap)@;
            let e = old(heap).handle(*old(tls));
            let g = os.grants(size as int);
            let out = if ptr == 0 {
                h.malloc(e, size as int, g)
            } else if size == 0 {
                h.freed(e, ptr as int, g)
            } else {
                h.moved(e, ptr as int, size as int, g, is_mapping(again, PAGE_SIZE as int))
            };
            &&& final(heap)@ == out.heap
            &&& final(heap).handle(*final(tls)) == out.handle
            &&& r.0 == out.ptr
        }),
        if ptr == 0 || (size > 0 && r.0 == 0) {
            r.1 is None
        } else {
            unmaps(old(heap)@.inited(os.grants(0).arena), ptr as int, r.1)
        },
        size > 0 && r.0 != 0 ==> {
            &&& r.0 % 16 == 0
            &&& final(heap)@.block(r.0 as int) is Some
            &&& final(heap)@.block(r.0 as int)->0 >= size
        },
        ptr != 0 && size > 0 && r.0 != 0 ==> {
            &&& r.0 != ptr
            &&& final(heap)@.block(ptr as int) is None
            &&& forall|i: int|
                0 <= i < size && i < old(heap)@.block(ptr as int)->0 ==> #[trigger] final(heap).byte(r.0 + i)
                    == old(heap).byte(ptr + i)
        },
        ptr != 0 && size > 0 && r.0 != 0 ==> final(heap).copied_after(
            *old(heap),
            old(heap)@.move_target(old(heap).handle(*old(tls)), size as int, os.grants(size as int)).heap,
            ptr as int,
            r.0 as int,
            least(old(heap)@.block(ptr as int)->0, size as int),
        ),
        forall|x: int|
            final(heap)@.owns(x) && !(r.0 != 0 && r.0 <= x < r.0 + final(heap)@.block(r.0 as int)->0)
                ==> #[trigger] final(heap).byte(x) == old(heap).byte(x),
        r.0 == 0 && size > 0 ==> final(heap)@.same_blocks_but(old(heap)@, 0),
        ptr != 0 && size == 0 ==> final(heap)@.block(ptr as int) is None,
        final(heap)@.same_blocks_but_two(old(heap)@, ptr as int, r.0 as int),
        final(heap).continues(*old(heap)),
        final(heap).new_cache_on(
            final(heap).handle(*final(tls)),
            *old(heap),
            old(heap).handle(*old(tls)),
            if ptr == 0 || size == 0 || old(heap)@.move_target(
                old(heap).handle(*old(tls)),
                size as int,
                os.grants(size as int),
            ).handle != 0 {
                os.page
            } else {
                again
            },
        ),
{
    ferrum_realloc(heap, tls, os, again, ptr, size)
}

/// Result of `posix_memalign` for an alignment that is no power of two, or no
/// multiple of the size of an address.
pub const EINVAL: i32 = 22;

/// Result of `posix_memalign` if the allocation fails.
pub const ENOMEM: i32 = 12;

/// Allocates `size` bytes at an address that is a multiple of `alignment`, and
/// stores the address in `memptr`. The result is 0 on success, and an error
/// number if not, in which case `memptr` stays as it is.
///
/// Alignments up to 16 hold of every block. Up to a page, the block is mapped
/// directly. Larger ones are not supported.
pub fn posix_memalign(
    heap: &mut Heap,
    tls: &mut ThreadLocals,
    os: OsReplies,
    memptr: &mut usize,
    alignment: usize,
    size: usize,
) -> (r: i32)
    requires
        old(heap).wf(),
        old(heap).knows(*old(tls)),
        old(heap).offered(os),
    ensures
        final(heap).wf(),
        final(heap).knows(*final(tls)),
        ({
            let h = old(heap)@;
            let e = old(heap).handle(*old(tls));
            let out = h.aligned(e, alignment as int, size as int, os.grants(size as int));
            let p = out.ptr;
            &&& final(heap)@ == out.heap
            &&& final(heap).handle(*final(tls)) == out.handle
            &&& r == (if !HeapState::is_alignment(alignment as int) {
                EINVAL
            } else if p == 0 {
                ENOMEM
            } else {
                0
            })
            &&& *final(memptr) == (if r == 0 {
                p
            } else {
                *old(memptr) as int
            })
        }),
        r == 0 ==> {
            &&& *final(memptr) != 0
            &&& *final(memptr) % alignment == 0
            &&& size > 0 ==> final(heap)@.block(*final(memptr) as int) is Some && final(heap)@.block(
                *final(memptr) as int,
            )->0 >= size
            &&& final(heap)@.same_blocks_but(old(heap)@, *final(memptr) as int)
        },
        r != 0 ==> final(heap)@.same_blocks_but(old(heap)@, 0),
        final(heap).keeps_bytes(*old(heap)),
        final(heap).continues(*old(heap)),
        final(heap).new_cache_on(
            final(heap).handle(*final(tls)),
            *old(heap),
            old(heap).handle(*old(tls)),
            os.page,
        ),
{
    if alignment % 8 != 0 || !is_power_of_two(alignment) {
        return EINVAL;
    }
    let ptr: usize = if alignment <= 16 {
        ferrum_malloc(heap, tls, os, size)
    } else if alignment <= 4096 {
        proof {
            assert(heap.offered(OsReplies { arena: None, page: None, huge: os.huge }));
        }
        huge_block(heap, size, os.huge)
    } else {
        0
    };
    if ptr == 0 {
        return ENOMEM;
    }
    proof {
        lemma_alignment(alignment as int);
        assert(ptr as int % alignment as int == 0);
    }
    *memptr = ptr;
    0
}

/// Multiples of 16, and of a page, are multiples of the powers of two below.
proof fn lemma_alignment(n: int)
    requires
        vstd::arithmetic::power2::is_pow2(n),
        n % 8 == 0,
    ensures
        n > 0,
        n <= 16 ==> forall|p: int| p % 16 == 0 ==> #[trigger] (p % n) == 0,
        n <= 4096 ==> forall|p: int| p % 4096 == 0 ==> #[trigger] (p % n) == 0,
{
    reveal_with_fuel(vstd::arithmetic::power2::is_pow2, 14);
    if n <= 4096 {
        assert(n == 8 || n == 16 || n == 32 || n == 64 || n == 128 || n == 256 || n == 512 || n == 1024
            || n == 2048 || n == 4096);
        assert forall|p: int| p % 4096 == 0 implies #[trigger] (p % n) == 0 by {
            if n == 8 {
                assert(p % 8 == 0);
            } else if n == 16 {
                assert(p % 16 == 0);
            } else if n == 32 {
                assert(p % 32 == 0);
            } else if n == 64 {
                assert(p % 64 == 0);
            } else if n == 128 {
                assert(p % 128 == 0);
            } else if n == 256 {
                assert(p % 256 == 0);
            } else if n == 512 {
                assert(p % 512 == 0);
            } else if n == 1024 {
                assert(p % 1024 == 0);
            } else if n == 2048 {
                assert(p % 2048 == 0);
            }
        }
    }
}

/// The requests to the operating system that a call looks at the answers of.
#[derive(Clone, Copy)]
pub struct OsRequests {
    /// Memory for an arena.
    pub arena: bool,
    /// A page for a cache.
    pub page: bool,
    /// The size of a mapping for a huge block; 0 for none.
    pub huge: usize,
}

/// Whether the calling thread is to be given a cache.
fn wants_cache(heap: &Heap, tls: &ThreadLocals) -> (r: bool)
    requires
        heap.wf(),
        heap.knows(*tls),
    ensures
        r == (heap.handle(*tls) == 0 && heap@.next_id < MAX_THREADS),
{
    if heap.central.is_none() {
        return (heap.registry.next_thread_id as usize) < MAX_THREADS;
    }
    crate::platform::tls_get(tls, heap.registry.tls_key as u32) == 0
        && (heap.registry.next_thread_id as usize) < MAX_THREADS
}

/// How much is to be mapped for a huge block; 0 if the size overflows.
fn huge_request(size: usize) -> (r: usize)
    ensures
        r == (if size + 2 * PAGE_SIZE - 1 <= usize::MAX {
            HugeBlocks::total(size as int)
        } else {
            0
        }),
{
    if size > usize::MAX - (2 * PAGE_SIZE - 1) {
        return 0;
    }
    proof {
        crate::platform::lemma_page_size_pow2();
    }
    align_up(size + PAGE_SIZE, PAGE_SIZE)
}

/// What an allocation of `size` bytes will ask the operating system for. The
/// answers to other requests have no bearing on it.
pub fn malloc_requests(heap: &Heap, tls: &ThreadLocals, size: usize) -> (r: OsRequests)
    requires
        heap.wf(),
        heap.knows(*tls),
    ensures
        r.arena == (size > 0 && heap@.arena is None),
        r.page == (0 < size <= SLAB_MAX_SIZE && heap.handle(*tls) == 0 && heap@.next_id < MAX_THREADS),
        r.huge == (if size >= HUGE_ALLOC_THRESHOLD && size + 2 * PAGE_SIZE - 1 <= usize::MAX {
            HugeBlocks::total(size as int)
        } else {
            0
        }),
        forall|os: Grants|
            #[trigger] heap@.malloc(heap.handle(*tls), size as int, os) == heap@.malloc(
                heap.handle(*tls),
                size as int,
                os.asked(r.arena, r.page, size >= HUGE_ALLOC_THRESHOLD),
            ),
{
    OsRequests {
        arena: size > 0 && heap.central.is_none(),
        page: size > 0 && size <= SLAB_MAX_SIZE && wants_cache(heap, tls),
        huge: if size >= HUGE_ALLOC_THRESHOLD {
            huge_request(size)
        } else {
            0
        },
    }
}

/// What giving back `ptr` will ask the operating system for. The answers to
/// other requests have no bearing on it.
pub fn free_requests(heap: &Heap, tls: &ThreadLocals, ptr: usize) -> (r: OsRequests)
    requires
        heap.wf(),
        heap.knows(*tls),
    ensures
        r.arena == (ptr != 0 && heap@.arena is None),
        r.page == (ptr != 0 && heap.handle(*tls) == 0 && heap@.next_id < MAX_THREADS),
        r.huge == 0,
        forall|os: Grants|
            #[trigger] heap@.freed(heap.handle(*tls), ptr as int, os) == heap@.freed(
                heap.handle(*tls),
                ptr as int,
                os.asked(r.arena, r.page, false),
            ),
{
    OsRequests {
        arena: ptr != 0 && heap.central.is_none(),
        page: ptr != 0 && wants_cache(heap, tls),
        huge: 0,
    }
}

/// What changing the size of the block at `ptr` will ask the operating system
/// for, and whether it will ask for the page of a cache once more, if it has got
/// none. The answers to other requests have no bearing on it.
pub fn realloc_requests(heap: &Heap, tls: &ThreadLocals, ptr: usize, new_size: usize) -> (r: (
    OsRequests,
    bool,
))
    requires
        heap.wf(),
        heap.knows(*tls),
    ensures
        r.0.arena == ((ptr != 0 || new_size > 0) && heap@.arena is None),
        r.0.page == (if ptr != 0 && new_size == 0 {
            heap.handle(*tls) == 0 && heap@.next_id < MAX_THREADS
        } else {
            0 < new_size <= SLAB_MAX_SIZE && heap.handle(*tls) == 0 && heap@.next_id < MAX_THREADS
        }),
        r.0.huge == (if new_size >= HUGE_ALLOC_THRESHOLD && new_size + 2 * PAGE_SIZE - 1 <= usize::MAX {
            HugeBlocks::total(new_size as int)
        } else {
            0
        }),
        r.1 == (ptr != 0 && new_size > 0 && heap.handle(*tls) == 0 && heap@.next_id < MAX_THREADS - (
        if r.0.page {
            1int
        } else {
            0
        })),
        ptr != 0 && new_size > 0 ==> forall|os: Grants, again: bool|
            #[trigger] heap@.moved(heap.handle(*tls), ptr as int, new_size as int, os, again) == heap@.moved(
                heap.handle(*tls),
                ptr as int,
                new_size as int,
                os.asked(r.0.arena, r.0.page, new_size >= HUGE_ALLOC_THRESHOLD),
                again && r.1,
            ),
{
    if ptr != 0 && new_size == 0 {
        return (free_requests(heap, tls, ptr), false);
    }
    let first = malloc_requests(heap, tls, new_size);
    let taken: u16 = if first.page {
        1
    } else {
        0
    };
    let second: bool = ptr != 0 && new_size > 0 && wants_cache(heap, tls) && (heap.registry.next_thread_id
        as usize) < MAX_THREADS - taken as usize;
    proof {
        let h = heap@;
        let e = heap.handle(*tls);
        let huge = new_size >= HUGE_ALLOC_THRESHOLD;
        assert forall|os: Grants, again: bool| new_size > 0 implies #[trigger] h.moved(
            e,
            ptr as int,
            new_size as int,
            os,
            again,
        ) == h.moved(
            e,
            ptr as int,
            new_size as int,
            os.asked(first.arena, first.page, huge),
            again && second,
        ) by {
            let asked = os.asked(first.arena, first.page, huge);
            let m = h.move_target(e, new_size as int, os);
            laws::lemma_target_requests(h, e, new_size as int, os);
            assert(h.move_target(e, new_size as int, asked) == m);
            if !second && ptr != 0 {
                laws::lemma_no_page_asked(m.heap, m.handle, ptr as int, again);
            }
        }
    }
    (first, second)
}

/// What `posix_memalign` will ask the operating system for: nothing for an
/// alignment that it answers with an error. The answers to other requests have
/// no bearing on it.
pub fn memalign_requests(heap: &Heap, tls: &ThreadLocals, alignment: usize, size: usize) -> (r: OsRequests)
    requires
        heap.wf(),
        heap.knows(*tls),
    ensures
        !HeapState::is_alignment(alignment as int) ==> !r.arena && !r.page && r.huge == 0,
        HeapState::is_alignment(alignment as int) && alignment <= 16 ==> {
            &&& r.arena == (size > 0 && heap@.arena is None)
            &&& r.page == (0 < size <= SLAB_MAX_SIZE && heap.handle(*tls) == 0 && heap@.next_id
                < MAX_THREADS)
            &&& r.huge == (if size >= HUGE_ALLOC_THRESHOLD && size + 2 * PAGE_SIZE - 1 <= usize::MAX {
                HugeBlocks::total(size as int)
            } else {
                0
            })
        },
        HeapState::is_alignment(alignment as int) && alignment > 16 ==> {
            &&& !r.arena
            &&& !r.page
            &&& r.huge == (if alignment <= 4096 && size + 2 * PAGE_SIZE - 1 <= usize::MAX {
                HugeBlocks::total(size as int)
            } else {
                0
            })
        },
        forall|os: Grants|
            #[trigger] heap@.aligned(heap.handle(*tls), alignment as int, size as int, os) == heap@.aligned(
                heap.handle(*tls),
                alignment as int,
                size as int,
                os.asked(
                    r.arena,
                    r.page,
                    HeapState::is_alignment(alignment as int) && if alignment <= 16 {
                        size >= HUGE_ALLOC_THRESHOLD
                    } else {
                        alignment <= 4096
                    },
                ),
            ),
{
    if alignment % 8 != 0 || !is_power_of_two(alignment) {
        return OsRequests { arena: false, page: false, huge: 0 };
    }
    if alignment <= 16 {
        let r = malloc_requests(heap, tls, size);
        proof {
            let h = heap@;
            let e = heap.handle(*tls);
            assert forall|os: Grants|
                #[trigger] h.aligned(e, alignment as int, size as int, os) == h.aligned(
                    e,
                    alignment as int,
                    size as int,
                    os.asked(r.arena, r.page, size >= HUGE_ALLOC_THRESHOLD),
                ) by {
                assert(h.malloc(e, size as int, os) == h.malloc(
                    e,
                    size as int,
                    os.asked(r.arena, r.page, size >= HUGE_ALLOC_THRESHOLD),
                ));
            }
        }
        return r;
    }
    OsRequests {
        arena: false,
        page: false,
        huge: if alignment <= 4096 {
            huge_request(size)
        } else {
            0
        },
    }
}

impl Heap {
    /// Parts of an offer are an offer.
    pub proof fn lemma_offered_parts(self, os: OsReplies)
        requires
            self.offered(os),
        ensures
            self.offered(OsReplies { arena: os.arena, page: None, huge: None }),
            self.offered(OsReplies { arena: None, page: os.page, huge: os.huge }),
    {
    }

    /// A thread that has stored nothing yet has no cache, and can use the heap.
    pub proof fn new_threads_are_known(self, tls: ThreadLocals)
        requires
            self.wf(),
            tls@ == Map::<u32, usize>::empty(),
        ensures
            self.knows(tls),
            self.handle(tls) == 0,
    {
    }

    /// A thread that can use the heap is known to its state, too: the laws of
    /// the state apply to its handle.
    pub proof fn lemma_known(self, tls: ThreadLocals)
        requires
            self.wf(),
            self.knows(tls),
        ensures
            self@.wf(),
            self@.knows(self.handle(tls)),
    {
    }

    /// A heap in good order shows a state in good order, in which no block lies
    /// at the null address.
    pub proof fn lemma_state(self)
        requires
            self.wf(),
        ensures
            self@.wf(),
            self@.block(0) is None,
    {
        if self@.block(0) is Some {
            laws::lemma_block_place(self@, 0);
        }
    }

    /// A heap in good order shows a state in good order; making the arena
    /// changes no block.
    pub proof fn lemma_inited_blocks(self, os: OsReplies)
        requires
            self.wf(),
            self.offered(os),
        ensures
            self@.wf(),
            self@.inited(os.grants(0).arena).wf(),
            self@.inited(os.grants(0).arena).same_blocks_but(self@, 0),
            forall|x: int| self@.inited(os.grants(0).arena).owns(x) ==> #[trigger] self@.owns(x),
    {
        lemma_grants_new(self, os, 0);
        let g = os.grants(0).arena;
        steps::lemma_inited(self@, g);
        assert(self@.inited(g).same_blocks_but(self@, 0));
        assert forall|x: int| self@.inited(g).owns(x) implies #[trigger] self@.owns(x) by {
            let p = choose|p: int| #[trigger]
                self@.inited(g).block(p) is Some && p <= x < p + self@.inited(g).block(p)->0;
            laws::lemma_block_place(self@.inited(g), p);
            assert(self@.block(p) == self@.inited(g).block(p));
        }
    }
}

} // verus!
