//! No memory is lost: free slots stay within reach of the caches that own them,
//! and what is given back is where the next requests look for it.

use vstd::prelude::*;

use crate::api::laws;
use crate::api::model::{Grants, HeapState};
use crate::api::steps;
use crate::huge::HUGE_ALLOC_THRESHOLD;
use crate::size_class::{SizeClass, NUM_SIZE_CLASSES, SLAB_MAX_SIZE};
use crate::slab::laws::within_reach;
use crate::slab::SlabAllocator;
use crate::thread_cache::MAX_THREADS;

verus! {

/// Every page that has a free slot is in a list of the cache that owns it.
pub open spec fn slots_in_reach(h: HeapState) -> bool {
    h.arena is Some ==> forall|i: int|
        #![trigger h.arena->0.pages[i]]
        0 <= i < 512 && h.arena->0.pages[i].class != 0xFF && h.arena->0.pages[i].free.len() > 0
            ==> SlabAllocator::listed(h.slabs[h.arena->0.pages[i].owner]->0.lists, i)
}

/// A step of slab allocator `k` that leaves the pages of others alone.
proof fn lemma_step(h: HeapState, n: HeapState, k: int)
    requires
        h.wf(),
        h.arena is Some,
        n.arena is Some,
        0 <= k < MAX_THREADS,
        h.slabs[k] is Some,
        slots_in_reach(h),
        within_reach(n.slab(k), k),
        forall|m: int|
            0 <= m < MAX_THREADS && m != k ==> (#[trigger] n.slabs[m])->0.lists == h.slabs[m]->0.lists,
        forall|i: int|
            #![trigger n.arena->0.pages[i]]
            0 <= i < 512 && n.arena->0.pages[i].owner != k ==> n.arena->0.pages[i] == h.arena->0.pages[i],
    ensures
        slots_in_reach(n),
{
    let b = n.arena->0;
    assert forall|i: int|
        #![trigger b.pages[i]]
        0 <= i < 512 && b.pages[i].class != 0xFF && b.pages[i].free.len() > 0 implies SlabAllocator::listed(
        n.slabs[b.pages[i].owner]->0.lists,
        i,
    ) by {
        if b.pages[i].owner == k {
            assert(n.slab(k).arena.pages[i] == b.pages[i]);
        } else {
            assert(b.pages[i] == h.arena->0.pages[i]);
            assert(h.page_ok(i));
            assert(n.slabs[b.pages[i].owner]->0.lists == h.slabs[b.pages[i].owner]->0.lists);
        }
    }
}

/// The pages of one slab allocator, when no slot of the heap is lost.
proof fn lemma_slab(h: HeapState, k: int)
    requires
        h.wf(),
        h.arena is Some,
        0 <= k < MAX_THREADS,
        h.slabs[k] is Some,
        slots_in_reach(h),
    ensures
        within_reach(h.slab(k), k),
{
    let s = h.slab(k);
    assert forall|i: int|
        #![trigger s.arena.pages[i]]
        0 <= i < 512 && s.arena.pages[i].class != 0xFF && s.arena.pages[i].owner == k
            && s.arena.pages[i].free.len() > 0 implies SlabAllocator::listed(s.lists, i) by {
        assert(h.arena->0.pages[i] == s.arena.pages[i]);
    }
}

/// The slots on a cache's stack are in use, and in its own pages.
proof fn lemma_stack(h: HeapState, k: int)
    requires
        h.wf(),
        h.arena is Some,
        0 <= k < MAX_THREADS,
        h.slabs[k] is Some,
    ensures
        ({
            let ps = h.slabs[k]->0.pending;
            &&& ps.no_duplicates()
            &&& forall|i: int|
                #![trigger ps[i]]
                0 <= i < ps.len() ==> h.arena->0.used(ps[i]) && h.arena->0.page_of(ps[i]) < h.arena->0.next
                    && h.arena->0.pages[h.arena->0.page_of(ps[i])].owner == k
        }),
{
    assert(h.slab_ok(k));
    let ps = h.slabs[k]->0.pending;
    assert forall|i: int|
        #![trigger ps[i]]
        0 <= i < ps.len() implies h.arena->0.used(ps[i]) && h.arena->0.page_of(ps[i]) < h.arena->0.next
        && h.arena->0.pages[h.arena->0.page_of(ps[i])].owner == k by {
        assert(ps.contains(ps[i]));
        assert(h.stacked(k, ps[i]));
        steps::lemma_stacked(h, k, ps[i]);
    }
}

/// Emptying a stack brings its slots within reach.
proof fn lemma_drained(h: HeapState, k: int)
    requires
        h.wf(),
        h.arena is Some,
        0 <= k < MAX_THREADS,
        h.slabs[k] is Some,
        slots_in_reach(h),
    ensures
        h.drained(k).wf(),
        slots_in_reach(h.drained(k)),
{
    lemma_stack(h, k);
    lemma_slab(h, k);
    assert(h.slab_ok(k));
    let ps = h.slabs[k]->0.pending;
    let d = h.drained(k);
    steps::lemma_drained(h, k);
    crate::slab::laws::drained_keeps_reach(h.slab(k), ps, k);
    crate::slab::laws::drained_slots(h.slab(k), ps);
    assert(d.slab(k) == h.slab(k).drained(ps));
    assert forall|i: int| #![trigger d.arena->0.pages[i]] 0 <= i < 512 && d.arena->0.pages[i].owner
        != k implies d.arena->0.pages[i] == h.arena->0.pages[i] by {
        let t = h.slab(k).drained(ps);
        assert(t.arena.pages[i].owner == h.slab(k).arena.pages[i].owner);
        assert forall|m: int| #![trigger ps[m]] 0 <= m < ps.len() implies h.slab(k).arena.page_of(ps[m])
            != i by {};
        assert(t.arena.pages[i] == h.slab(k).arena.pages[i]);
    }
    lemma_step(h, d, k);
}

/// Handing out a slot puts none out of reach.
proof fn lemma_small(h: HeapState, k: int, class: int)
    requires
        h.wf(),
        h.arena is Some,
        0 <= k < MAX_THREADS,
        h.slabs[k] is Some,
        0 <= class < NUM_SIZE_CLASSES,
        slots_in_reach(h),
    ensures
        slots_in_reach(h.small(k, class).0),
{
    lemma_drained(h, k);
    steps::lemma_drained(h, k);
    let d = h.drained(k);
    assert(d.slab_ok(k));
    if d.slab(k).stocked(class, k) is Some {
        let sk = d.slab(k).stocked(class, k)->0;
        lemma_slab(d, k);
        assert forall|i: int| d.slab(k).arena.next <= i < 512 implies (
        #[trigger] d.slab(k).arena.pages[i]).class == 0xFF by {
            assert(d.page_ok(i));
        }
        crate::slab::laws::stocked_keeps_reach(d.slab(k), class, k);
        crate::slab::laws::lemma_stocked(d.slab(k), class, k);
        crate::slab::laws::served_keeps_reach(sk, class, k);
        let n = d.with_slab(k, sk.served(class));
        assert(n.slab(k) == sk.served(class));
        let top = sk.lists[class][0];
        assert(SlabAllocator::member(sk.lists, class, 0));
        if d.slab(k).lists[class].len() > 0 {
            assert(SlabAllocator::member(d.slab(k).lists, class, 0));
            assert(SlabAllocator::listed(d.slabs[k]->0.lists, top));
        }
        assert(sk.arena.pages[top].owner == k);
        assert forall|i: int| #![trigger n.arena->0.pages[i]] 0 <= i < 512 && n.arena->0.pages[i].owner
            != k implies n.arena->0.pages[i] == d.arena->0.pages[i] by {
            assert(i != top);
        }
        lemma_step(d, n, k);
    }
}

/// Blocks from the pool and whole pages put no slot out of reach.
proof fn lemma_large(h: HeapState, size: int)
    requires
        h.wf(),
        h.arena is Some,
        slots_in_reach(h),
    ensures
        slots_in_reach(h.large(size).0),
{
    let n = h.large(size).0;
    assert forall|i: int|
        #![trigger n.arena->0.pages[i]]
        0 <= i < 512 && n.arena->0.pages[i].class != 0xFF && n.arena->0.pages[i].free.len()
            > 0 implies SlabAllocator::listed(n.slabs[n.arena->0.pages[i].owner]->0.lists, i) by {
        assert(n.arena->0.pages[i] == h.arena->0.pages[i]);
    }
}

/// A new cache takes no page from another.
proof fn lemma_joined(h: HeapState, handle: int, page: bool)
    requires
        h.wf(),
        slots_in_reach(h),
    ensures
        slots_in_reach(h.joined(handle, page).heap),
{
    let n = h.joined(handle, page).heap;
    if h.arena is Some {
        assert forall|i: int|
            #![trigger n.arena->0.pages[i]]
            0 <= i < 512 && n.arena->0.pages[i].class != 0xFF && n.arena->0.pages[i].free.len()
                > 0 implies SlabAllocator::listed(n.slabs[n.arena->0.pages[i].owner]->0.lists, i) by {
            assert(n.arena->0.pages[i] == h.arena->0.pages[i]);
            assert(h.page_ok(i));
        }
    }
}

/// A new arena has no slots.
proof fn lemma_inited(h: HeapState, grant: Option<int>)
    requires
        slots_in_reach(h),
    ensures
        slots_in_reach(h.inited(grant)),
{
}

/// No free slot is lost by an allocation.
pub proof fn malloc_loses_no_slot(h: HeapState, handle: int, size: int, os: Grants)
    requires
        h.wf(),
        h.knows(handle),
        0 <= size,
        laws::grants_are_new(h, size, os),
        slots_in_reach(h),
    ensures
        slots_in_reach(h.malloc(handle, size, os).heap),
{
    let s1 = h.inited(os.arena);
    lemma_inited(h, os.arena);
    steps::lemma_inited(h, os.arena);
    assert(s1.knows(handle));
    if 0 < size < HUGE_ALLOC_THRESHOLD && s1.arena is Some {
        if size <= SLAB_MAX_SIZE {
            let j = s1.joined(handle, os.page);
            steps::lemma_joined(s1, handle, os.page);
            lemma_joined(s1, handle, os.page);
            if j.ptr == 0 {
                lemma_large(j.heap, size);
            } else {
                let class = HeapState::class_for(size);
                laws::lemma_class_exists(size);
                laws::lemma_class_for(size, class);
                lemma_small(j.heap, j.ptr - 1, class);
                laws::lemma_small(j.heap, j.ptr - 1, class);
                lemma_large(j.heap.small(j.ptr - 1, class).0, size);
            }
        } else {
            lemma_large(s1, size);
        }
    }
}

/// No free slot is lost when an address is given back.
pub proof fn free_loses_no_slot(h: HeapState, handle: int, p: int, os: Grants)
    requires
        h.wf(),
        h.knows(handle),
        laws::grants_are_new(h, 0, (Grants { huge: None, ..os })),
        h.inited(os.arena).may_free(p),
        slots_in_reach(h),
    ensures
        slots_in_reach(h.freed(handle, p, os).heap),
{
    let s1 = h.inited(os.arena);
    lemma_inited(h, os.arena);
    steps::lemma_inited(h, os.arena);
    assert(s1.knows(handle));
    let j = s1.joined(handle, os.page);
    steps::lemma_joined(s1, handle, os.page);
    lemma_joined(s1, handle, os.page);
    let s2 = j.heap;
    if p != 0 && s2.in_arena(p) && s2.class_at(p) != 0xFF {
        let a = s2.arena->0;
        assert(s2.block(p) is Some) by {
            assert(s2.block(p) == s1.block(p));
            assert(s1.class_at(p) == s2.class_at(p));
        }
        laws::lemma_block_place(s2, p);
        let i = a.page_of(p);
        let owner = a.pages[i].owner;
        assert(s2.page_ok(i));
        assert(s2.slab_ok(owner));
        let n = h.freed(handle, p, os).heap;
        if j.ptr != 0 && owner == j.ptr - 1 {
            lemma_slab(s2, owner);
            crate::slab::laws::returned_keeps_reach(s2.slab(owner), p, owner);
            assert(n == s2.with_slab(owner, s2.slab(owner).returned(p)));
            assert(n.slab(owner) == s2.slab(owner).returned(p));
            lemma_step(s2, n, owner);
        } else {
            lemma_slab(s2, owner);
            assert(n.slab(owner) == s2.slab(owner));
            lemma_step(s2, n, owner);
        }
    }
}

/// A new heap has no slots at all.
pub proof fn no_slot_is_lost_at_first()
    ensures
        slots_in_reach(HeapState::empty()),
{
}

/// A slot of the right size that is free, or waits on the thread's own stack,
/// serves the thread's next small request: no page is taken while there is
/// one. The right size is the smallest that is a multiple of 16 and has room.
pub proof fn free_slots_serve_before_new_pages(
    h: HeapState,
    handle: int,
    size: int,
    os: Grants,
    i: int,
)
    requires
        h.wf(),
        h.knows(handle),
        h.arena is Some,
        handle != 0,
        slots_in_reach(h),
        0 < size <= 1024,
        0 <= i < 512,
        ({
            let a = h.arena->0;
            let z = SizeClass::size(a.pages[i].class);
            &&& a.pages[i].class != 0xFF
            &&& a.pages[i].owner == handle - 1
            &&& size <= z
            &&& z % 16 == 0
            &&& forall|c: int|
                0 <= c < 22 && size <= #[trigger] SizeClass::size(c) && SizeClass::size(c) % 16 == 0 ==> z
                    <= SizeClass::size(c)
            &&& a.pages[i].free.len() > 0 || exists|p: int| #[trigger]
                h.slabs[handle - 1]->0.pending.contains(p) && a.page_of(p) == i
        }),
    ensures
        ({
            let out = h.malloc(handle, size, os);
            &&& out.ptr != 0
            &&& out.handle == handle
            &&& out.heap.arena->0.next == h.arena->0.next
            &&& out.heap.block(out.ptr) == Some(SizeClass::size(h.arena->0.pages[i].class))
            &&& out.heap.class_at(out.ptr) == h.arena->0.pages[i].class
        }),
{
    let k = handle - 1;
    let c = h.arena->0.pages[i].class;
    assert(h.inited(os.arena) == h);
    assert(h.joined(handle, os.page).heap == h);
    let class = HeapState::class_for(size);
    laws::lemma_class_exists(size);
    laws::lemma_class_for(size, class);
    crate::api::promises::lemma_smallest(size, class);
    if c < class {
        crate::size_class::lemma_sizes_increase(c, class);
    } else if class < c {
        crate::size_class::lemma_sizes_increase(class, c);
    }
    assert(c == class);
    lemma_drained(h, k);
    lemma_stack(h, k);
    steps::lemma_drained(h, k);
    let ps = h.slabs[k]->0.pending;
    let d = h.drained(k);
    assert(h.slab_ok(k));
    assert(d.slab_ok(k));
    crate::slab::laws::drained_slots(h.slab(k), ps);
    assert(d.slab(k) == h.slab(k).drained(ps));
    assert(d.arena->0.pages[i].class == class && d.arena->0.pages[i].owner == k) by {
        assert(d.slab(k).arena.pages[i].class == h.slab(k).arena.pages[i].class);
    }
    assert(d.arena->0.pages[i].free.len() > 0) by {
        if h.arena->0.pages[i].free.len() > 0 {
            assert(d.slab(k).arena.pages[i].free.len() >= h.slab(k).arena.pages[i].free.len());
        } else {
            let p = choose|p: int| #[trigger] ps.contains(p) && h.arena->0.page_of(p) == i;
            let m = ps.index_of(p);
            assert(ps[m] == p);
            crate::slab::laws::lemma_used(h.arena->0, p);
            assert(!d.slab(k).arena.used(p));
            let s = choose|s: int| #[trigger] h.arena->0.slot_used(i, s) && p == h.arena->0.slot(i, s);
            let e = d.slab(k).arena;
            assert(e.page_of(p) == i);
            assert(e.slot(i, s) == p);
            assert(!e.slot_used(i, s));
        }
    }
    lemma_slab(d, k);
    let l = d.slab(k).lists;
    assert(d.slab(k).arena.pages[i] == d.arena->0.pages[i]);
    assert(SlabAllocator::listed(l, i));
    let (x, y) = choose|x: int, y: int| #[trigger] SlabAllocator::member(l, x, y) && l[x][y] == i;
    assert(x == class);
    assert(l[class].len() > 0);
    assert(d.slab(k).stocked(class, k) == Some(d.slab(k)));
    steps::lemma_served(d, k, class);
}

/// What a thread gives back goes where it came from: a slot to the front of its
/// page if the thread owns it, a block of the pool into a free block, together
/// with its neighbours, and a run of pages among the spare ones. No page
/// changes hands.
pub proof fn what_is_given_back_becomes_free(h: HeapState, handle: int, p: int, os: Grants)
    requires
        h.wf(),
        h.knows(handle),
        h.in_arena(p),
        h.block(p) is Some,
    ensures
        ({
            let n = h.freed(handle, p, os).heap;
            let a = h.arena->0;
            let b = n.arena->0;
            let i = a.page_of(p);
            let z = h.block(p)->0;
            &&& n.wf()
            &&& b.next == a.next
            &&& n.huge == h.huge
            &&& h.class_at(p) != 0xFF && a.pages[i].owner == handle - 1 ==> {
                &&& b.pages[i].free.len() == a.pages[i].free.len() + 1
                &&& b.slot(i, b.pages[i].free[0]) == p
                &&& forall|j: int| 0 <= j < 512 && j != i ==> #[trigger] b.pages[j] == a.pages[j]
            }
            &&& h.class_at(p) != 0xFF && a.pages[i].owner != handle - 1 ==> n.slabs[a.pages[i].owner]->0.pending
                == seq![p] + h.slabs[a.pages[i].owner]->0.pending && b == a
            &&& h.class_at(p) != 0xFF ==> n.tlsf == h.tlsf && n.runs == h.runs
            &&& h.class_at(p) == 0xFF && h.in_pool(p) ==> {
                &&& n.runs == h.runs
                &&& b == a
                &&& exists|x: int| #[trigger]
                    n.tlsf.has(x) && n.tlsf.blocks[x].free && x <= p - 16 && p + z <= x + 16
                        + n.tlsf.blocks[x].size
            }
            &&& h.class_at(p) == 0xFF && !h.in_pool(p) ==> {
                &&& n.tlsf == h.tlsf
                &&& b == a
                &&& n.runs.sizes == h.runs.sizes
                &&& n.runs.spare == h.runs.spare.push(p)
                &&& n.runs.sizes[p] == z
            }
        }),
{
    laws::lemma_block_place(h, p);
    assert(h.inited(os.arena) == h);
    steps::lemma_joined(h, handle, os.page);
    let j = h.joined(handle, os.page);
    let s = j.heap;
    let n = h.freed(handle, p, os).heap;
    let plain = Grants { arena: None, page: os.page, huge: None };
    assert(h.freed(handle, p, plain) == h.freed(handle, p, os));
    laws::free_takes_the_block_back(h, handle, p, plain);
    assert(p != 0);
    assert(s.block(p) == h.block(p));
    let a = h.arena->0;
    let i = a.page_of(p);
    if h.class_at(p) != 0xFF {
        assert(h.page_ok(i));
        let owner = a.pages[i].owner;
        assert(s.slab_ok(owner));
        if owner == handle - 1 {
            crate::slab::laws::given_back_slot_is_first_of_its_page(s.slab(owner), p);
            assert(n == s.with_slab(owner, s.slab(owner).returned(p)));
        } else {
            laws::remote_free_waits_for_the_owner(h, handle, p, os);
        }
    } else if h.in_pool(p) {
        crate::tlsf::laws::given_back_block_is_free(h.tlsf, p);
        let t = h.tlsf;
        let c = p + t.blocks[p - 16].size;
        assert(t.next(p - 16) == c);
        assert(t.has(c));
        let x = if t.blocks[p - 16].prev matches Some(q) && t.blocks[q].free {
            t.blocks[p - 16].prev->0
        } else {
            p - 16
        };
        if x != p - 16 {
            assert(t.has(x));
        }
        assert(n.tlsf == t.freed(p));
        assert(n.tlsf.has(x));
    }
}

/// A block of the pool serves again once it has been given back: every request
/// that is smaller by a seventeenth. So does a run of pages, for every request
/// that is no larger.
pub proof fn what_is_given_back_serves_again(
    h: HeapState,
    handle: int,
    p: int,
    os: Grants,
    size: int,
    need: int,
    pages: int,
    again: Grants,
)
    requires
        h.wf(),
        h.knows(handle),
        h.in_arena(p),
        h.block(p) is Some,
        h.class_at(p) == 0xFF,
        0 < size < 0x4_0000,
        need % 16 == 0,
        size <= need,
        pages * 4096 - 4096 < size <= pages * 4096,
        if h.in_pool(p) {
            17 * need <= 16 * h.block(p)->0
        } else {
            size <= h.block(p)->0
        },
    ensures
        ({
            let f = h.freed(handle, p, os);
            f.heap.malloc(f.handle, size, again).ptr != 0
        }),
{
    let f = h.freed(handle, p, os);
    what_is_given_back_becomes_free(h, handle, p, os);
    assert(h.inited(os.arena) == h);
    let plain = Grants { arena: None, page: os.page, huge: None };
    assert(h.freed(handle, p, plain) == f);
    laws::free_takes_the_block_back(h, handle, p, plain);
    if f.heap.malloc(f.handle, size, again).ptr == 0 {
        crate::api::promises::requests_fail_only_without_room(f.heap, f.handle, size, again, need, pages);
        if h.in_pool(p) {
            let x = choose|x: int| #[trigger]
                f.heap.tlsf.has(x) && f.heap.tlsf.blocks[x].free && x <= p - 16 && p + h.block(p)->0 <= x
                    + 16 + f.heap.tlsf.blocks[x].size;
            assert(f.heap.tlsf.has(x));
        } else {
            assert(f.heap.runs.spare[h.runs.spare.len() as int] == p);
            assert(f.heap.runs.spare.contains(p));
        }
    }
}

} // verus!
