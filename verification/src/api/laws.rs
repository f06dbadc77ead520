//! What holds of the blocks that a heap hands out.

use vstd::prelude::*;

use crate::api::model::{Grants, HeapState, Outcome, FIRST_PAGE};
use crate::api::steps;
use crate::arena::{META_PAGES, PAGES_PER_ARENA};
use crate::huge::{HugeBlocks, HUGE_ALLOC_THRESHOLD};
use crate::platform::DEFAULT_ARENA_SIZE;
use crate::size_class::{SizeClass, NUM_SIZE_CLASSES, SLAB_MAX_SIZE};
use crate::thread_cache::MAX_THREADS;

verus! {

/// Where a block lies: a slot in a page of slots, a block of the pool, a block
/// of whole pages, or outside the arena.
pub proof fn lemma_block_place(h: HeapState, p: int)
    requires
        h.wf(),
        h.block(p) is Some,
    ensures
        ({
            let n = h.block(p)->0;
            let a = h.arena->0;
            let i = a.page_of(p);
            &&& p > 0
            &&& n >= 0
            &&& p + n <= usize::MAX
            &&& h.in_arena(p) ==> n > 0
            &&& h.in_arena(p) && h.class_at(p) != 0xFF ==> {
                &&& a.used(p)
                &&& FIRST_PAGE <= i < a.next
                &&& a.page(i) <= p
                &&& p + n <= a.page(i) + 4096
                &&& n == SizeClass::size(a.pages[i].class)
                &&& n >= 8
            }
            &&& h.in_arena(p) && h.class_at(p) == 0xFF && h.in_pool(p) ==> {
                &&& h.tlsf.live(p)
                &&& h.tlsf.start + 16 <= p
                &&& p + n <= h.tlsf.end
            }
            &&& h.in_arena(p) && h.class_at(p) == 0xFF && !h.in_pool(p) ==> {
                &&& h.runs.sizes.dom().contains(p)
                &&& h.run_ok(p)
                &&& n == h.runs.sizes[p]
            }
            &&& !h.in_arena(p) ==> {
                &&& h.huge.dom().contains(p)
                &&& n == h.huge[p]
            }
        }),
{
    if h.in_arena(p) {
        let a = h.arena->0;
        if h.class_at(p) != 0xFF {
            crate::slab::laws::lemma_used(a, p);
            assert(h.page_ok(a.page_of(p)));
        } else if h.in_pool(p) {
            assert(h.tlsf.has(p - 16));
        } else {
            assert(h.run_ok(p));
        }
    } else {
        assert(h.huge.dom().contains(p));
    }
}

/// Two blocks that the client holds share no byte.
pub proof fn blocks_are_disjoint(h: HeapState, p: int, q: int)
    requires
        h.wf(),
        h.block(p) is Some,
        h.block(q) is Some,
        p < q,
    ensures
        p + h.block(p)->0 <= q,
{
    lemma_block_place(h, p);
    lemma_block_place(h, q);
    let a = h.arena->0;
    if h.in_arena(p) && h.in_arena(q) {
        let i = a.page_of(p);
        let j = a.page_of(q);
        if h.class_at(p) != 0xFF {
            if h.class_at(q) != 0xFF {
                crate::slab::laws::used_slots_are_disjoint(a, p, q);
            } else if !h.in_pool(q) {
                assert(q == a.page(j));
            }
        } else if h.in_pool(p) {
            if h.class_at(q) == 0xFF && h.in_pool(q) {
                assert(h.tlsf.has(p - 16) && h.tlsf.has(q - 16));
            }
        } else {
            let n = h.runs.sizes[p] / 4096;
            if h.class_at(q) != 0xFF {
                if i <= j < i + n {
                    assert(a.pages[j].class == 0xFF);
                }
            } else if !h.in_pool(q) {
                assert(h.runs.sizes.dom().contains(p) && h.runs.sizes.dom().contains(q));
            }
        }
    } else if !h.in_arena(p) && !h.in_arena(q) {
        assert(h.huge.dom().contains(p) && h.huge.dom().contains(q));
    } else if h.in_arena(p) {
        assert(h.huge.dom().contains(q));
        if !h.in_pool(p) && h.class_at(p) == 0xFF {
            assert(h.run_ok(p));
        }
    } else {
        assert(h.huge.dom().contains(p));
    }
}

/// A byte that the client holds is none that the heap keeps its own records
/// in: it lies in no page that has not been handed out, is the client's to the
/// pool, and lies neither in a free slot nor in one on a stack.
pub proof fn lemma_owned(h: HeapState, x: int)
    requires
        h.wf(),
        h.arena is Some,
        h.owns(x),
    ensures
        h.in_arena(x) ==> {
            let a = h.arena->0;
            &&& a.page(META_PAGES as int) <= x < a.page(a.next)
            &&& h.tlsf.client(x)
            &&& forall|p: int| #[trigger]
                a.used(p) && h.block(p) is None ==> !(p <= x < p + SizeClass::size(
                    a.pages[a.page_of(p)].class,
                ))
            &&& forall|i: int, s: int|
                #![trigger a.slot(i, s)]
                0 <= i < PAGES_PER_ARENA && a.pages[i].class != 0xFF && a.pages[i].free.contains(s)
                    ==> !(a.slot(i, s) <= x < a.slot(i, s) + SizeClass::size(a.pages[i].class))
        },
        !h.in_arena(x) ==> exists|p: int| #[trigger]
            h.huge.dom().contains(p) && p <= x < p + h.huge[p],
{
    let a = h.arena->0;
    let b = choose|b: int| #[trigger] h.block(b) is Some && b <= x < b + h.block(b)->0;
    lemma_block_place(h, b);
    if h.in_arena(b) {
        let i = a.page_of(b);
        assert(h.in_arena(x)) by {
            if h.class_at(b) == 0xFF && !h.in_pool(b) {
                assert(h.run_ok(b));
            }
        }
        assert(h.tlsf.client(x)) by {
            if h.class_at(b) == 0xFF && h.in_pool(b) {
                let m = b - 16;
                assert(h.tlsf.has(m) && !h.tlsf.blocks[m].free && m + 16 <= x < h.tlsf.next(m));
                assert(h.tlsf.in_use(x));
            } else {
                assert(x >= h.tlsf.end) by {
                    if h.class_at(b) == 0xFF {
                        assert(h.run_ok(b));
                    }
                }
                if h.tlsf.covers(x) {
                    let m = choose|m: int| #[trigger] h.tlsf.has(m) && m <= x < h.tlsf.next(m);
                    assert(h.tlsf.has(m));
                }
            }
        }
        assert forall|p: int| #[trigger] a.used(p) && h.block(p) is None implies !(p <= x < p + SizeClass::size(
            a.pages[a.page_of(p)].class,
        )) by {
            crate::slab::laws::lemma_used(a, p);
            if h.class_at(b) != 0xFF {
                crate::slab::laws::lemma_used(a, b);
            }
            lemma_apart_from_slot(h, b, x, a.page_of(p), a.index_of(p));
        }
        assert forall|i: int, s: int|
            #![trigger a.slot(i, s)]
            0 <= i < PAGES_PER_ARENA && a.pages[i].class != 0xFF && a.pages[i].free.contains(s) implies !(
        a.slot(i, s) <= x < a.slot(i, s) + SizeClass::size(a.pages[i].class)) by {
            let f = a.pages[i].free;
            let k = f.index_of(s);
            assert(f[k] == s);
            if h.class_at(b) != 0xFF {
                crate::slab::laws::lemma_used(a, b);
            }
            lemma_apart_from_slot(h, b, x, i, s);
        }
    } else {
        assert(h.huge.dom().contains(b));
    }
}

/// A block is apart from every slot that is not the block itself.
proof fn lemma_apart_from_slot(h: HeapState, b: int, x: int, i: int, s: int)
    requires
        h.wf(),
        h.arena is Some,
        h.block(b) is Some,
        h.in_arena(b),
        b <= x < b + h.block(b)->0,
        0 <= i < PAGES_PER_ARENA,
        h.arena->0.pages[i].class != 0xFF,
        0 <= s < SizeClass::slots(h.arena->0.pages[i].class, 4096),
        h.class_at(b) != 0xFF && h.arena->0.page_of(b) == i ==> h.arena->0.index_of(b) != s,
    ensures
        ({
            let a = h.arena->0;
            !(a.slot(i, s) <= x < a.slot(i, s) + SizeClass::size(a.pages[i].class))
        }),
{
    let a = h.arena->0;
    let c = a.pages[i].class;
    let z = SizeClass::size(c);
    assert(h.page_ok(i));
    crate::size_class::lemma_sizes(c);
    crate::size_class::lemma_slots(c);
    crate::arena::lemma_slot_in_page(a.page(i), z, SizeClass::slots(c, 4096), s);
    lemma_block_place(h, b);
    let j = a.page_of(b);
    if h.class_at(b) != 0xFF {
        crate::slab::laws::lemma_used(a, b);
        if i == j {
            let t = a.index_of(b);
            if s < t {
                crate::arena::lemma_slots_apart(a.page(i), z, s, t);
            } else {
                crate::arena::lemma_slots_apart(a.page(i), z, t, s);
            }
        }
    } else if !h.in_pool(b) {
        let n = h.runs.sizes[b] / 4096;
        if j <= i < j + n {
            assert(a.pages[i].class == 0xFF);
        }
    }
}

/// What the operating system grants is new to the heap: page-aligned mappings
/// that share no address with those in use, nor with each other.
pub open spec fn grants_are_new(h: HeapState, size: int, os: Grants) -> bool {
    &&& os.arena matches Some(base) ==> {
        &&& base > 0
        &&& base % 4096 == 0
        &&& base + DEFAULT_ARENA_SIZE <= usize::MAX
        &&& forall|p: int| #[trigger]
            h.huge.dom().contains(p) ==> p + h.huge[p] <= base || base + DEFAULT_ARENA_SIZE <= p - 4096
    }
    &&& os.huge matches Some(base) ==> {
        let total = HugeBlocks::total(size);
        &&& base > 0
        &&& base % 4096 == 0
        &&& base + total <= usize::MAX
        &&& forall|p: int| #[trigger]
            h.huge.dom().contains(p) ==> base + total <= p - 4096 || p + h.huge[p] <= base
        &&& h.arena matches Some(a) ==> base + total <= a.base || a.base + DEFAULT_ARENA_SIZE <= base
        &&& os.arena matches Some(b) ==> base + total <= b || b + DEFAULT_ARENA_SIZE <= base
    }
}

/// The class of a request is one that its rounded size fits.
pub proof fn lemma_class_for(size: int, class: int)
    requires
        0 < size <= SLAB_MAX_SIZE,
        SizeClass::fits(class, HeapState::rounded(size)),
    ensures
        HeapState::class_for(size) == class,
        SizeClass::size(class) % 16 == 0,
        SizeClass::size(class) >= size,
{
    let c = HeapState::class_for(size);
    assert(SizeClass::fits(c, HeapState::rounded(size)));
    crate::size_class::lemma_one_class(c, class, HeapState::rounded(size));
    crate::size_class::lemma_aligned_class(class, HeapState::rounded(size));
}

/// A class exists for every small request.
pub proof fn lemma_class_exists(size: int)
    requires
        0 < size <= SLAB_MAX_SIZE,
    ensures
        SizeClass::fits(HeapState::class_for(size), HeapState::rounded(size)),
{
    let r = HeapState::rounded(size);
    lemma_some_class(r, NUM_SIZE_CLASSES - 1);
    let c = choose|c: int| SizeClass::fits(c, r);
}

/// Some class fits a size that the class `top` has room for.
proof fn lemma_some_class(size: int, top: int)
    requires
        0 <= top < NUM_SIZE_CLASSES,
        size <= SizeClass::size(top),
        size > 0,
    ensures
        exists|c: int| SizeClass::fits(c, size),
    decreases top,
{
    if top > 0 && size <= SizeClass::size(top - 1) {
        lemma_some_class(size, top - 1);
    } else {
        assert forall|d: int| 0 <= d < top implies #[trigger] SizeClass::size(d) < size by {
            if d < top - 1 {
                crate::size_class::lemma_sizes_increase(d, top - 1);
            }
        }
        assert(SizeClass::fits(top, size));
    }
}

/// A slot from a cache: a new block of the class's size, and no other change.
pub proof fn lemma_small(h: HeapState, k: int, class: int)
    requires
        h.wf(),
        h.arena is Some,
        0 <= k < MAX_THREADS,
        h.slabs[k] is Some,
        0 <= class < NUM_SIZE_CLASSES,
    ensures
        ({
            let (n, r) = h.small(k, class);
            &&& n.wf()
            &&& n.arena is Some
            &&& n.arena->0.base == h.arena->0.base
            &&& n.huge == h.huge
            &&& r == 0 ==> forall|p: int| #[trigger] n.block(p) == h.block(p)
            &&& r != 0 ==> {
                &&& r > 0
                &&& h.block(r) is None
                &&& n.block(r) == Some(SizeClass::size(class))
                &&& SizeClass::size(class) % 16 == 0 ==> r % 16 == 0
                &&& forall|p: int| p != r ==> #[trigger] n.block(p) == h.block(p)
            }
        }),
{
    steps::lemma_drained(h, k);
    let d = h.drained(k);
    match d.slab(k).stocked(class, k) {
        Some(sk) => {
            steps::lemma_served(d, k, class);
            let r = sk.next_slot(class);
            assert(d.block(r) == h.block(r));
            let n = d.with_slab(k, sk.served(class));
            assert forall|p: int| p != r implies #[trigger] n.block(p) == h.block(p) by {
                assert(d.block(p) == h.block(p));
            }
        },
        None => {},
    }
}

/// A block from the pool or of whole pages: new, large enough, aligned, and no
/// other change.
pub proof fn lemma_large(h: HeapState, size: int)
    requires
        h.wf(),
        h.arena is Some,
        size > 0,
    ensures
        ({
            let (n, r) = h.large(size);
            &&& n.wf()
            &&& r == 0 ==> n == h
            &&& r != 0 ==> {
                &&& r > 0
                &&& h.block(r) is None
                &&& n.block(r) is Some
                &&& n.block(r)->0 >= size
                &&& r % 16 == 0
                &&& forall|p: int| p != r ==> #[trigger] n.block(p) == h.block(p)
            }
        }),
{
    if let Some(b) = h.tlsf.fit(size) {
        let n = HeapState { tlsf: h.tlsf.allocated(size), ..h };
        assert(h.large(size) == (n, b + 16));
        steps::lemma_pool_alloc(h, size);
    } else {
        lemma_whole_pages(h, size);
    }
}

/// A run of whole pages: new to the client, large enough, aligned, and no other
/// change.
pub proof fn lemma_whole_pages(h: HeapState, size: int)
    requires
        h.wf(),
        h.arena is Some,
        size > 0,
    ensures
        ({
            let (n, r) = h.whole_pages((size + 4095) / 4096);
            &&& n.wf()
            &&& r == 0 ==> n == h
            &&& r != 0 ==> {
                &&& r > 0
                &&& h.block(r) is None
                &&& n.block(r) is Some
                &&& n.block(r)->0 >= size
                &&& r % 16 == 0
                &&& n.runs.held(r)
                &&& n.runs.sizes[r] >= (size + 4095) / 4096 * 4096
                &&& n.in_arena(r) && n.class_at(r) == 0xFF && !n.in_pool(r)
                &&& forall|p: int| p != r ==> #[trigger] n.block(p) == h.block(p)
            }
        }),
{
    let a = h.arena->0;
    let m = (size + 4095) / 4096;
    let (n, r) = h.whole_pages(m);
    crate::api::runs::lemma_fit(h.runs, 0, m * 4096);
    if let Some(i) = h.runs.fit(m * 4096) {
        steps::lemma_run_taken(h, i);
        crate::api::runs::lemma_taken(h.runs, i);
        assert(n.runs.sizes.dom().contains(r));
        steps::lemma_run_place(n, r);
    } else if a.next + m <= PAGES_PER_ARENA {
        steps::lemma_run_added(h, size);
        assert(n.runs.sizes.dom().contains(r));
        steps::lemma_run_place(n, r);
    }
}

/// What an allocation hands out is a new block: none of those held before, at
/// least as large as asked for, and aligned to 16 bytes. The blocks held before
/// are held after, with the same sizes. A failed allocation leaves the blocks
/// as they are.
pub proof fn malloc_hands_out_a_new_block(h: HeapState, handle: int, size: int, os: Grants)
    requires
        h.wf(),
        h.knows(handle),
        size >= 0,
        grants_are_new(h, size, os),
    ensures
        ({
            let out = h.malloc(handle, size, os);
            &&& out.heap.wf()
            &&& out.heap.knows(out.handle)
            &&& out.heap.same_blocks_but(h, out.ptr)
            &&& out.ptr != 0 ==> {
                &&& h.block(out.ptr) is None || h.block(out.ptr) == Some(0int)
                &&& out.heap.block(out.ptr) is Some
                &&& out.heap.block(out.ptr)->0 >= size
                &&& out.ptr % 16 == 0
            }
        }),
{
    let s1 = h.inited(os.arena);
    steps::lemma_inited(h, os.arena);
    assert(s1.same_blocks_but(h, 0));
    assert(s1.knows(handle));
    let out = h.malloc(handle, size, os);
    if size == 0 {
    } else if size >= HUGE_ALLOC_THRESHOLD {
        if let Some(base) = os.huge {
            let len = HugeBlocks::total(size) - 4096;
            steps::lemma_huge_gained(s1, base, len);
            lemma_blocks_chain(h, s1, out.heap, out.ptr);
        }
    } else if s1.arena is None {
    } else if size <= SLAB_MAX_SIZE {
        let j = s1.joined(handle, os.page);
        steps::lemma_joined(s1, handle, os.page);
        assert(j.heap.same_blocks_but(h, 0));
        if j.ptr == 0 {
            lemma_large(j.heap, size);
            lemma_blocks_chain(h, j.heap, out.heap, out.ptr);
        } else {
            let class = HeapState::class_for(size);
            lemma_class_exists(size);
            lemma_class_for(size, class);
            lemma_small(j.heap, j.ptr - 1, class);
            let (s2, p) = j.heap.small(j.ptr - 1, class);
            lemma_small_keeps_caches(j.heap, j.ptr - 1, class, j.handle);
            if p != 0 {
                lemma_blocks_chain(h, j.heap, out.heap, out.ptr);
            } else {
                assert(s2.same_blocks_but(h, 0));
                lemma_large(s2, size);
                lemma_blocks_chain(h, s2, out.heap, out.ptr);
            }
        }
    } else {
        lemma_large(s1, size);
        lemma_blocks_chain(h, s1, out.heap, out.ptr);
    }
}

/// An allocation moves neither the arena nor a huge block.
pub proof fn lemma_places_stay(h: HeapState, handle: int, size: int, os: Grants, p: int)
    requires
        h.wf(),
        h.knows(handle),
        size > 0,
        grants_are_new(h, size, os),
        h.inited(os.arena).block(p) is Some,
        h.malloc(handle, size, os).ptr != p,
    ensures
        ({
            let s = h.inited(os.arena);
            let n = h.malloc(handle, size, os).heap;
            &&& n.in_arena(p) == s.in_arena(p)
            &&& n.huge.dom().contains(p) == s.huge.dom().contains(p)
            &&& s.huge.dom().contains(p) ==> n.huge[p] == s.huge[p]
        }),
{
    let s1 = h.inited(os.arena);
    steps::lemma_inited(h, os.arena);
    assert(s1.knows(handle));
    if size <= SLAB_MAX_SIZE && s1.arena is Some {
        let j = s1.joined(handle, os.page);
        steps::lemma_joined(s1, handle, os.page);
        if j.ptr != 0 {
            let class = HeapState::class_for(size);
            lemma_class_exists(size);
            lemma_class_for(size, class);
            lemma_small(j.heap, j.ptr - 1, class);
        }
    }
}

/// Allocating from a cache takes no cache away.
proof fn lemma_small_keeps_caches(h: HeapState, k: int, class: int, handle: int)
    requires
        h.wf(),
        h.arena is Some,
        0 <= k < MAX_THREADS,
        h.slabs[k] is Some,
        h.knows(handle),
    ensures
        h.small(k, class).0.knows(handle),
{
    let d = h.drained(k);
    steps::lemma_drained(h, k);
    if handle != 0 {
        assert(d.slabs[handle - 1] is Some);
    }
}

/// A change of one block after a change of none.
proof fn lemma_blocks_chain(h: HeapState, m: HeapState, n: HeapState, r: int)
    requires
        m.same_blocks_but(h, 0),
        h.wf(),
        m.wf(),
        r == 0 ==> n == m,
        forall|p: int| p != r ==> #[trigger] n.block(p) == m.block(p),
        r != 0 ==> m.block(r) is None,
    ensures
        n.same_blocks_but(h, r),
        r != 0 && h.block(r) is Some ==> h.block(r)->0 == 0,
{
    assert forall|p: int| #[trigger] n.block(p) is Some && p != r implies h.block(p) == n.block(p) by {
        assert(n.block(p) == m.block(p));
        if p == 0 {
            lemma_block_place(m, p);
        }
    }
    assert forall|p: int| #[trigger] h.block(p) is Some && h.block(p)->0 > 0 && p != r implies n.block(p)
        == h.block(p) by {
        if p == 0 {
            lemma_block_place(h, p);
        }
        assert(n.block(p) == m.block(p));
    }
    if r != 0 && h.block(r) is Some {
        lemma_block_place(h, r);
        assert(m.block(r) is None);
    }
}

/// A change of the block at `p` after a change of none.
proof fn lemma_loss_chain(h: HeapState, m: HeapState, n: HeapState, p: int)
    requires
        m.same_blocks_but(h, 0),
        h.wf(),
        m.wf(),
        forall|q: int| q != p ==> #[trigger] n.block(q) == m.block(q),
    ensures
        n.same_blocks_but(h, p),
{
    assert forall|q: int| #[trigger] n.block(q) is Some && q != p implies h.block(q) == n.block(q) by {
        assert(n.block(q) == m.block(q));
        if q == 0 {
            lemma_block_place(m, q);
        }
    }
    assert forall|q: int| #[trigger] h.block(q) is Some && h.block(q)->0 > 0 && q != p implies n.block(q)
        == h.block(q) by {
        if q == 0 {
            lemma_block_place(h, q);
        }
        assert(n.block(q) == m.block(q));
    }
}

/// Giving an address back: the block there, if there is one, is no longer the
/// client's; the other blocks are held as before.
pub proof fn free_takes_the_block_back(h: HeapState, handle: int, p: int, os: Grants)
    requires
        h.wf(),
        h.knows(handle),
        grants_are_new(h, 0, (Grants { huge: None, ..os })),
        h.inited(os.arena).may_free(p),
    ensures
        ({
            let out = h.freed(handle, p, os);
            &&& out.heap.wf()
            &&& out.heap.knows(out.handle)
            &&& out.heap.same_blocks_but(h, p)
            &&& out.heap.block(p) is None
        }),
{
    let s1 = h.inited(os.arena);
    steps::lemma_inited(h, os.arena);
    assert(s1.same_blocks_but(h, 0));
    assert(s1.knows(handle));
    let j = s1.joined(handle, os.page);
    steps::lemma_joined(s1, handle, os.page);
    let s2 = j.heap;
    assert(s2.same_blocks_but(h, 0));
    let out = h.freed(handle, p, os);
    let n = out.heap;
    if p == 0 {
        if h.block(0) is Some {
            lemma_block_place(h, 0);
        }
    } else if s2.in_arena(p) {
        let a = s2.arena->0;
        if s2.class_at(p) != 0xFF {
            assert(s2.block(p) is Some) by {
                assert(s2.block(p) == s1.block(p));
                assert(s1.class_at(p) == s2.class_at(p));
            }
            lemma_block_place(s2, p);
            let owner = a.pages[a.page_of(p)].owner;
            assert(s2.page_ok(a.page_of(p)));
            if j.ptr != 0 && owner == j.ptr - 1 {
                steps::lemma_returned(s2, owner, p);
            } else {
                steps::lemma_pushed(s2, p);
            }
        } else if s2.in_pool(p) {
            assert(s2.block(p) is Some) by {
                assert(s2.block(p) == s1.block(p));
                assert(s1.class_at(p) == s2.class_at(p));
            }
            steps::lemma_pool_free(s2, p);
        } else {
            steps::lemma_run_given_back(s2, p);
        }
        lemma_loss_chain(h, s2, n, p);
    } else {
        steps::lemma_huge_lost(s2, p);
        lemma_loss_chain(h, s2, n, p);
    }
}

/// Giving a new block back leaves the blocks that were held before it was
/// handed out.
pub proof fn free_undoes_malloc(h: HeapState, handle: int, size: int, os: Grants, again: Grants)
    requires
        h.wf(),
        h.knows(handle),
        size > 0,
        grants_are_new(h, size, os),
        ({
            let out = h.malloc(handle, size, os);
            &&& out.ptr != 0
            &&& grants_are_new(out.heap, 0, (Grants { huge: None, ..again }))
        }),
    ensures
        ({
            let out = h.malloc(handle, size, os);
            let back = out.heap.freed(out.handle, out.ptr, again);
            &&& back.heap.wf()
            &&& back.heap.same_blocks_but(h, 0)
        }),
{
    malloc_hands_out_a_new_block(h, handle, size, os);
    let out = h.malloc(handle, size, os);
    let m = out.heap;
    let r = out.ptr;
    steps::lemma_inited(m, again.arena);
    assert(m.inited(again.arena).same_blocks_but(m, 0));
    assert(m.inited(again.arena).block(r) == m.block(r));
    free_takes_the_block_back(m, out.handle, r, again);
    let n = m.freed(out.handle, r, again).heap;
    assert forall|p: int| #[trigger] h.block(p) is Some && h.block(p)->0 > 0 && p != 0 implies n.block(p)
        == h.block(p) by {
        assert(m.block(p) == h.block(p));
    }
    assert forall|p: int| #[trigger] n.block(p) is Some && p != 0 implies h.block(p) == n.block(p) by {
        assert(p != r);
        assert(m.block(p) == n.block(p));
    }
}

/// A slot that a thread gives back straight after its cache handed it out is
/// the next one that the cache hands out for the class.
pub proof fn freed_slot_is_reused(h: HeapState, k: int, class: int, os: Grants)
    requires
        h.wf(),
        h.arena is Some,
        0 <= k < MAX_THREADS,
        h.slabs[k] is Some,
        0 <= class < NUM_SIZE_CLASSES,
        h.small(k, class).1 != 0,
    ensures
        ({
            let (n, p) = h.small(k, class);
            n.freed(k + 1, p, os).heap.small(k, class).1 == p
        }),
{
    steps::lemma_drained(h, k);
    let d = h.drained(k);
    let sk = d.slab(k).stocked(class, k)->0;
    let s = sk.served(class);
    let (n, p) = h.small(k, class);
    assert(d.slabs[k]->0.pending =~= Seq::<int>::empty());
    assert(d.slab_ok(k));
    assert forall|i: int| d.arena->0.next <= i < PAGES_PER_ARENA implies (#[trigger] d.arena->0.pages[i]).class
        == 0xFF by {
        assert(d.page_ok(i));
    }
    crate::slab::laws::lemma_stocked(d.slab(k), class, k);
    steps::lemma_served(d, k, class);
    crate::slab::laws::free_undoes_alloc(sk, class);
    crate::slab::laws::served_slot(sk, class);
    lemma_block_place(n, p);
    let a = n.arena->0;
    let i = a.page_of(p);
    assert(i == sk.lists[class][0]);
    assert(a.pages[i].owner == k) by {
        assert(crate::slab::SlabAllocator::member(sk.lists, class, 0));
        assert(crate::slab::SlabAllocator::listed(sk.lists, i));
        assert(a.pages[i].owner == sk.arena.pages[i].owner);
        if d.slab(k).lists[class].len() > 0 {
            assert(crate::slab::SlabAllocator::listed(d.slabs[k]->0.lists, i));
        }
    }
    let f = n.freed(k + 1, p, os).heap;
    assert(n.inited(os.arena) == n);
    assert(n.joined(k + 1, os.page).heap == n);
    assert(f == n.with_slab(k, n.slab(k).returned(p)));
    assert(n.slab(k) == s);
    assert(f.slab(k) == sk);
    assert(f.slabs[k]->0.pending =~= Seq::<int>::empty());
    let g = f.drained(k);
    assert(g.slab(k) == sk);
    assert(sk.stocked(class, k) == Some(sk));
}

/// Where the pool or a spare run has room, an allocation succeeds.
proof fn lemma_room(h: HeapState, handle: int, size: int, os: Grants)
    requires
        h.wf(),
        h.knows(handle),
        h.arena is Some,
        0 < size < HUGE_ALLOC_THRESHOLD,
        h.tlsf.fit(size) is Some || h.runs.fit((size + 4095) / 4096 * 4096) is Some,
    ensures
        h.malloc(handle, size, os).ptr != 0,
{
    let m = (size + 4095) / 4096;
    if h.tlsf.fit(size) is Some {
        crate::tlsf::laws::fit_is_large_enough(h.tlsf, size);
        assert(h.tlsf.has(h.tlsf.fit(size)->0));
    } else {
        crate::api::runs::lemma_fit(h.runs, 0, m * 4096);
        let r = h.runs.spare[h.runs.fit(m * 4096)->0];
        assert(h.runs.sizes.dom().contains(r));
        steps::lemma_run_place(h, r);
    }
    assert(h.large(size).1 != 0);
    if size <= SLAB_MAX_SIZE {
        let j = h.joined(handle, os.page);
        assert(j.heap.large(size).1 == h.large(size).1);
        if j.ptr != 0 {
            let (s2, p) = j.heap.small(j.ptr - 1, HeapState::class_for(size));
            assert(s2.tlsf == h.tlsf && s2.runs == h.runs);
            assert(s2.large(size).1 == h.large(size).1);
        }
    }
}

/// A block from the pool or of whole pages leaves room for another one once it
/// has been given back.
proof fn lemma_large_given_back(h: HeapState, handle: int, size: int, os: Grants)
    requires
        h.wf(),
        h.knows(handle),
        h.arena is Some,
        0 < size < HUGE_ALLOC_THRESHOLD,
        h.large(size).1 != 0,
    ensures
        ({
            let (m, r) = h.large(size);
            let f = m.freed(handle, r, os).heap;
            f.tlsf.fit(size) is Some || f.runs.fit((size + 4095) / 4096 * 4096) is Some
        }),
{
    let (m, r) = h.large(size);
    let len = (size + 4095) / 4096 * 4096;
    lemma_large(h, size);
    assert(m.arena is Some);
    assert(m.inited(os.arena) == m);
    steps::lemma_joined(m, handle, os.page);
    let j = m.joined(handle, os.page).heap;
    assert(j.arena == m.arena && j.tlsf == m.tlsf && j.runs == m.runs);
    let f = m.freed(handle, r, os).heap;
    if h.tlsf.fit(size) is Some {
        steps::lemma_pool_alloc(h, size);
        steps::lemma_pool_page(h, r);
        crate::tlsf::laws::freed_block_is_reused(h.tlsf, size);
        assert(m.arena == h.arena);
        assert(f.tlsf == h.tlsf.allocated(size).freed(r));
    } else {
        lemma_whole_pages(h, size);
        assert(f.runs == m.runs.given_back(r));
        assert(f.runs.spare[m.runs.spare.len() as int] == r);
        crate::api::runs::lemma_given_back(m.runs, r);
        crate::api::runs::lemma_spare_fits(f.runs, r, len);
    }
}

/// What was handed out can be handed out again once it has been given back: the
/// next request of the same size succeeds. This is said of sizes below the
/// threshold; from there on, the operating system decides.
pub proof fn freed_memory_is_handed_out_again(
    h: HeapState,
    handle: int,
    size: int,
    os: Grants,
    back: Grants,
    again: Grants,
)
    requires
        h.wf(),
        h.knows(handle),
        0 < size < HUGE_ALLOC_THRESHOLD,
        grants_are_new(h, size, os),
        h.malloc(handle, size, os).ptr != 0,
    ensures
        ({
            let out = h.malloc(handle, size, os);
            let f = out.heap.freed(out.handle, out.ptr, back);
            &&& f.heap.wf()
            &&& f.heap.knows(f.handle)
            &&& f.heap.arena is Some
            &&& f.heap.malloc(f.handle, size, again).ptr != 0
        }),
{
    let s1 = h.inited(os.arena);
    steps::lemma_inited(h, os.arena);
    assert(s1.knows(handle));
    let out = h.malloc(handle, size, os);
    let m = out.heap;
    let r = out.ptr;
    malloc_hands_out_a_new_block(h, handle, size, os);
    let f = m.freed(out.handle, r, back);
    assert(m.arena is Some && f.heap.arena is Some) by {
        lemma_arena_stays(h, handle, size, os);
        lemma_arena_stays_freed(m, out.handle, r, back);
    }
    let plain = Grants { arena: None, ..back };
    assert(m.freed(out.handle, r, plain) == f);
    free_takes_the_block_back(m, out.handle, r, plain);
    if size > SLAB_MAX_SIZE {
        lemma_large_given_back(s1, handle, size, back);
        lemma_room(f.heap, f.handle, size, again);
    } else {
        let j = s1.joined(handle, os.page);
        steps::lemma_joined(s1, handle, os.page);
        if j.ptr == 0 {
            lemma_large_given_back(j.heap, j.handle, size, back);
            lemma_room(f.heap, f.handle, size, again);
        } else {
            let k = j.ptr - 1;
            let class = HeapState::class_for(size);
            lemma_class_exists(size);
            lemma_class_for(size, class);
            lemma_small(j.heap, k, class);
            lemma_small_keeps_caches(j.heap, k, class, j.handle);
            let (s2, p) = j.heap.small(k, class);
            if p != 0 {
                freed_slot_is_reused(j.heap, k, class, back);
                assert(f.handle == k + 1);
                assert(f.heap.joined(k + 1, again.page).heap == f.heap);
            } else {
                lemma_large_given_back(s2, j.handle, size, back);
                lemma_room(f.heap, f.handle, size, again);
            }
        }
    }
}

/// A small or medium allocation that succeeds has an arena.
proof fn lemma_arena_stays(h: HeapState, handle: int, size: int, os: Grants)
    requires
        0 < size < HUGE_ALLOC_THRESHOLD,
        h.malloc(handle, size, os).ptr != 0,
    ensures
        h.malloc(handle, size, os).heap.arena is Some,
{
}

/// Giving an address back does not take the arena away.
proof fn lemma_arena_stays_freed(h: HeapState, handle: int, p: int, os: Grants)
    requires
        h.arena is Some,
    ensures
        h.freed(handle, p, os).heap.arena is Some,
{
}

/// The heap after rounds of allocating `size` bytes and giving them back, each
/// with what the operating system grants in it.
pub open spec fn after_rounds(h: HeapState, handle: int, size: int, grants: Seq<(Grants, Grants)>) -> Outcome
    decreases grants.len(),
{
    if grants.len() == 0 {
        Outcome { heap: h, handle, ptr: 0 }
    } else {
        let s = after_rounds(h, handle, size, grants.drop_last());
        let out = s.heap.malloc(s.handle, size, grants.last().0);
        out.heap.freed(out.handle, out.ptr, grants.last().1)
    }
}

/// However often a thread allocates a size and gives the block back, the next
/// allocation of that size succeeds if the first one does.
pub proof fn rounds_never_run_dry(
    h: HeapState,
    handle: int,
    size: int,
    os: Grants,
    grants: Seq<(Grants, Grants)>,
    again: Grants,
)
    requires
        h.wf(),
        h.knows(handle),
        h.arena is Some,
        0 < size < HUGE_ALLOC_THRESHOLD,
        h.malloc(handle, size, os).ptr != 0,
        grants.len() > 0 ==> grants[0].0 == os,
        grants.len() == 0 ==> again == os,
    ensures
        ({
            let s = after_rounds(h, handle, size, grants);
            &&& s.heap.wf()
            &&& s.heap.knows(s.handle)
            &&& s.heap.arena is Some
            &&& s.heap.malloc(s.handle, size, again).ptr != 0
        }),
    decreases grants.len(),
{
    if grants.len() > 0 {
        let (first, back) = grants.last();
        rounds_never_run_dry(h, handle, size, os, grants.drop_last(), first);
        let s = after_rounds(h, handle, size, grants.drop_last());
        let plain = Grants { arena: None, page: first.page, huge: None };
        assert(s.heap.malloc(s.handle, size, plain) == s.heap.malloc(s.handle, size, first));
        freed_memory_is_handed_out_again(s.heap, s.handle, size, plain, back, again);
    }
}

/// A slot that a thread gives back to another's page waits on the owner's
/// stack, whether the thread has a cache or not: it is the top of that stack,
/// and no page changes.
pub proof fn remote_free_waits_for_the_owner(h: HeapState, handle: int, p: int, os: Grants)
    requires
        h.wf(),
        h.knows(handle),
        h.in_arena(p),
        h.class_at(p) != 0xFF,
        h.block(p) is Some,
        h.arena->0.pages[h.arena->0.page_of(p)].owner != handle - 1,
    ensures
        ({
            let owner = h.arena->0.pages[h.arena->0.page_of(p)].owner;
            let n = h.freed(handle, p, os).heap;
            &&& n.slabs[owner] is Some
            &&& n.slabs[owner]->0.pending == seq![p] + h.slabs[owner]->0.pending
            &&& n.arena == h.arena
            &&& n.block(p) is None
        }),
{
    lemma_block_place(h, p);
    assert(h.page_ok(h.arena->0.page_of(p)));
    assert(h.inited(os.arena) == h);
    steps::lemma_joined(h, handle, os.page);
    let j = h.joined(handle, os.page).heap;
    assert(j.arena == h.arena);
    assert(j.block(p) == h.block(p));
    assert(j.class_at(p) == h.class_at(p));
    let owner = h.arena->0.pages[h.arena->0.page_of(p)].owner;
    assert(h.slabs[owner] is Some);
    steps::lemma_pushed(j, p);
}

/// The owner's next small allocation empties its stack.
pub proof fn allocation_empties_the_stack(h: HeapState, k: int, class: int)
    requires
        h.wf(),
        h.arena is Some,
        0 <= k < MAX_THREADS,
        h.slabs[k] is Some,
        0 <= class < NUM_SIZE_CLASSES,
    ensures
        h.small(k, class).0.slabs[k] is Some,
        h.small(k, class).0.slabs[k]->0.pending.len() == 0,
        forall|p: int| #[trigger]
            h.stacked(k, p) && p != h.small(k, class).1 ==> !h.small(k, class).0.arena->0.used(p),
{
    steps::lemma_drained(h, k);
    let d = h.drained(k);
    let ps = h.slabs[k]->0.pending;
    assert(h.slab_ok(k));
    assert forall|i: int| #![trigger ps[i]] 0 <= i < ps.len() implies h.arena->0.used(ps[i])
        && h.arena->0.page_of(ps[i]) < h.arena->0.next by {
        assert(ps.contains(ps[i]));
        assert(h.stacked(k, ps[i]));
        steps::lemma_stacked(h, k, ps[i]);
    }
    crate::slab::laws::drained_slots(h.slab(k), ps);
    assert forall|p: int| #[trigger] h.stacked(k, p) implies !d.arena->0.used(p) by {
        assert(ps.contains(p));
    }
    if d.slab(k).stocked(class, k) is Some {
        let sk = d.slab(k).stocked(class, k)->0;
        assert(d.slab_ok(k));
        assert forall|i: int| d.arena->0.next <= i < PAGES_PER_ARENA implies (
        #[trigger] d.arena->0.pages[i]).class == 0xFF by {
            assert(d.page_ok(i));
        }
        crate::slab::laws::lemma_stocked(d.slab(k), class, k);
        crate::slab::laws::served_slot(sk, class);
    }
}

/// A thread's cache hands out slots of its own pages only.
pub proof fn threads_allocate_from_their_own_pages(h: HeapState, k: int, class: int)
    requires
        h.wf(),
        h.arena is Some,
        0 <= k < MAX_THREADS,
        h.slabs[k] is Some,
        0 <= class < NUM_SIZE_CLASSES,
        h.small(k, class).1 != 0,
    ensures
        ({
            let (n, p) = h.small(k, class);
            n.arena->0.pages[n.arena->0.page_of(p)].owner == k
        }),
{
    steps::lemma_drained(h, k);
    let d = h.drained(k);
    let sk = d.slab(k).stocked(class, k)->0;
    let (n, p) = h.small(k, class);
    assert(d.slab_ok(k));
    assert forall|i: int| d.arena->0.next <= i < PAGES_PER_ARENA implies (#[trigger] d.arena->0.pages[i]).class
        == 0xFF by {
        assert(d.page_ok(i));
    }
    crate::slab::laws::lemma_stocked(d.slab(k), class, k);
    crate::slab::laws::served_slot(sk, class);
    let i = sk.lists[class][0];
    assert(crate::slab::SlabAllocator::member(sk.lists, class, 0));
    assert(n.arena->0.pages[i].owner == sk.arena.pages[i].owner);
    if d.slab(k).lists[class].len() > 0 {
        assert(crate::slab::SlabAllocator::listed(d.slabs[k]->0.lists, i));
    }
}

/// What the allocation of a block that another one is moved into depends on,
/// and whether its thread has a cache afterwards.
pub proof fn lemma_target_requests(h: HeapState, handle: int, size: int, os: Grants)
    requires
        h.wf(),
        h.knows(handle),
        size > 0,
    ensures
        ({
            let m = h.move_target(handle, size, os);
            let page = size <= SLAB_MAX_SIZE && handle == 0 && h.next_id < MAX_THREADS;
            &&& m == h.move_target(
                handle,
                size,
                os.asked(h.arena is None, page, size >= HUGE_ALLOC_THRESHOLD),
            )
            &&& handle != 0 ==> m.handle == handle
            &&& m.handle == 0 && m.heap.arena is Some ==> m.heap.next_id == h.next_id + (if page {
                1int
            } else {
                0
            })
        }),
{
    let s1 = h.inited(os.arena);
    if size <= SLAB_MAX_SIZE && s1.arena is Some {
        let j = s1.joined(handle, os.page);
        if j.ptr != 0 {
            let (s2, p) = j.heap.small(j.ptr - 1, HeapState::class_for(size));
            assert(s2.next_id == j.heap.next_id);
        }
    }
}

/// Giving an address back asks for no page on behalf of a thread that has a
/// cache or can be given none.
pub proof fn lemma_no_page_asked(h: HeapState, handle: int, p: int, page: bool)
    requires
        handle != 0 || h.next_id >= MAX_THREADS || h.arena is None,
    ensures
        h.freed(handle, p, Grants { arena: None, page, huge: None }) == h.freed(
            handle,
            p,
            Grants { arena: None, page: false, huge: None },
        ),
{
}

/// The usable size of a block is its size.
pub proof fn usable_size_is_block_size(h: HeapState, p: int)
    requires
        h.wf(),
        h.block(p) is Some,
    ensures
        h.usable(p) == h.block(p)->0,
{
    lemma_block_place(h, p);
}

} // verus!
