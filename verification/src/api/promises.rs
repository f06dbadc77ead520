//! What a client can rely on, told by sizes, addresses and mappings: when a
//! request succeeds, where its block comes from, and how large it is.

use vstd::arithmetic::power2::pow2;
use vstd::prelude::*;

use crate::api::laws;
use crate::api::model::{Grants, HeapState, Outcome};
use crate::api::steps;
use crate::api::{least, unmaps, Heap, OsReplies};
use crate::huge::HugeBlocks;
use crate::memory::Region;
use crate::platform::ThreadLocals;
use crate::size_class::{SizeClass, NUM_SIZE_CLASSES};
use crate::slab::SlabAllocator;
use crate::thread_cache::MAX_THREADS;

verus! {

/// A mapping of `len` bytes at a page boundary, as the operating system hands
/// it out.
pub open spec fn maps(reply: Option<Region>, base: int, len: int) -> bool {
    &&& reply matches Some(r) && r.base == base && r.bytes@.len() == len
    &&& base > 0
    &&& base % 4096 == 0
    &&& base + len <= usize::MAX
}

/// Mappings of the right size are taken: 2 MB for an arena, a page for a cache,
/// and for a huge block its size and a page, in whole pages. Nothing else is.
pub proof fn mappings_of_the_right_size_are_taken(os: OsReplies, base: int, size: int, total: int)
    requires
        0 <= size,
        total % 4096 == 0,
        size + 4096 <= total < size + 8192,
        size + 8191 <= usize::MAX,
    ensures
        os.grants(size).arena == Some(base) <==> maps(os.arena, base, 0x20_0000),
        os.grants(size).page <==> exists|b: int| maps(os.page, b, 4096),
        os.grants(size).huge == Some(base) <==> maps(os.huge, base, total),
{
    assert(HugeBlocks::total(size) == total);
    if os.grants(size).page {
        assert(maps(os.page, os.page->0.base as int, 4096));
    }
}

/// A request for nothing gives nothing and changes nothing.
pub proof fn nothing_is_null(h: HeapState, handle: int, os: Grants)
    ensures
        h.malloc(handle, 0, os) == (Outcome { heap: h, handle, ptr: 0 }),
{
}

/// From 256 KB on, a request is served whenever the operating system maps its
/// size and a page: the block starts one page into the mapping and reaches to
/// its end. Nothing else changes, but that there is an arena if there can be.
pub proof fn huge_requests_get_their_mapping(
    h: HeapState,
    handle: int,
    size: int,
    os: OsReplies,
    base: int,
    total: int,
)
    requires
        0x4_0000 <= size,
        size + 8191 <= usize::MAX,
        total % 4096 == 0,
        size + 4096 <= total < size + 8192,
        maps(os.huge, base, total),
    ensures
        ({
            let out = h.malloc(handle, size, os.grants(size));
            &&& out.ptr == base + 4096
            &&& out.ptr % 4096 == 0
            &&& out.handle == handle
            &&& size <= total - 4096 < size + 4096
            &&& h.clear_of_arena(base, base + total) && (os.arena matches Some(a) ==> os.huge->0.apart(a))
                ==> out.heap.block(out.ptr) == Some(total - 4096) && !out.heap.in_arena(out.ptr)
            &&& h.arena is Some ==> {
                &&& out.heap.arena == h.arena
                &&& out.heap.tlsf == h.tlsf
                &&& out.heap.runs == h.runs
                &&& out.heap.slabs == h.slabs
            }
            &&& out.heap.next_id == h.next_id
            &&& forall|q: int|
                q != out.ptr ==> #[trigger] out.heap.huge.dom().contains(q) == h.huge.dom().contains(q)
                    && out.heap.huge[q] == h.huge[q]
        }),
{
    mappings_of_the_right_size_are_taken(os, base, size, total);
    let g = os.grants(size);
    let s1 = h.inited(g.arena);
    assert(HugeBlocks::total(size) == total);
    if g.arena is Some && h.arena is None {
        mappings_of_the_right_size_are_taken(os, g.arena->0, size, total);
    }
    if h.clear_of_arena(base, base + total) && (os.arena matches Some(a) ==> os.huge->0.apart(a)) {
        assert(s1.clear_of_arena(base, base + total));
    }
}

/// From 256 KB on, no block is made up: it lies in the mapping that the
/// operating system gave.
pub proof fn huge_blocks_lie_in_their_mapping(h: HeapState, handle: int, size: int, os: OsReplies)
    requires
        0x4_0000 <= size,
        h.malloc(handle, size, os.grants(size)).ptr != 0,
    ensures
        os.huge is Some,
        h.malloc(handle, size, os.grants(size)).ptr == os.huge->0.base + 4096,
        os.huge->0.bytes@.len() >= size + 4096,
        size + 8191 <= usize::MAX,
{
}

/// The arena and what lies in it are made as soon as the operating system maps
/// it: a pool of 512 KB, all of it one free block, and no other page handed
/// out.
pub proof fn first_arena(h: HeapState, os: OsReplies, size: int, base: int)
    requires
        h.arena is None,
        h.slabs.len() == 129,
        maps(os.arena, base, 0x20_0000),
    ensures
        ({
            let n = h.inited(os.grants(size).arena);
            &&& n.arena is Some
            &&& n.arena->0.base == base
            &&& n.arena->0.next == 133
            &&& n.in_arena(n.tlsf.start)
            &&& n.tlsf.end == n.tlsf.start + 0x8_0000
            &&& n.tlsf.end == base + 133 * 4096
            &&& n.tlsf.has(n.tlsf.start)
            &&& n.tlsf.blocks[n.tlsf.start].free
            &&& n.tlsf.blocks[n.tlsf.start].size == 0x8_0000 - 32
            &&& n.runs.sizes.dom().is_empty()
            &&& n.huge == h.huge
            &&& n.next_id == h.next_id
            &&& n.arena->0.id == h.next_arena
            &&& h.next_arena < u32::MAX ==> n.next_arena == h.next_arena + 1
            &&& h.next_arena == u32::MAX ==> n.next_arena == 0
            &&& forall|k: int| 0 <= k < 128 ==> #[trigger] n.slabs[k] == h.slabs[k]
        }),
{
    let n = h.inited(os.grants(size).arena);
    assert(os.grants(size).arena == Some(base));
    crate::tlsf::laws::added_pool_is_free(
        crate::tlsf::model::TlsfState::empty(),
        base + 5 * 4096,
        0x8_0000,
    );
    assert(n.runs.sizes.dom() =~= Set::<int>::empty());
}

/// Without an arena, only huge requests can be served.
pub proof fn no_arena_no_block(h: HeapState, handle: int, size: int, os: Grants)
    requires
        h.arena is None,
        os.arena is None,
        size < 0x4_0000,
    ensures
        h.malloc(handle, size, os).ptr == 0,
        h.malloc(handle, size, os).heap == h,
{
}

/// A thread keeps the cache that it has. One without is given the next number,
/// of 128, if the operating system gives it a page; the number is used up in
/// any case.
pub proof fn caches_are_numbered(h: HeapState, handle: int, page: bool)
    requires
        h.wf(),
        h.arena is Some,
    ensures
        ({
            let j = h.joined(handle, page);
            &&& handle != 0 ==> j == (Outcome { heap: h, handle, ptr: handle })
            &&& handle == 0 && h.next_id < 128 && page ==> {
                &&& j.handle == h.next_id + 1
                &&& j.ptr == j.handle
                &&& j.heap.next_id == h.next_id + 1
                &&& j.heap.slabs[h.next_id] is Some
                &&& j.heap.slabs[h.next_id]->0.pending.len() == 0
                &&& forall|c: int|
                    0 <= c < NUM_SIZE_CLASSES ==> (
                    #[trigger] j.heap.slabs[h.next_id]->0.lists[c]).len() == 0
                &&& forall|m: int|
                    0 <= m <= MAX_THREADS && m != h.next_id ==> #[trigger] j.heap.slabs[m] == h.slabs[m]
            }
            &&& handle == 0 && (h.next_id >= 128 || !page) ==> {
                &&& j.ptr == 0
                &&& j.handle == 0
                &&& j.heap.slabs == h.slabs
                &&& h.next_id == 128 ==> j.heap.next_id == 128
                &&& h.next_id < 128 ==> j.heap.next_id == h.next_id + 1
            }
        }),
{
}

/// What a slot from a cache is, and when there is one.
proof fn lemma_slot(h: HeapState, k: int, class: int)
    requires
        h.wf(),
        h.arena is Some,
        0 <= k < MAX_THREADS,
        h.slabs[k] is Some,
        0 <= class < NUM_SIZE_CLASSES,
    ensures
        ({
            let (n, r) = h.small(k, class);
            &&& n.wf()
            &&& n.tlsf == h.tlsf
            &&& n.runs == h.runs
            &&& h.arena->0.next < 512 ==> r != 0
            &&& h.slabs[k]->0.lists[class].len() > 0 ==> r != 0 && n.arena->0.next == h.arena->0.next
            &&& h.arena->0.next <= n.arena->0.next <= h.arena->0.next + 1
            &&& r != 0 ==> {
                &&& n.in_arena(r)
                &&& n.class_at(r) == class
                &&& n.block(r) == Some(SizeClass::size(class))
                &&& n.arena->0.pages[n.arena->0.page_of(r)].owner == k
            }
        }),
{
    steps::lemma_drained(h, k);
    laws::lemma_small(h, k, class);
    let d = h.drained(k);
    let ps = h.slabs[k]->0.pending;
    assert(h.slab_ok(k));
    assert forall|i: int| #![trigger ps[i]] 0 <= i < ps.len() implies h.arena->0.used(ps[i])
        && h.arena->0.page_of(ps[i]) < h.arena->0.next by {
        assert(ps.contains(ps[i]));
        assert(h.stacked(k, ps[i]));
        steps::lemma_stacked(h, k, ps[i]);
    }
    crate::slab::laws::drained_slots(h.slab(k), ps);
    assert(d.slab_ok(k));
    crate::slab::laws::pages_are_taken_when_needed(d.slab(k), class, k);
    let l = h.slabs[k]->0.lists;
    let m = d.slabs[k]->0.lists;
    if l[class].len() > 0 {
        let j = l[class][0];
        assert(SlabAllocator::member(l, class, 0));
        assert(SlabAllocator::listed(l, j));
        assert(SlabAllocator::listed(m, j));
        let (c, i) = choose|c: int, i: int| #[trigger] SlabAllocator::member(m, c, i) && m[c][i] == j;
        assert(h.arena->0.pages[j].class == class);
        assert(d.arena->0.pages[j].class == h.arena->0.pages[j].class);
        assert(c == class);
    }
    if d.slab(k).stocked(class, k) is Some {
        steps::lemma_served(d, k, class);
        let (n, r) = h.small(k, class);
        laws::threads_allocate_from_their_own_pages(h, k, class);
    }
}

/// A slot that serves a request is of the smallest size that is a multiple of
/// 16 and has room for it; less than half of it is wasted.
pub proof fn slots_are_the_smallest_that_fit(h: HeapState, handle: int, size: int, os: Grants)
    requires
        h.wf(),
        h.knows(handle),
        0 < size,
        laws::grants_are_new(h, size, os),
        ({
            let out = h.malloc(handle, size, os);
            &&& out.ptr != 0
            &&& out.heap.in_arena(out.ptr)
            &&& out.heap.class_at(out.ptr) != 0xFF
        }),
    ensures
        ({
            let out = h.malloc(handle, size, os);
            let z = out.heap.block(out.ptr)->0;
            &&& size <= 1024
            &&& out.heap.block(out.ptr) is Some
            &&& z % 16 == 0
            &&& size <= z
            &&& forall|c: int|
                0 <= c < 22 && size <= #[trigger] SizeClass::size(c) && SizeClass::size(c) % 16 == 0 ==> z
                    <= SizeClass::size(c)
            &&& size > 16 ==> 2 * (z - size) < z
        }),
{
    let s1 = h.inited(os.arena);
    steps::lemma_inited(h, os.arena);
    assert(s1.knows(handle));
    let out = h.malloc(handle, size, os);
    let r = out.ptr;
    if size >= 0x4_0000 {
        laws::malloc_hands_out_a_new_block(h, handle, size, os);
        laws::lemma_block_place(out.heap, r);
        steps::lemma_huge_gained(s1, os.huge->0, HugeBlocks::total(size) - 4096);
        assert(false);
    }
    if size > 1024 {
        lemma_large_is_no_slot(s1, size);
        assert(false);
    }
    let j = s1.joined(handle, os.page);
    steps::lemma_joined(s1, handle, os.page);
    if j.ptr == 0 {
        lemma_large_is_no_slot(j.heap, size);
        assert(false);
    }
    let class = HeapState::class_for(size);
    laws::lemma_class_exists(size);
    laws::lemma_class_for(size, class);
    lemma_slot(j.heap, j.ptr - 1, class);
    let (s2, p) = j.heap.small(j.ptr - 1, class);
    if p == 0 {
        lemma_large_is_no_slot(s2, size);
        assert(false);
    }
    lemma_smallest(size, class);
}

/// A block from the pool or of whole pages is no slot.
proof fn lemma_large_is_no_slot(h: HeapState, size: int)
    requires
        h.wf(),
        h.arena is Some,
        size > 0,
    ensures
        ({
            let (n, r) = h.large(size);
            &&& n.wf()
            &&& r != 0 ==> n.in_arena(r) && n.class_at(r) == 0xFF
        }),
{
    laws::lemma_large(h, size);
    let (n, r) = h.large(size);
    if h.tlsf.fit(size) is Some {
        steps::lemma_pool_alloc(h, size);
        steps::lemma_pool_page(h, r);
    } else {
        laws::lemma_whole_pages(h, size);
    }
}

/// The class of the rounded size is the smallest of those that are multiples
/// of 16 and have room.
pub proof fn lemma_smallest(size: int, class: int)
    requires
        0 < size <= 1024,
        SizeClass::fits(class, HeapState::rounded(size)),
    ensures
        ({
            let z = SizeClass::size(class);
            &&& z % 16 == 0
            &&& size <= z
            &&& forall|c: int|
                0 <= c < 22 && size <= #[trigger] SizeClass::size(c) && SizeClass::size(c) % 16 == 0 ==> z
                    <= SizeClass::size(c)
            &&& size > 16 ==> 2 * (z - size) < z
        }),
{
    let z = SizeClass::size(class);
    let r = HeapState::rounded(size);
    crate::size_class::lemma_aligned_class(class, r);
    assert forall|c: int|
        0 <= c < 22 && size <= #[trigger] SizeClass::size(c) && SizeClass::size(c) % 16 == 0 implies z
        <= SizeClass::size(c) by {
        assert(r <= SizeClass::size(c));
        if c < class {
            assert(SizeClass::size(c) < r);
        } else if class < c {
            crate::size_class::lemma_sizes_increase(class, c);
        }
    }
    if size > 16 {
        assert(class > 0);
        assert(SizeClass::size(class - 1) < r);
        assert(class >= 3);
        assert(2 * (z - size) < z);
    }
}

/// Small requests are served from slots of the thread's own pages as long as
/// the arena has a page left, or the cache a page of the class with a free
/// slot; in the latter case no page is taken.
pub proof fn small_requests_are_served_from_slots(h: HeapState, handle: int, size: int, os: Grants)
    requires
        h.wf(),
        h.knows(handle),
        h.arena is Some,
        0 < size <= 1024,
        handle != 0 || (os.page && h.next_id < 128),
    ensures
        ({
            let out = h.malloc(handle, size, os);
            let k = if handle != 0 {
                handle - 1
            } else {
                h.next_id
            };
            let c = out.heap.class_at(out.ptr);
            &&& out.handle == k + 1
            &&& h.arena->0.next < 512 ==> out.ptr != 0 && out.heap.in_arena(out.ptr) && c != 0xFF
            &&& out.ptr != 0 && out.heap.in_arena(out.ptr) && c != 0xFF ==> {
                &&& out.heap.arena->0.pages[out.heap.arena->0.page_of(out.ptr)].owner == k
                &&& out.heap.arena->0.next <= h.arena->0.next + 1
                &&& handle != 0 && h.slabs[k]->0.lists[c].len() > 0 ==> out.heap.arena->0.next
                    == h.arena->0.next
                &&& out.heap.tlsf == h.tlsf
                &&& out.heap.runs == h.runs
            }
        }),
{
    assert(h.inited(os.arena) == h);
    let j = h.joined(handle, os.page);
    caches_are_numbered(h, handle, os.page);
    steps::lemma_joined(h, handle, os.page);
    let class = HeapState::class_for(size);
    laws::lemma_class_exists(size);
    laws::lemma_class_for(size, class);
    lemma_slot(j.heap, j.ptr - 1, class);
    let (s2, p) = j.heap.small(j.ptr - 1, class);
    if p == 0 {
        lemma_large_is_no_slot(s2, size);
    }
}

/// What the pool or whole pages serve.
proof fn lemma_route(h: HeapState, size: int, pages: int)
    requires
        h.wf(),
        h.arena is Some,
        size > 0,
        pages * 4096 - 4096 < size <= pages * 4096,
    ensures
        pages == (size + 4095) / 4096,
        ({
            let (n, r) = h.large(size);
            &&& n.wf()
            &&& h.tlsf.fit(size) is Some ==> {
                &&& r != 0
                &&& h.in_pool(r)
                &&& n.in_arena(r) && n.class_at(r) == 0xFF && n.in_pool(r)
                &&& n.arena == h.arena
                &&& n.runs == h.runs
                &&& n.block(r) is Some
                &&& size <= n.block(r)->0
                &&& n.block(r)->0 % 16 == 0
                &&& n.block(r)->0 < size + 32
            }
            &&& h.tlsf.fit(size) is None ==> {
                &&& n.tlsf == h.tlsf
                &&& (exists|p: int| h.runs.spare.contains(p) && h.runs.sizes[p] >= size) ==> {
                    &&& r != 0
                    &&& h.runs.spare.contains(r)
                    &&& n.arena == h.arena
                    &&& n.block(r) == Some(h.runs.sizes[r])
                    &&& h.runs.sizes[r] >= size
                    &&& !n.runs.spare.contains(r)
                }
                &&& (forall|p: int| h.runs.spare.contains(p) ==> #[trigger] h.runs.sizes[p] < size) ==> {
                    &&& r != 0 <==> h.arena->0.next + pages <= 512
                    &&& r == 0 ==> n == h
                    &&& r != 0 ==> {
                        &&& r == h.arena->0.base + 4096 * h.arena->0.next
                        &&& n.arena->0.next == h.arena->0.next + pages
                        &&& n.block(r) == Some(pages * 4096)
                        &&& n.runs.spare == h.runs.spare
                    }
                }
            }
        }),
{
    let (n, r) = h.large(size);
    assert(pages == (size + 4095) / 4096);
    laws::lemma_large(h, size);
    if h.tlsf.fit(size) is Some {
        steps::lemma_pool_alloc(h, size);
        steps::lemma_pool_page(h, r);
        crate::tlsf::laws::little_is_handed_out_in_excess(h.tlsf, size);
        crate::tlsf::laws::allocated_block(h.tlsf, size);
        assert(n.tlsf.live(r));
    } else {
        crate::api::runs::lemma_fit(h.runs, 0, pages * 4096);
        laws::lemma_whole_pages(h, size);
        assert forall|p: int| h.runs.spare.contains(p) implies h.runs.sizes[p] % 4096 == 0
            && h.runs.sizes.dom().contains(p) by {
            let i = h.runs.spare.index_of(p);
            assert(h.runs.spare[i] == p);
            assert(h.run_ok(p));
        }
        if exists|p: int| h.runs.spare.contains(p) && h.runs.sizes[p] >= size {
            let p = choose|p: int| h.runs.spare.contains(p) && h.runs.sizes[p] >= size;
            assert(h.runs.sizes[p] >= pages * 4096);
            crate::api::runs::lemma_spare_fits(h.runs, p, pages * 4096);
            let i = h.runs.fit(pages * 4096)->0;
            assert(h.runs.spare[i] == r);
            steps::lemma_run_taken(h, i);
            crate::api::runs::lemma_taken(h.runs, i);
        } else if h.runs.fit(pages * 4096) is Some {
            let i = h.runs.fit(pages * 4096)->0;
            let p = h.runs.spare[i];
            assert(h.runs.spare.contains(p));
            assert(h.runs.sizes[p] >= size);
        } else if h.arena->0.next + pages <= 512 {
            steps::lemma_run_added(h, size);
        }
    }
}

/// Requests of more than 1 KB and less than 256 KB come from the pool whenever
/// it has a free block that is larger than the request, rounded up to 16 bytes,
/// by a sixteenth. Such a block is hardly larger than the request, and no page
/// is taken for it.
pub proof fn medium_requests_come_from_the_pool(
    h: HeapState,
    handle: int,
    size: int,
    os: Grants,
    b: int,
    need: int,
)
    requires
        h.wf(),
        h.arena is Some,
        1024 < size < 0x4_0000,
        need % 16 == 0,
        size <= need,
        h.tlsf.has(b),
        h.tlsf.blocks[b].free,
        16 * h.tlsf.blocks[b].size >= 17 * need,
    ensures
        ({
            let out = h.malloc(handle, size, os);
            &&& out.ptr != 0
            &&& h.in_pool(out.ptr)
            &&& out.heap.block(out.ptr) is Some
            &&& size <= out.heap.block(out.ptr)->0 < size + 32
            &&& out.heap.arena == h.arena
            &&& out.heap.runs == h.runs
            &&& out.heap.slabs == h.slabs
            &&& out.handle == handle
        }),
{
    crate::tlsf::laws::requests_are_served_while_there_is_room(h.tlsf, size, b, need);
    lemma_route(h, size, (size + 4095) / 4096);
}

/// Where the pool has no room, requests of more than 1 KB and less than 256 KB
/// get whole pages: a run that was given back and is long enough, and else as
/// many new pages as the request takes, if the arena has them left.
pub proof fn whole_pages_stand_in_for_the_pool(
    h: HeapState,
    handle: int,
    size: int,
    os: Grants,
    pages: int,
)
    requires
        h.wf(),
        h.arena is Some,
        1024 < size < 0x4_0000,
        pages * 4096 - 4096 < size <= pages * 4096,
        h.tlsf.fit(size) is None,
    ensures
        ({
            let out = h.malloc(handle, size, os);
            &&& out.handle == handle
            &&& out.heap.tlsf == h.tlsf
            &&& out.heap.slabs == h.slabs
            &&& out.heap.huge == h.huge
            &&& (exists|p: int| h.runs.spare.contains(p) && h.runs.sizes[p] >= size) ==> {
                &&& out.ptr != 0
                &&& h.runs.spare.contains(out.ptr)
                &&& h.runs.sizes[out.ptr] >= size
                &&& out.heap.block(out.ptr) == Some(h.runs.sizes[out.ptr])
                &&& out.heap.arena == h.arena
            }
            &&& (forall|p: int| h.runs.spare.contains(p) ==> #[trigger] h.runs.sizes[p] < size) ==> {
                &&& out.ptr != 0 <==> h.arena->0.next + pages <= 512
                &&& out.ptr != 0 ==> {
                    &&& out.ptr == h.arena->0.base + 4096 * h.arena->0.next
                    &&& out.heap.arena->0.next == h.arena->0.next + pages
                    &&& out.heap.block(out.ptr) == Some(pages * 4096)
                }
            }
        }),
{
    lemma_route(h, size, pages);
}

/// Below 256 KB a request fails only if there is no room: every free block of
/// the pool is smaller than the request with a sixteenth, every run of pages
/// that was given back is too short, the arena has too few pages left, and for
/// a small request of a thread with a cache, no page at all.
pub proof fn requests_fail_only_without_room(
    h: HeapState,
    handle: int,
    size: int,
    os: Grants,
    need: int,
    pages: int,
)
    requires
        h.wf(),
        h.knows(handle),
        h.arena is Some,
        0 < size < 0x4_0000,
        need % 16 == 0,
        size <= need,
        pages * 4096 - 4096 < size <= pages * 4096,
        h.malloc(handle, size, os).ptr == 0,
    ensures
        forall|b: int| #[trigger]
            h.tlsf.has(b) && h.tlsf.blocks[b].free ==> 16 * h.tlsf.blocks[b].size < 17 * need,
        forall|p: int| h.runs.spare.contains(p) ==> #[trigger] h.runs.sizes[p] < size,
        h.arena->0.next + pages > 512,
        size <= 1024 && (handle != 0 || (os.page && h.next_id < 128)) ==> h.arena->0.next == 512,
{
    assert(h.inited(os.arena) == h);
    if size <= 1024 && (handle != 0 || (os.page && h.next_id < 128)) {
        small_requests_are_served_from_slots(h, handle, size, os);
    }
    let t = lemma_last_resort(h, handle, size, os);
    lemma_route(t, size, pages);
    assert forall|b: int| #[trigger] h.tlsf.has(b) && h.tlsf.blocks[b].free implies 16
        * h.tlsf.blocks[b].size < 17 * need by {
        if 16 * h.tlsf.blocks[b].size >= 17 * need {
            crate::tlsf::laws::requests_are_served_while_there_is_room(h.tlsf, size, b, need);
        }
    }
    assert forall|p: int| h.runs.spare.contains(p) implies #[trigger] h.runs.sizes[p] < size by {
        if h.runs.sizes[p] >= size {
            assert(t.runs.spare.contains(p) && t.runs.sizes[p] >= size);
        }
    }
}

/// A request below 256 KB that is for no more than `(16 + s) * 2^f` bytes fails
/// only if every free block of the pool is smaller than that.
pub proof fn requests_fail_only_without_a_block(
    h: HeapState,
    handle: int,
    size: int,
    os: Grants,
    f: nat,
    s: int,
    b: int,
)
    requires
        h.wf(),
        h.knows(handle),
        h.arena is Some,
        0 < size < 0x4_0000,
        0 <= s < 16,
        ((16 + s) * pow2(f)) % 16 == 0,
        size <= (16 + s) * pow2(f),
        h.malloc(handle, size, os).ptr == 0,
        h.tlsf.has(b),
        h.tlsf.blocks[b].free,
    ensures
        h.tlsf.blocks[b].size < (16 + s) * pow2(f),
{
    let t = lemma_last_resort(h, handle, size, os);
    lemma_route(t, size, (size + 4095) / 4096);
    if h.tlsf.blocks[b].size >= (16 + s) * pow2(f) {
        crate::tlsf::laws::requests_up_to_a_round_size_are_served(h.tlsf, size, f, s, b);
    }
}

/// A request that fails has come to the pool and the pages at last.
proof fn lemma_last_resort(h: HeapState, handle: int, size: int, os: Grants) -> (t: HeapState)
    requires
        h.wf(),
        h.knows(handle),
        h.arena is Some,
        0 < size < 0x4_0000,
        h.malloc(handle, size, os).ptr == 0,
    ensures
        t.wf(),
        t.arena is Some,
        t.tlsf == h.tlsf,
        t.runs == h.runs,
        t.arena->0.next == h.arena->0.next,
        t.large(size).1 == 0,
{
    assert(h.inited(os.arena) == h);
    if size > 1024 {
        h
    } else {
        let j = h.joined(handle, os.page);
        steps::lemma_joined(h, handle, os.page);
        if j.ptr == 0 {
            j.heap
        } else {
            let class = HeapState::class_for(size);
            laws::lemma_class_exists(size);
            laws::lemma_class_for(size, class);
            lemma_slot(j.heap, j.ptr - 1, class);
            j.heap.small(j.ptr - 1, class).0
        }
    }
}

/// A block of less than 256 KB that is no slot comes from the pool with hardly
/// more than was asked for, or is a run of pages: a spare one, or new pages as
/// many as it takes.
pub proof fn fallback_blocks_are_tight(h: HeapState, handle: int, size: int, os: Grants, pages: int)
    requires
        h.wf(),
        h.knows(handle),
        h.arena is Some,
        0 < size < 0x4_0000,
        pages * 4096 - 4096 < size <= pages * 4096,
        ({
            let out = h.malloc(handle, size, os);
            out.ptr != 0 && out.heap.class_at(out.ptr) == 0xFF
        }),
    ensures
        ({
            let out = h.malloc(handle, size, os);
            let n = out.heap.block(out.ptr)->0;
            &&& out.heap.block(out.ptr) is Some
            &&& size <= n
            &&& out.heap.in_pool(out.ptr) ==> n < size + 32 && out.heap.arena->0.next
                == h.arena->0.next
            &&& !out.heap.in_pool(out.ptr) && h.runs.spare.contains(out.ptr) ==> out.heap.arena->0.next
                == h.arena->0.next
            &&& !out.heap.in_pool(out.ptr) && !h.runs.spare.contains(out.ptr) ==> n == pages * 4096
                && out.heap.arena->0.next == h.arena->0.next + pages
        }),
{
    assert(h.inited(os.arena) == h);
    let out = h.malloc(handle, size, os);
    if size > 1024 {
        lemma_tight(h, size, pages);
    } else {
        let j = h.joined(handle, os.page);
        steps::lemma_joined(h, handle, os.page);
        if j.ptr == 0 {
            lemma_tight(j.heap, size, pages);
        } else {
            let class = HeapState::class_for(size);
            laws::lemma_class_exists(size);
            laws::lemma_class_for(size, class);
            lemma_slot(j.heap, j.ptr - 1, class);
            let (s2, p) = j.heap.small(j.ptr - 1, class);
            assert(p == 0);
            lemma_no_page_taken(j.heap, j.ptr - 1, class);
            lemma_tight(s2, size, pages);
        }
    }
}

/// A cache that has no slot takes no page.
proof fn lemma_no_page_taken(h: HeapState, k: int, class: int)
    requires
        h.wf(),
        h.arena is Some,
        0 <= k < MAX_THREADS,
        h.slabs[k] is Some,
        0 <= class < NUM_SIZE_CLASSES,
        h.small(k, class).1 == 0,
    ensures
        h.small(k, class).0.arena->0.next == h.arena->0.next,
{
    lemma_slot(h, k, class);
    steps::lemma_drained(h, k);
    let d = h.drained(k);
    if d.slab(k).stocked(class, k) is Some {
        steps::lemma_served(d, k, class);
    } else {
        assert(h.arena->0.next == 512);
        assert(h.small(k, class).0.wf());
    }
}

proof fn lemma_tight(h: HeapState, size: int, pages: int)
    requires
        h.wf(),
        h.arena is Some,
        size > 0,
        pages * 4096 - 4096 < size <= pages * 4096,
        h.large(size).1 != 0,
    ensures
        ({
            let (m, r) = h.large(size);
            let n = m.block(r)->0;
            &&& m.block(r) is Some
            &&& size <= n
            &&& m.in_pool(r) ==> n < size + 32 && m.arena->0.next == h.arena->0.next
            &&& !m.in_pool(r) && h.runs.spare.contains(r) ==> m.arena->0.next == h.arena->0.next
            &&& !m.in_pool(r) && !h.runs.spare.contains(r) ==> n == pages * 4096 && m.arena->0.next
                == h.arena->0.next + pages
        }),
{
    lemma_route(h, size, pages);
    laws::lemma_large(h, size);
    if h.tlsf.fit(size) is None {
        laws::lemma_whole_pages(h, size);
        let r = h.large(size).1;
        if h.runs.spare.contains(r) {
            if !(exists|p: int| h.runs.spare.contains(p) && h.runs.sizes[p] >= size) {
                steps::lemma_run_added(h, size);
                let i = h.runs.spare.index_of(r);
                assert(h.runs.spare[i] == r);
                assert(h.runs.sizes.dom().contains(r));
                assert(h.run_ok(r));
                crate::arena::address_names_page(h.arena->0, h.arena->0.next, r);
            }
        }
    }
}

/// A block is resized whenever a block of the new size can be had: the result
/// is where that block lies, and null where there is none. On success the old
/// block has been given back, the new one is as large as asked for, and the
/// others are as before; on failure all are.
pub proof fn realloc_succeeds_when_malloc_does(
    h: HeapState,
    handle: int,
    p: int,
    size: int,
    os: Grants,
    again: bool,
)
    requires
        h.wf(),
        h.knows(handle),
        size > 0,
        h.block(p) is Some,
        h.block(p)->0 > 0,
        laws::grants_are_new(h, size, os),
    ensures
        ({
            let out = h.moved(handle, p, size, os, again);
            let m = h.malloc(handle, size, os);
            &&& out.ptr == m.ptr
            &&& out.ptr == 0 ==> out.heap == m.heap && out.handle == m.handle
                && out.heap.same_blocks_but(h, 0)
            &&& out.ptr != 0 ==> {
                &&& out.ptr != p
                &&& out.heap.block(p) is None
                &&& out.heap.block(out.ptr) == m.heap.block(out.ptr)
                &&& out.heap.block(out.ptr) is Some
                &&& out.heap.block(out.ptr)->0 >= size
                &&& out.heap.same_blocks_but_two(h, p, out.ptr)
                &&& out.heap == m.heap.freed(m.handle, p, (Grants { arena: None, page: again, huge: None })).heap
                &&& handle != 0 ==> out.handle == handle
                &&& m.handle != 0 ==> out.handle == m.handle
            }
            &&& h.move_target(handle, size, os) == m
        }),
{
    let m = h.malloc(handle, size, os);
    assert(h.inited(os.arena).inited(None) == h.inited(os.arena));
    assert(h.move_target(handle, size, os) == m);
    laws::malloc_hands_out_a_new_block(h, handle, size, os);
    if m.ptr != 0 {
        assert(m.ptr != p);
        assert(m.heap.block(p) == h.block(p));
        let g = Grants { arena: None, page: again, huge: None };
        laws::free_takes_the_block_back(m.heap, m.handle, p, g);
        let out = h.moved(handle, p, size, os, again);
        assert(out.heap.block(m.ptr) == m.heap.block(m.ptr));
        assert forall|q: int| #[trigger]
            h.block(q) is Some && h.block(q)->0 > 0 && q != p && q != m.ptr implies out.heap.block(q)
            == h.block(q) by {
            assert(m.heap.block(q) == h.block(q));
        }
        assert forall|q: int| #[trigger] out.heap.block(q) is Some && q != m.ptr implies h.block(q)
            == out.heap.block(q) by {
            assert(m.heap.block(q) == out.heap.block(q));
        }
    }
}

/// The alignments that can be asked for are the powers of two from 8 on.
pub proof fn alignments_are_powers_of_two(n: int)
    ensures
        HeapState::is_alignment(n) <==> exists|k: nat| k >= 3 && n == #[trigger] pow2(k),
{
    broadcast use vstd::arithmetic::power2::lemma_pow2_pos;

    if HeapState::is_alignment(n) {
        vstd::arithmetic::power2::is_pow2_equiv(n);
        let k = choose|k: nat| vstd::arithmetic::power::pow(2, k) == n;
        vstd::arithmetic::power2::lemma_pow2(k);
        assert(n == pow2(k));
        vstd::arithmetic::power2::lemma2_to64();
        assert(k != 0 && k != 1 && k != 2);
    }
    if exists|k: nat| k >= 3 && n == #[trigger] pow2(k) {
        let k = choose|k: nat| k >= 3 && n == #[trigger] pow2(k);
        vstd::arithmetic::power2::lemma_pow2(k);
        vstd::arithmetic::power2::is_pow2_equiv(n);
        vstd::arithmetic::power2::lemma_pow2_adds((k - 3) as nat, 3);
        vstd::arithmetic::power2::lemma2_to64();
        assert(n == pow2((k - 3) as nat) * 8);
    }
}

/// Alignments from 32 up to a page are served whenever the operating system
/// maps the size and a page, whatever the size: the block starts one page into
/// the mapping.
pub proof fn aligned_requests_get_their_mapping(
    h: HeapState,
    handle: int,
    k: nat,
    size: int,
    os: OsReplies,
    base: int,
    total: int,
)
    requires
        5 <= k <= 12,
        0 <= size,
        size + 8191 <= usize::MAX,
        total % 4096 == 0,
        size + 4096 <= total < size + 8192,
        maps(os.huge, base, total),
    ensures
        ({
            let out = h.aligned(handle, pow2(k) as int, size, os.grants(size));
            &&& out.ptr == base + 4096
            &&& out.ptr != 0
            &&& out.ptr % (pow2(k) as int) == 0
            &&& out.handle == handle
            &&& h.clear_of_arena(base, base + total) && size > 0 ==> out.heap.block(out.ptr) == Some(
                total - 4096,
            )
            &&& total - 4096 >= size
            &&& out.heap.arena == h.arena
            &&& out.heap.tlsf == h.tlsf
            &&& out.heap.runs == h.runs
            &&& out.heap.slabs == h.slabs
            &&& out.heap.next_id == h.next_id
        }),
{
    mappings_of_the_right_size_are_taken(os, base, size, total);
    alignments_are_powers_of_two(pow2(k) as int);
    assert(HugeBlocks::total(size) == total);
    vstd::arithmetic::power2::lemma2_to64();
    if k < 12 {
        vstd::arithmetic::power2::lemma_pow2_strictly_increases(k, 12);
    }
    if k > 5 {
        vstd::arithmetic::power2::lemma_pow2_strictly_increases(5, k);
    }
    assert(k == 5 || k == 6 || k == 7 || k == 8 || k == 9 || k == 10 || k == 11 || k == 12);
    assert((base + 4096) % 4096 == 0);
    assert(pow2(6) == 64 && pow2(7) == 128 && pow2(8) == 256 && pow2(9) == 512 && pow2(10) == 1024
        && pow2(11) == 2048 && pow2(12) == 4096 && pow2(5) == 32);
    assert((base + 4096) % 32 == 0 && (base + 4096) % 64 == 0 && (base + 4096) % 128 == 0 && (base + 4096)
        % 256 == 0 && (base + 4096) % 512 == 0 && (base + 4096) % 1024 == 0 && (base + 4096) % 2048 == 0);
}

/// Alignments up to 16 hold of every block; larger ones than a page and numbers
/// that are no alignment get nothing and change nothing.
pub proof fn other_alignments(h: HeapState, handle: int, alignment: int, size: int, os: Grants)
    ensures
        alignment == 8 || alignment == 16 ==> h.aligned(handle, alignment, size, os) == h.malloc(
            handle,
            size,
            os,
        ),
        alignment > 4096 || !HeapState::is_alignment(alignment) ==> h.aligned(handle, alignment, size, os)
            == (Outcome { heap: h, handle, ptr: 0 }),
{
    if alignment == 8 || alignment == 16 {
        vstd::arithmetic::power2::lemma2_to64();
        alignments_are_powers_of_two(alignment);
        assert(pow2(3) == 8 && pow2(4) == 16);
    }
}

/// What is to be unmapped is the whole mapping of a huge block: its page in
/// front and its bytes. Giving back another address unmaps nothing.
pub proof fn mappings_are_given_back_whole(h: HeapState, p: int, r: Option<Region>)
    requires
        h.wf(),
        unmaps(h, p, r),
    ensures
        !h.in_arena(p) && h.block(p) is Some ==> {
            &&& r is Some
            &&& r->0.base == p - 4096
            &&& r->0.bytes@.len() == h.block(p)->0 + 4096
        },
        h.in_arena(p) || h.block(p) is None ==> r is None,
{
}

/// The mapping that was made for a huge request is the one that is unmapped
/// when the block is given back, and with the block it is gone.
pub proof fn huge_mapping_comes_and_goes(
    h: HeapState,
    handle: int,
    size: int,
    os: OsReplies,
    base: int,
    total: int,
    back: Grants,
    r: Option<Region>,
)
    requires
        h.wf(),
        h.knows(handle),
        0x4_0000 <= size,
        size + 8191 <= usize::MAX,
        total % 4096 == 0,
        size + 4096 <= total < size + 8192,
        maps(os.huge, base, total),
        h.clear_of_huge(base, base + total),
        h.clear_of_arena(base, base + total),
        os.arena matches Some(a) ==> os.huge->0.apart(a),
        laws::grants_are_new(h, size, os.grants(size)),
        back.arena is None,
        ({
            let out = h.malloc(handle, size, os.grants(size));
            unmaps(out.heap, out.ptr, r)
        }),
    ensures
        r is Some,
        r->0.base == base,
        r->0.bytes@.len() == total,
        ({
            let out = h.malloc(handle, size, os.grants(size));
            let f = out.heap.freed(out.handle, out.ptr, back).heap;
            f.block(out.ptr) is None && !f.huge.dom().contains(out.ptr) && f.huge.dom() =~= h.huge.dom().remove(out.ptr)
        }),
{
    huge_requests_get_their_mapping(h, handle, size, os, base, total);
    laws::malloc_hands_out_a_new_block(h, handle, size, os.grants(size));
    let out = h.malloc(handle, size, os.grants(size));
    mappings_are_given_back_whole(out.heap, out.ptr, r);
    laws::free_takes_the_block_back(out.heap, out.handle, out.ptr, back);
}

/// Addresses that are none of the heap's have no size: those outside the arena
/// that no huge block starts at, and those in pages that are neither split nor
/// the pool's nor held.
pub proof fn other_addresses_have_no_size(h: HeapState, p: int)
    ensures
        !h.in_arena(p) && !h.huge.dom().contains(p) ==> h.usable(p) == 0,
        h.in_arena(p) && h.class_at(p) == 0xFF && !h.in_pool(p) && h.block(p) is None ==> h.usable(p) == 0,
        h.block(p) is Some ==> h.usable(p) == h.block(p)->0,
{
}

/// Null, every block that is held and every address outside the arena can be
/// given back.
pub proof fn blocks_can_be_given_back(h: HeapState, p: int)
    ensures
        p == 0 || h.block(p) is Some || !h.in_arena(p) ==> h.may_free(p),
{
}

/// The operating system is not needed where the heap has what it takes: its
/// answers on arenas have no bearing once there is one, those on pages none for
/// a thread that has a cache, and for requests above 1 KB, and those on mappings
/// none below 256 KB.
pub proof fn answers_that_are_not_needed(h: HeapState, handle: int, size: int, os: Grants, other: Grants)
    requires
        h.arena is None ==> os.arena == other.arena,
        handle == 0 && size <= 1024 && h.next_id < 128 ==> os.page == other.page,
        size >= 0x4_0000 ==> os.huge == other.huge,
    ensures
        h.malloc(handle, size, os) == h.malloc(handle, size, other),
{
    assert(h.inited(os.arena) == h.inited(other.arena));
    let s = h.inited(os.arena);
    if size <= 1024 {
        assert(s.joined(handle, os.page) == s.joined(handle, other.page));
    }
}

/// Answers that are left out are no grants; the others are as they were.
pub proof fn answers_left_out(os: Grants, arena: bool, page: bool, huge: bool)
    ensures
        ({
            let g = os.asked(arena, page, huge);
            &&& arena ==> g.arena == os.arena
            &&& !arena ==> g.arena is None
            &&& page ==> g.page == os.page
            &&& !page ==> !g.page
            &&& huge ==> g.huge == os.huge
            &&& !huge ==> g.huge is None
        }),
{
}

/// A new heap holds no block, has no arena and no cache.
pub proof fn new_heap_holds_nothing(p: int)
    ensures
        HeapState::empty().wf(),
        HeapState::empty().block(p) is None,
        HeapState::empty().arena is None,
        HeapState::empty().next_id == 0,
        HeapState::empty().next_arena == 1,
        HeapState::empty().usable(p) == 0,
{
}

/// A call that keeps the client's bytes keeps every byte of every block that
/// was held.
pub proof fn bytes_of_blocks_are_kept(new: Heap, old_heap: Heap, p: int, i: int)
    requires
        new.keeps_bytes(old_heap),
        old_heap@.block(p) is Some,
        0 <= i < old_heap@.block(p)->0,
    ensures
        new.byte(p + i) == old_heap.byte(p + i),
{
    assert(old_heap@.owns(p + i));
}

/// A block that is given back takes no byte of another block with it.
pub proof fn bytes_of_other_blocks_are_kept(new: Heap, old_heap: Heap, p: int, i: int)
    requires
        new.keeps_rest(old_heap),
        new@.block(p) is Some,
        0 <= i < new@.block(p)->0,
    ensures
        new.byte(p + i) == old_heap.byte(p + i),
{
    assert(new@.owns(p + i));
}

/// Where bytes are copied, the first `n` bytes of the new block are those of
/// the old one, and the bytes of other blocks are as they were.
pub proof fn copied_bytes(new: Heap, m: Heap, from: int, to: int, n: int, p: int, i: int)
    requires
        new.copied(m, from, to, n),
        new@.block(p) is Some,
        0 <= i < new@.block(p)->0,
    ensures
        p == to && i < n ==> new.byte(to + i) == m.byte(from + i),
        !(to <= p + i < to + n) ==> new.byte(p + i) == m.byte(p + i),
{
    assert(new@.owns(p + i));
}

/// As many bytes are copied as both blocks have.
pub proof fn lesser_size_is_copied(a: int, b: int)
    ensures
        least(a, b) <= a,
        least(a, b) <= b,
        least(a, b) == a || least(a, b) == b,
{
}

/// The first request below 256 KB succeeds if the operating system maps the
/// arena.
pub proof fn first_request_succeeds(h: HeapState, handle: int, size: int, os: OsReplies, base: int)
    requires
        h.wf(),
        h.arena is None,
        h.knows(handle),
        0 < size < 0x4_0000,
        maps(os.arena, base, 0x20_0000),
        h.clear_of_huge(base, base + 0x20_0000),
    ensures
        h.malloc(handle, size, os.grants(size)).ptr != 0,
{
    let g = os.grants(size);
    first_arena(h, os, size, base);
    let s1 = h.inited(g.arena);
    steps::lemma_inited(h, g.arena);
    assert(s1.knows(handle));
    let plain = Grants { arena: None, ..g };
    assert(s1.inited(None) == s1);
    assert(h.malloc(handle, size, g).ptr == s1.malloc(handle, size, plain).ptr);
    if s1.malloc(handle, size, plain).ptr == 0 {
        let need = (size + 15) / 16 * 16;
        requests_fail_only_without_room(s1, handle, size, plain, need, (size + 4095) / 4096);
        assert(s1.tlsf.has(s1.tlsf.start));
    }
}

/// The usable size reaches as far as nothing else begins: up to the header
/// of the next block in the pool, and up to the next slot in a page.
pub proof fn usable_size_reaches_to_the_next_block(h: HeapState, p: int)
    requires
        h.wf(),
        h.in_arena(p),
        h.block(p) is Some,
    ensures
        h.class_at(p) == 0xFF && h.in_pool(p) ==> h.tlsf.has(p + h.usable(p)) && forall|x: int| #[trigger]
            h.tlsf.has(x) && x > p - 16 ==> x >= p + h.usable(p),
        h.class_at(p) != 0xFF ==> forall|s: int|
            h.arena->0.slot(h.arena->0.page_of(p), s + 1) - #[trigger] h.arena->0.slot(
                h.arena->0.page_of(p),
                s,
            ) == h.usable(p),
        h.class_at(p) == 0xFF && !h.in_pool(p) ==> h.usable(p) % 4096 == 0 && p % 4096 == 0 && forall|q: int|
            #[trigger] h.runs.sizes.dom().contains(q) && q > p ==> q >= p + h.usable(p),
{
    laws::lemma_block_place(h, p);
    if h.class_at(p) == 0xFF && h.in_pool(p) {
        assert(h.tlsf.has(p - 16));
        assert(h.tlsf.next(p - 16) == p + h.usable(p));
    } else if h.class_at(p) != 0xFF {
        let z = h.usable(p);
        assert forall|s: int|
            h.arena->0.slot(h.arena->0.page_of(p), s + 1) - #[trigger] h.arena->0.slot(
                h.arena->0.page_of(p),
                s,
            ) == z by {
            assert((s + 1) * z == s * z + z) by (nonlinear_arith);
        }
    } else {
        assert(h.run_ok(p));
    }
}

/// Giving back null changes nothing.
pub proof fn null_is_ignored(h: HeapState, handle: int, os: Grants)
    ensures
        h.freed(handle, 0, os) == (Outcome { heap: h, handle, ptr: 0 }),
{
}

/// Giving back an address that no block starts at, outside the arena or in
/// whole pages, leaves all memory as it is.
pub proof fn foreign_addresses_are_ignored(h: HeapState, handle: int, p: int, os: Grants)
    requires
        h.wf(),
        h.arena is Some,
        h.block(p) is None,
        h.in_arena(p) ==> h.class_at(p) == 0xFF && !h.in_pool(p),
    ensures
        ({
            let n = h.freed(handle, p, os).heap;
            &&& n.arena == h.arena
            &&& n.tlsf == h.tlsf
            &&& n.runs == h.runs
            &&& n.huge =~= h.huge
        }),
{
}

/// A thread that gives something back is given a cache if it has none, as long
/// as there are caches to be had.
pub proof fn giving_back_takes_a_cache(h: HeapState, handle: int, p: int, os: Grants)
    requires
        h.wf(),
        h.arena is Some,
        p != 0,
    ensures
        ({
            let out = h.freed(handle, p, os);
            &&& out.ptr == 0
            &&& handle != 0 ==> out.handle == handle && out.heap.next_id == h.next_id
            &&& handle == 0 && os.page && h.next_id < 128 ==> out.handle == h.next_id + 1
                && out.heap.next_id == h.next_id + 1
            &&& handle == 0 && (!os.page || h.next_id >= 128) ==> out.handle == 0
        }),
{
}

/// A thread's table means what it meant, and caches stay on their pages.
pub proof fn tables_keep_their_meaning(new: Heap, old_heap: Heap, tls: ThreadLocals, k: int)
    requires
        new.continues(old_heap),
    ensures
        old_heap.knows(tls) ==> new.knows(tls) && new.handle(tls) == old_heap.handle(tls),
        old_heap.cache_page(k) is Some ==> new.cache_page(k) == old_heap.cache_page(k),
{
}

/// A new cache lies on the page that the operating system gave for it.
pub proof fn caches_lie_on_their_pages(new: Heap, handle: int, old_heap: Heap, page: Option<Region>)
    requires
        new.new_cache_on(handle, old_heap, 0, page),
        handle != 0,
    ensures
        new.cache_page(handle - 1) == page,
        old_heap.cache_page(handle - 1) is None,
{
}

/// Mappings that share no address with those in use, nor with each other, can
/// be offered; so can none at all.
pub proof fn new_mappings_can_be_offered(heap: Heap, os: OsReplies)
    ensures
        os.arena is None && os.huge is None ==> heap.offered(os),
        (os.arena matches Some(a) ==> heap@.clear_of_huge(a.base as int, a.end())) && (os.huge matches Some(r)
            ==> heap@.clear_of_huge(r.base as int, r.end()) && heap@.clear_of_arena(
            r.base as int,
            r.end(),
        ) && (os.arena matches Some(a) ==> r.end() <= a.base || a.end() <= r.base)) ==> heap.offered(os),
{
}

} // verus!
