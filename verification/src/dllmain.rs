//! What the hooks on a process's heap functions do.
//!
//! Each hook either answers a call from the heap or leaves it to the function
//! that it replaced, if there is one. Installing hooks and calling the replaced
//! functions is not done here.

use vstd::prelude::*;

use crate::api::model::Grants;
use crate::api::{
    ferrum_free, ferrum_malloc, ferrum_realloc, ferrum_usable_size, lemma_old_owner, unmaps, Heap, OsReplies,
};
use crate::memory::Region;
use crate::platform::{is_mapping, ThreadLocals, PAGE_SIZE};

verus! {

/// Answer to a call that wants a block.
pub enum BlockAnswer {
    /// The address of the block, or 0; what is to be unmapped, if anything.
    Block(usize, Option<Region>),
    /// The replaced function is to be called.
    Original,
}

/// Answer to a call that gives a block back.
pub enum FreeAnswer {
    /// Success; what is to be unmapped, if anything.
    Freed(Option<Region>),
    /// The replaced function is to be called.
    Original,
}

/// Answer to a call that asks for a size.
pub enum SizeAnswer {
    Size(usize),
    /// The replaced function is to be called.
    Original,
}

/// Hook on `HeapAlloc`: the heap allocates; what it cannot serve is left to the
/// replaced function.
pub fn hooked_heap_alloc(
    heap: &mut Heap,
    tls: &mut ThreadLocals,
    os: OsReplies,
    bytes: usize,
    has_original: bool,
) -> (r: BlockAnswer)
    requires
        old(heap).wf(),
        old(heap).knows(*old(tls)),
        old(heap).offered(os),
    ensures
        final(heap).wf(),
        final(heap).knows(*final(tls)),
        ({
            let out = old(heap)@.malloc(old(heap).handle(*old(tls)), bytes as int, os.grants(bytes as int));
            &&& final(heap)@ == out.heap
            &&& final(heap).handle(*final(tls)) == out.handle
            &&& match r {
                BlockAnswer::Block(p, region) => p == out.ptr && region is None && (out.ptr != 0
                    || !has_original),
                BlockAnswer::Original => out.ptr == 0 && has_original,
            }
            &&& final(heap)@.same_blocks_but(old(heap)@, out.ptr)
        }),
        final(heap).keeps_bytes(*old(heap)),
        final(heap).continues(*old(heap)),
        final(heap).new_cache_on(
            final(heap).handle(*final(tls)),
            *old(heap),
            old(heap).handle(*old(tls)),
            os.page,
        ),
{
    let ptr: usize = ferrum_malloc(heap, tls, os, bytes);
    if ptr == 0 && has_original {
        return BlockAnswer::Original;
    }
    BlockAnswer::Block(ptr, None)
}

/// Hook on `HeapFree`: a block of the heap goes back to it; other
/// addresses are left to the replaced function.
pub fn hooked_heap_free(
    heap: &mut Heap,
    tls: &mut ThreadLocals,
    os: OsReplies,
    mem: usize,
    has_original: bool,
) -> (r: FreeAnswer)
    requires
        old(heap).wf(),
        old(heap).knows(*old(tls)),
        old(heap).offered(os),
        old(heap)@.inited(os.grants(0).arena).may_free(mem as int),
    ensures
        final(heap).wf(),
        final(heap).knows(*final(tls)),
        ({
            let h = old(heap)@;
            let e = old(heap).handle(*old(tls));
            let s1 = h.inited(os.grants(0).arena);
            if mem == 0 {
                r == FreeAnswer::Freed(None) && *final(heap) == *old(heap) && *final(tls) == *old(tls)
            } else if s1.usable(mem as int) > 0 {
                let out = s1.freed(e, mem as int, (Grants { arena: None, ..os.grants(0) }));
                &&& final(heap)@ == out.heap
                &&& final(heap).handle(*final(tls)) == out.handle
                &&& r matches FreeAnswer::Freed(region) && unmaps(s1, mem as int, region)
            } else {
                &&& final(heap)@ == s1
                &&& *final(tls) == *old(tls)
                &&& r == (if has_original {
                    FreeAnswer::Original
                } else {
                    FreeAnswer::Freed(None)
                })
            }
        }),
        final(heap).keeps_rest(*old(heap)),
        old(heap)@.inited(os.grants(0).arena).block(mem as int) matches Some(n) && n > 0
            ==> r !is Original,
        final(heap).continues(*old(heap)),
        final(heap).new_cache_on(
            final(heap).handle(*final(tls)),
            *old(heap),
            old(heap).handle(*old(tls)),
            os.page,
        ),
{
    if mem == 0 {
        return FreeAnswer::Freed(None);
    }
    let ghost g = os.grants(0);
    let rest = OsReplies { arena: None, page: os.page, huge: os.huge };
    proof {
        heap.lemma_offered_parts(os);
        heap.lemma_inited_blocks(os);
        assert(rest.grants(0) == (Grants { arena: None, ..g }));
    }
    let usable: usize = ferrum_usable_size(heap, os.arena, mem);
    if usable > 0 {
        let region = ferrum_free(heap, tls, rest, mem);
        return FreeAnswer::Freed(region);
    }
    if has_original {
        return FreeAnswer::Original;
    }
    FreeAnswer::Freed(None)
}

/// Hook on `HeapReAlloc`: null is allocated; a block of the heap is moved
/// within it; other addresses are left to the replaced function, and are
/// answered with 0 if there is none.
///
/// `has_alloc` says whether `HeapAlloc` had a replaced function, `has_original`
/// whether this one has. `again` is the operating system's answer to a second
/// request for the page of a cache.
pub fn hooked_heap_realloc(
    heap: &mut Heap,
    tls: &mut ThreadLocals,
    os: OsReplies,
    again: Option<Region>,
    mem: usize,
    bytes: usize,
    has_alloc: bool,
    has_original: bool,
) -> (r: BlockAnswer)
    requires
        old(heap).wf(),
        old(heap).knows(*old(tls)),
        old(heap).offered(os),
        mem != 0 ==> old(heap)@.inited(os.grants(0).arena).may_free(mem as int),
        mem != 0 && old(heap)@.inited(os.grants(0).arena).usable(mem as int) > 0 ==> old(heap)@.block(
            mem as int,
        ) is Some && old(heap)@.block(mem as int)->0 > 0,
    ensures
        final(heap).wf(),
        final(heap).knows(*final(tls)),
        ({
            let h = old(heap)@;
            let e = old(heap).handle(*old(tls));
            let g = os.grants(bytes as int);
            let s1 = h.inited(g.arena);
            if mem == 0 {
                let out = h.malloc(e, bytes as int, g);
                &&& final(heap)@ == out.heap
                &&& final(heap).handle(*final(tls)) == out.handle
                &&& match r {
                    BlockAnswer::Block(p, region) => p == out.ptr && region is None && (out.ptr != 0
                        || !has_alloc),
                    BlockAnswer::Original => out.ptr == 0 && has_alloc,
                }
            } else if s1.usable(mem as int) > 0 {
                let rest = Grants { arena: None, ..g };
                let out = if bytes == 0 {
                    s1.freed(e, mem as int, rest)
                } else {
                    s1.moved(e, mem as int, bytes as int, rest, is_mapping(again, PAGE_SIZE as int))
                };
                &&& final(heap)@ == out.heap
                &&& final(heap).handle(*final(tls)) == out.handle
                &&& r matches BlockAnswer::Block(p, region) && p == out.ptr && (if bytes > 0 && p == 0 {
                    region is None
                } else {
                    unmaps(s1, mem as int, region)
                }) && (bytes > 0 && p != 0 ==> forall|i: int|
                    0 <= i < bytes && i < h.block(mem as int)->0 ==> #[trigger] final(heap).byte(p + i)
                        == old(heap).byte(mem + i))
            } else {
                &&& final(heap)@ == s1
                &&& *final(tls) == *old(tls)
                &&& r == (if has_original {
                    BlockAnswer::Original
                } else {
                    BlockAnswer::Block(0, None)
                })
            }
        }),
        ({
            let p = match r {
                BlockAnswer::Block(p, _) => p,
                BlockAnswer::Original => 0,
            };
            forall|x: int|
                final(heap)@.owns(x) && !(p != 0 && p <= x < p + final(heap)@.block(p as int)->0)
                    ==> #[trigger] final(heap).byte(x) == old(heap).byte(x)
        }),
        mem != 0 ==> (old(heap)@.inited(os.grants(0).arena).block(mem as int) matches Some(n) && n > 0
            ==> r !is Original),
        final(heap).continues(*old(heap)),
        final(heap).new_cache_on(
            final(heap).handle(*final(tls)),
            *old(heap),
            old(heap).handle(*old(tls)),
            if mem == 0 || bytes == 0 || old(heap)@.move_target(
                old(heap).handle(*old(tls)),
                bytes as int,
                os.grants(bytes as int),
            ).handle != 0 {
                os.page
            } else {
                again
            },
        ),
{
    let ghost h = heap@;
    if mem == 0 {
        let r = hooked_heap_alloc(heap, tls, os, bytes, has_alloc);
        proof {
            let p = match r {
                BlockAnswer::Block(p, _) => p,
                BlockAnswer::Original => 0,
            };
            heap.lemma_state();
            assert forall|x: int|
                heap@.owns(x) && !(p != 0 && p <= x < p + heap@.block(p as int)->0) implies #[trigger] heap.byte(
            x) == old(heap).byte(x) by {
                lemma_old_owner(h, heap@, p as int, x);
            }
        }
        return r;
    }
    let ghost g = os.grants(bytes as int);
    let rest = OsReplies { arena: None, page: os.page, huge: os.huge };
    proof {
        heap.lemma_offered_parts(os);
        heap.lemma_inited_blocks(os);
        assert(rest.grants(bytes as int) == (Grants { arena: None, ..g }));
    }
    let usable: usize = ferrum_usable_size(heap, os.arena, mem);
    let ghost heap1 = *heap;
    proof {
        assert forall|x: int| heap@.owns(x) implies #[trigger] heap.byte(x) == old(heap).byte(x) by {
            lemma_old_owner(h, heap@, 0, x);
        }
    }
    if usable > 0 {
        let (p, region) = ferrum_realloc(heap, tls, rest, again, mem, bytes);
        proof {
            heap.lemma_state();
            assert forall|x: int|
                heap@.owns(x) && !(p != 0 && p <= x < p + heap@.block(p as int)->0) implies #[trigger] heap.byte(
            x) == old(heap).byte(x) by {
                let q = choose|q: int| #[trigger]
                    heap@.block(q) is Some && q <= x < q + heap@.block(q)->0;
                assert(heap1@.block(q) == heap@.block(q));
                assert(heap1@.owns(x));
                assert(heap.byte(x) == heap1.byte(x));
                assert(heap1.byte(x) == old(heap).byte(x));
            }
            assert forall|i: int|
                bytes > 0 && p != 0 && 0 <= i < bytes && i < h.block(mem as int)->0 implies #[trigger] heap.byte(
            p + i) == old(heap).byte(mem + i) by {
                assert(heap1@.block(mem as int) == h.block(mem as int));
                assert(heap.byte(p + i) == heap1.byte(mem + i));
                assert(h.owns(mem + i)) by {
                    assert(h.block(mem as int) is Some);
                }
                assert(heap1.byte(mem + i) == old(heap).byte(mem + i));
            }
        }
        return BlockAnswer::Block(p, region);
    }
    if has_original {
        return BlockAnswer::Original;
    }
    BlockAnswer::Block(0, None)
}

/// Hook on `HeapSize`: the usable size of a block; the size at an address that
/// is none of the heap's is left to the replaced function, and is 0 if there is
/// none.
pub fn hooked_heap_size(
    heap: &mut Heap,
    reply: Option<Region>,
    mem: usize,
    has_original: bool,
) -> (r: SizeAnswer)
    requires
        old(heap).wf(),
        old(heap).offered(OsReplies { arena: reply, page: None, huge: None }),
        old(heap)@.inited((OsReplies { arena: reply, page: None, huge: None }).grants(0).arena).may_free(
            mem as int,
        ),
    ensures
        final(heap).wf(),
        ({
            let s1 = old(heap)@.inited((OsReplies { arena: reply, page: None, huge: None }).grants(0).arena);
            if mem == 0 {
                r == SizeAnswer::Size(0) && *final(heap) == *old(heap)
            } else {
                &&& final(heap)@ == s1
                &&& r == (if s1.usable(mem as int) == 0 && has_original {
                    SizeAnswer::Original
                } else {
                    SizeAnswer::Size(s1.usable(mem as int) as usize)
                })
            }
        }),
        final(heap).keeps_bytes(*old(heap)),
        old(heap)@.inited((OsReplies { arena: reply, page: None, huge: None }).grants(0).arena).block(mem as int) matches Some(n) && n > 0
            ==> r !is Original,
        final(heap).continues(*old(heap)),
{
    if mem == 0 {
        return SizeAnswer::Size(0);
    }
    let usable: usize = ferrum_usable_size(heap, reply, mem);
    if usable > 0 {
        return SizeAnswer::Size(usable);
    }
    if has_original {
        return SizeAnswer::Original;
    }
    SizeAnswer::Size(0)
}

/// Hook on `malloc`.
pub fn hooked_malloc(heap: &mut Heap, tls: &mut ThreadLocals, os: OsReplies, size: usize) -> (r: usize)
    requires
        old(heap).wf(),
        old(heap).knows(*old(tls)),
        old(heap).offered(os),
    ensures
        final(heap).wf(),
        final(heap).knows(*final(tls)),
        ({
            let out = old(heap)@.malloc(old(heap).handle(*old(tls)), size as int, os.grants(size as int));
            &&& final(heap)@ == out.heap
            &&& final(heap).handle(*final(tls)) == out.handle
            &&& r == out.ptr
            &&& final(heap)@.same_blocks_but(old(heap)@, out.ptr)
        }),
        final(heap).keeps_bytes(*old(heap)),
        final(heap).continues(*old(heap)),
        final(heap).new_cache_on(
            final(heap).handle(*final(tls)),
            *old(heap),
            old(heap).handle(*old(tls)),
            os.page,
        ),
{
    ferrum_malloc(heap, tls, os, size)
}

/// Hook on `free`: a block of the heap goes back to it; other addresses
/// are left to the replaced function, and are ignored if there is none.
pub fn hooked_free(
    heap: &mut Heap,
    tls: &mut ThreadLocals,
    os: OsReplies,
    ptr: usize,
    has_original: bool,
) -> (r: FreeAnswer)
    requires
        old(heap).wf(),
        old(heap).knows(*old(tls)),
        old(heap).offered(os),
        old(heap)@.inited(os.grants(0).arena).may_free(ptr as int),
    ensures
        final(heap).wf(),
        final(heap).knows(*final(tls)),
        ({
            let h = old(heap)@;
            let e = old(heap).handle(*old(tls));
            let s1 = h.inited(os.grants(0).arena);
            if ptr == 0 {
                r == FreeAnswer::Freed(None) && *final(heap) == *old(heap) && *final(tls) == *old(tls)
            } else if s1.usable(ptr as int) > 0 {
                let out = s1.freed(e, ptr as int, (Grants { arena: None, ..os.grants(0) }));
                &&& final(heap)@ == out.heap
                &&& final(heap).handle(*final(tls)) == out.handle
                &&& r matches FreeAnswer::Freed(region) && unmaps(s1, ptr as int, region)
            } else {
                &&& final(heap)@ == s1
                &&& *final(tls) == *old(tls)
                &&& r == (if has_original {
                    FreeAnswer::Original
                } else {
                    FreeAnswer::Freed(None)
                })
            }
        }),
        final(heap).keeps_rest(*old(heap)),
        old(heap)@.inited(os.grants(0).arena).block(ptr as int) matches Some(n) && n > 0
            ==> r !is Original,
        final(heap).continues(*old(heap)),
        final(heap).new_cache_on(
            final(heap).handle(*final(tls)),
            *old(heap),
            old(heap).handle(*old(tls)),
            os.page,
        ),
{
    hooked_heap_free(heap, tls, os, ptr, has_original)
}

} // verus!
