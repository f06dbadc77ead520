use ferrum_alloc::api::{
    calloc, ensure_init, ferrum_calloc, ferrum_free, ferrum_malloc, ferrum_realloc, ferrum_usable_size,
    fill_block, free, free_requests, malloc, malloc_requests, memalign_requests, posix_memalign, read_block,
    realloc, realloc_requests, write_block, Heap, OsReplies, OsRequests, EINVAL, ENOMEM,
};
use ferrum_alloc::arena::MAX_ALIGN;
use ferrum_alloc::huge::HUGE_ALLOC_THRESHOLD;
use ferrum_alloc::memory::Region;
use ferrum_alloc::platform::{ThreadLocals, DEFAULT_ARENA_SIZE, PAGE_SIZE};
use ferrum_alloc::thread_cache::MAX_THREADS;

/// An operating system that hands out fresh mappings, and a heap over it.
struct World {
    heap: Heap,
    next: usize,
    unmapped: Vec<Region>,
}

impl World {
    fn new() -> World {
        World { heap: Heap::new(), next: 0x100_0000, unmapped: Vec::new() }
    }

    fn map(&mut self, len: usize) -> Option<Region> {
        let base = self.next;
        self.next += len + 0x10_0000;
        Some(Region { base, bytes: vec![0u8; len] })
    }

    fn answer(&mut self, r: OsRequests) -> OsReplies {
        OsReplies {
            arena: if r.arena { self.map(DEFAULT_ARENA_SIZE) } else { None },
            page: if r.page { self.map(PAGE_SIZE) } else { None },
            huge: if r.huge > 0 { self.map(r.huge) } else { None },
        }
    }

    fn malloc(&mut self, tls: &mut ThreadLocals, size: usize) -> usize {
        let os = self.answer(malloc_requests(&self.heap, tls, size));
        ferrum_malloc(&mut self.heap, tls, os, size)
    }

    fn free(&mut self, tls: &mut ThreadLocals, p: usize) {
        let os = self.answer(free_requests(&self.heap, tls, p));
        if let Some(r) = ferrum_free(&mut self.heap, tls, os, p) {
            self.unmapped.push(r);
        }
    }

    fn calloc(&mut self, tls: &mut ThreadLocals, count: usize, size: usize) -> usize {
        let total = count.checked_mul(size).unwrap_or(0);
        let os = self.answer(malloc_requests(&self.heap, tls, total));
        ferrum_calloc(&mut self.heap, tls, os, count, size)
    }

    fn realloc(&mut self, tls: &mut ThreadLocals, p: usize, size: usize) -> usize {
        let (requests, again) = realloc_requests(&self.heap, tls, p, size);
        let os = self.answer(requests);
        let again = if again && os.page.is_none() { self.map(PAGE_SIZE) } else { None };
        let (q, region) = ferrum_realloc(&mut self.heap, tls, os, again, p, size);
        self.unmapped.extend(region);
        q
    }

    fn usable(&mut self, p: usize) -> usize {
        ferrum_usable_size(&mut self.heap, None, p)
    }

    fn write(&mut self, p: usize, i: usize, v: u8) {
        write_block(&mut self.heap, p, i, &vec![v]);
    }

    fn read(&self, p: usize, i: usize) -> u8 {
        read_block(&self.heap, p, i, 1)[0]
    }
}

#[test]
fn test_malloc_basic() {
    let (mut w, mut t) = (World::new(), ThreadLocals::new());
    let p = w.malloc(&mut t, 64);
    assert_ne!(p, 0);
    w.write(p, 0, 0xAA);
    assert_eq!(w.read(p, 0), 0xAA);
    w.free(&mut t, p);
}

#[test]
fn test_malloc_alignment() {
    let (mut w, mut t) = (World::new(), ThreadLocals::new());
    for _ in 0..10 {
        let p = w.malloc(&mut t, 17);
        assert_ne!(p, 0);
        assert_eq!(p % MAX_ALIGN, 0, "Not aligned to MAX_ALIGN");
        w.free(&mut t, p);
    }
}

#[test]
fn test_malloc_zero() {
    let (mut w, mut t) = (World::new(), ThreadLocals::new());
    let p = w.malloc(&mut t, 0);
    assert_eq!(p, 0);
}

#[test]
fn test_calloc_zeroed() {
    let (mut w, mut t) = (World::new(), ThreadLocals::new());
    let p = w.calloc(&mut t, 10, 100);
    assert_ne!(p, 0);
    for i in 0..1000 {
        assert_eq!(w.read(p, i), 0, "Byte {} not zero", i);
    }
    w.free(&mut t, p);
}

#[test]
fn test_calloc_overflow() {
    let (mut w, mut t) = (World::new(), ThreadLocals::new());
    let p = w.calloc(&mut t, usize::MAX, 2);
    assert_eq!(p, 0, "Overflow should return null");
}

#[test]
fn test_realloc_from_null() {
    let (mut w, mut t) = (World::new(), ThreadLocals::new());
    let p = w.realloc(&mut t, 0, 128);
    assert_ne!(p, 0);
    w.free(&mut t, p);
}

#[test]
fn test_realloc_to_zero() {
    let (mut w, mut t) = (World::new(), ThreadLocals::new());
    let p = w.malloc(&mut t, 64);
    assert_ne!(p, 0);
    let q = w.realloc(&mut t, p, 0);
    assert_eq!(q, 0);
}

#[test]
fn test_multiple_allocs_distinct() {
    let (mut w, mut t) = (World::new(), ThreadLocals::new());
    let mut ptrs = [0usize; 100];
    for i in 0..100 {
        ptrs[i] = w.malloc(&mut t, 32);
        assert_ne!(ptrs[i], 0);
    }
    for i in 0..100 {
        for j in (i + 1)..100 {
            assert_ne!(ptrs[i], ptrs[j]);
        }
    }
    for p in ptrs {
        w.free(&mut t, p);
    }
}

#[test]
fn test_large_alloc() {
    let (mut w, mut t) = (World::new(), ThreadLocals::new());
    let p = w.malloc(&mut t, 1024 * 1024);
    assert_ne!(p, 0);
    w.write(p, 0, 0x11);
    w.write(p, 1024 * 1024 - 1, 0x22);
    assert_eq!(w.read(p, 0), 0x11);
    assert_eq!(w.read(p, 1024 * 1024 - 1), 0x22);
    w.free(&mut t, p);
}

#[test]
fn test_alloc_free_basic() {
    let (mut w, mut t) = (World::new(), ThreadLocals::new());
    let ptr1 = w.malloc(&mut t, 32);
    assert_ne!(ptr1, 0);
    w.write(ptr1, 0, 42);
    assert_eq!(w.read(ptr1, 0), 42);

    let ptr2 = w.malloc(&mut t, 4096);
    assert_ne!(ptr2, 0);
    w.write(ptr2, 0, 99);
    assert_eq!(w.read(ptr2, 0), 99);

    let ptr3 = w.malloc(&mut t, 512 * 1024);
    assert_ne!(ptr3, 0);
    w.write(ptr3, 0, 100);
    assert_eq!(w.read(ptr3, 0), 100);

    w.free(&mut t, ptr1);
    w.free(&mut t, ptr2);
    w.free(&mut t, ptr3);
    assert_eq!(w.unmapped.len(), 1);
    assert_eq!(w.unmapped[0].base, ptr3 - PAGE_SIZE);
}

#[test]
fn test_cross_thread_free() {
    let mut w = World::new();
    let mut owner = ThreadLocals::new();
    let mut other = ThreadLocals::new();
    let ptr = w.malloc(&mut owner, 64);
    assert_ne!(ptr, 0);
    w.write(ptr, 0, 1);
    w.free(&mut other, ptr);
    let ptr2 = w.malloc(&mut owner, 64);
    assert_eq!(ptr2, ptr);
    w.free(&mut owner, ptr2);
}

#[test]
fn test_realloc_pattern() {
    let (mut w, mut t) = (World::new(), ThreadLocals::new());
    let mut ptrs = Vec::new();
    for _ in 0..100 {
        ptrs.push(w.malloc(&mut t, 128));
    }
    for i in (0..100).step_by(2) {
        w.free(&mut t, ptrs[i]);
    }
    for i in (1..100).step_by(2) {
        w.free(&mut t, ptrs[i]);
    }
}

#[test]
fn every_size_is_aligned_and_large_enough() {
    let (mut w, mut t) = (World::new(), ThreadLocals::new());
    for size in [1, 2, 7, 8, 9, 15, 16, 17, 24, 25, 33, 100, 500, 1000, 1024, 1025, 5000, 100_000, 300_000] {
        let a = w.malloc(&mut t, size);
        let b = w.malloc(&mut t, size);
        assert_ne!(a, 0);
        assert_ne!(b, 0);
        assert_eq!(a % 16, 0, "size {}", size);
        assert_eq!(b % 16, 0, "size {}", size);
        assert!(a + size <= b || b + size <= a);
        assert!(w.usable(a) >= size);
    }
}

#[test]
fn usable_sizes_by_route() {
    let (mut w, mut t) = (World::new(), ThreadLocals::new());
    let small = w.malloc(&mut t, 17);
    let medium = w.malloc(&mut t, 2000);
    let huge = w.malloc(&mut t, HUGE_ALLOC_THRESHOLD);
    assert_eq!(w.usable(small), 32);
    assert_eq!(w.usable(medium), 2000);
    assert_eq!(w.usable(huge), HUGE_ALLOC_THRESHOLD);
    assert_eq!(w.usable(0), 0);
    assert_eq!(w.usable(0x10), 0);
}

#[test]
fn pool_exhausted_falls_back_to_pages() {
    let (mut w, mut t) = (World::new(), ThreadLocals::new());
    let a = w.malloc(&mut t, 255 * 1024);
    let b = w.malloc(&mut t, 200 * 1024);
    let c = w.malloc(&mut t, 200 * 1024);
    assert_ne!(a, 0);
    assert_ne!(b, 0);
    assert_ne!(c, 0);
    assert_eq!(c % PAGE_SIZE, 0);
    assert_eq!(w.usable(c), 200 * 1024);
    w.write(c, 0, 7);
    w.write(c, 5, 8);
    let d = w.realloc(&mut t, c, 6);
    assert_eq!(read_block(&w.heap, d, 0, 6), vec![7, 0, 0, 0, 0, 8]);
    let mut n = 0;
    while w.malloc(&mut t, 100 * 1024) != 0 {
        n += 1;
    }
    assert!(n > 5);
    assert_ne!(w.malloc(&mut t, 16), 0);
}

/// A heap whose pool has no room for 4096 bytes.
fn full_pool(w: &mut World, t: &mut ThreadLocals) {
    loop {
        let p = w.malloc(t, 4096);
        assert_ne!(p, 0);
        if p % PAGE_SIZE == 0 {
            w.free(t, p);
            return;
        }
    }
}

#[test]
fn pages_given_back_are_handed_out_again() {
    let (mut w, mut t) = (World::new(), ThreadLocals::new());
    full_pool(&mut w, &mut t);
    let a = w.malloc(&mut t, 5000);
    let b = w.malloc(&mut t, 9000);
    assert_eq!((w.usable(a), w.usable(b)), (8192, 12288));
    w.free(&mut t, a);
    assert_eq!(w.usable(a), 0);
    w.free(&mut t, a);
    w.free(&mut t, b);
    let c = w.malloc(&mut t, 9000);
    assert_eq!(c, b);
    let d = w.malloc(&mut t, 5000);
    assert_eq!(d, a);
    for _ in 0..2000 {
        let p = w.malloc(&mut t, 7000);
        assert_ne!(p, 0);
        w.free(&mut t, p);
    }
}

#[test]
fn the_last_page_is_handed_out_again_and_again() {
    let (mut w, mut t) = (World::new(), ThreadLocals::new());
    let mut last = 0;
    loop {
        let p = w.malloc(&mut t, 4096);
        if p == 0 {
            break;
        }
        last = p;
    }
    w.free(&mut t, last);
    for _ in 0..10 {
        assert_eq!(w.malloc(&mut t, 4096), last);
        assert_eq!(w.malloc(&mut t, 4096), 0);
        w.free(&mut t, last);
    }
}

#[test]
fn realloc_of_whole_pages_stays_in_the_block() {
    let (mut w, mut t) = (World::new(), ThreadLocals::new());
    full_pool(&mut w, &mut t);
    let a = w.malloc(&mut t, 4096);
    let b = w.malloc(&mut t, 4096);
    fill_block(&mut w.heap, a, 1, 4096);
    fill_block(&mut w.heap, b, 2, 4096);
    let q = w.realloc(&mut t, a, 300_000);
    assert_eq!(read_block(&w.heap, q, 0, 4096), vec![1u8; 4096]);
    assert_eq!(read_block(&w.heap, q, 4096, 4096), vec![0u8; 4096]);
    assert_eq!(read_block(&w.heap, b, 0, 4096), vec![2u8; 4096]);
}

#[test]
fn threads_without_a_cache_push_onto_the_owners_stack() {
    let mut w = World::new();
    let mut owner = ThreadLocals::new();
    let slots: Vec<usize> = (0..4).map(|_| w.malloc(&mut owner, 1024)).collect();
    for _ in 1..MAX_THREADS {
        let mut t = ThreadLocals::new();
        let q = w.malloc(&mut t, 16);
        w.free(&mut t, q);
    }
    let mut late = ThreadLocals::new();
    w.free(&mut late, slots[1]);
    w.free(&mut late, slots[3]);
    assert_eq!(w.malloc(&mut owner, 1024), slots[1]);
    assert_eq!(w.malloc(&mut owner, 1024), slots[3]);
}

#[test]
fn realloc_keeps_the_first_bytes() {
    let (mut w, mut t) = (World::new(), ThreadLocals::new());
    let mut p = w.malloc(&mut t, 40);
    for i in 0..40 {
        w.write(p, i, i as u8 + 1);
    }
    for size in [64, 2000, 300_000, 5000, 45] {
        let q = w.realloc(&mut t, p, size);
        assert_ne!(q, 0);
        assert_ne!(q, p);
        for i in 0..40 {
            assert_eq!(w.read(q, i), i as u8 + 1, "byte {} at size {}", i, size);
        }
        p = q;
    }
    let q = w.realloc(&mut t, p, 3);
    assert_eq!(read_block(&w.heap, q, 0, 3), vec![1, 2, 3]);
}

#[test]
fn realloc_asks_once_more_for_a_page() {
    let (mut w, t) = (World::new(), ThreadLocals::new());
    let mut owner = ThreadLocals::new();
    let p = w.malloc(&mut owner, 64);
    let (r, again) = realloc_requests(&w.heap, &t, p, 100);
    assert!(!r.arena && r.page && r.huge == 0 && again);
    let (r, again) = realloc_requests(&w.heap, &t, p, 2000);
    assert!(!r.page && again);
    let (r, again) = realloc_requests(&w.heap, &t, p, 0);
    assert!(r.page && !again);
    let (r, again) = realloc_requests(&w.heap, &owner, p, 300_000);
    assert!(!r.page && !again && r.huge > 300_000);
    let mut t = t;
    let page = w.map(PAGE_SIZE);
    let (q, region) = ferrum_realloc(&mut w.heap, &mut t, OsReplies::none(), page, p, 100);
    assert!(q != 0 && region.is_none());
    assert!(!free_requests(&w.heap, &t, q).page);
    assert_eq!(w.malloc(&mut owner, 64), p);
}

#[test]
fn moved_huge_blocks_are_unmapped() {
    let (mut w, mut t) = (World::new(), ThreadLocals::new());
    let p = w.malloc(&mut t, 300_000);
    let q = w.realloc(&mut t, p, 400_000);
    assert_ne!(q, 0);
    assert_eq!(w.unmapped.len(), 1);
    assert_eq!(w.unmapped[0].base, p - PAGE_SIZE);
    assert_eq!(w.realloc(&mut t, q, 0), 0);
    assert_eq!(w.unmapped.len(), 2);
    assert_eq!(w.unmapped[1].base, q - PAGE_SIZE);
}

#[test]
fn calloc_clears_what_was_used_before() {
    let (mut w, mut t) = (World::new(), ThreadLocals::new());
    let p = w.malloc(&mut t, 2000);
    fill_block(&mut w.heap, p, 0xFF, 2000);
    w.free(&mut t, p);
    let q = w.calloc(&mut t, 2, 1000);
    assert_eq!(q, p);
    assert_eq!(read_block(&w.heap, q, 0, 2000), vec![0u8; 2000]);
}

#[test]
fn freed_blocks_are_reused() {
    let (mut w, mut t) = (World::new(), ThreadLocals::new());
    for size in [48, 3000] {
        let a = w.malloc(&mut t, size);
        w.free(&mut t, a);
        assert_eq!(w.malloc(&mut t, size), a);
    }
}

#[test]
fn other_blocks_keep_their_bytes() {
    let mut w = World::new();
    let mut t1 = ThreadLocals::new();
    let mut t2 = ThreadLocals::new();
    let mut held = Vec::new();
    for i in 0..60usize {
        let size = [16, 100, 1000, 3000, 20_000, 300_000][i % 6];
        let t = if i % 2 == 0 { &mut t1 } else { &mut t2 };
        let p = w.malloc(t, size);
        assert_ne!(p, 0);
        fill_block(&mut w.heap, p, i as u8, size);
        held.push((p, size, i as u8));
        if i % 4 == 3 {
            let (q, _, _) = held.swap_remove(i / 7);
            w.free(&mut t1, q);
        }
        for &(q, n, v) in &held {
            assert_eq!(read_block(&w.heap, q, 0, n), vec![v; n]);
        }
    }
}

#[test]
fn stacked_blocks_are_given_out_after_the_owner_drains() {
    let mut w = World::new();
    let mut owner = ThreadLocals::new();
    let mut other = ThreadLocals::new();
    let a = w.malloc(&mut owner, 32);
    let b = w.malloc(&mut owner, 32);
    let c = w.malloc(&mut other, 32);
    assert_ne!(c / PAGE_SIZE, a / PAGE_SIZE);
    w.free(&mut other, a);
    w.free(&mut other, b);
    assert_ne!(w.malloc(&mut other, 32), a);
    let x = w.malloc(&mut owner, 32);
    let y = w.malloc(&mut owner, 32);
    assert_eq!((x, y), (a, b));
}

#[test]
fn threads_beyond_the_limit_use_the_pool() {
    let mut w = World::new();
    let mut first = ThreadLocals::new();
    let p = w.malloc(&mut first, 64);
    for _ in 1..MAX_THREADS {
        let mut t = ThreadLocals::new();
        let q = w.malloc(&mut t, 2000);
        w.free(&mut t, q);
    }
    let mut late = ThreadLocals::new();
    assert!(!malloc_requests(&w.heap, &late, 64).page);
    let q = w.malloc(&mut late, 64);
    assert_eq!(w.usable(q), 64);
    assert_ne!(q % PAGE_SIZE % 64, 0);
    w.free(&mut late, p);
    w.free(&mut late, q);
    assert_eq!(w.malloc(&mut first, 64), p);
}

#[test]
fn refused_mappings_give_null() {
    let mut heap = Heap::new();
    let mut tls = ThreadLocals::new();
    for size in [1, 1024, 5000, HUGE_ALLOC_THRESHOLD, usize::MAX] {
        assert_eq!(ferrum_malloc(&mut heap, &mut tls, OsReplies::none(), size), 0);
    }
    assert!(ferrum_free(&mut heap, &mut tls, OsReplies::none(), 0x1234).is_none());
    assert_eq!(ferrum_usable_size(&mut heap, None, 0x1234), 0);
    ensure_init(&mut heap, None);
    assert!(malloc_requests(&heap, &tls, 1).arena);
    let arena = Region { base: 0x100_0000, bytes: vec![0u8; DEFAULT_ARENA_SIZE] };
    ensure_init(&mut heap, Some(arena));
    assert!(!malloc_requests(&heap, &tls, 1).arena);
}

#[test]
fn refused_cache_page_falls_back_to_the_pool() {
    let (mut w, mut t) = (World::new(), ThreadLocals::new());
    let arena = w.map(DEFAULT_ARENA_SIZE);
    let p = ferrum_malloc(&mut w.heap, &mut t, OsReplies { arena, page: None, huge: None }, 64);
    assert_ne!(p, 0);
    assert_eq!(w.usable(p), 64);
    let q = w.malloc(&mut t, 64);
    assert_eq!(q % PAGE_SIZE, 0);
    w.free(&mut t, p);
    w.free(&mut t, q);
}

#[test]
fn what_is_asked_of_the_operating_system() {
    let (mut w, mut t) = (World::new(), ThreadLocals::new());
    let r = malloc_requests(&w.heap, &t, 64);
    assert!(r.arena && r.page && r.huge == 0);
    let r = malloc_requests(&w.heap, &t, 0);
    assert!(!r.arena && !r.page && r.huge == 0);
    let r = malloc_requests(&w.heap, &t, 262_145);
    assert!(r.arena && !r.page && r.huge == 262_144 + 8192);
    assert_eq!(malloc_requests(&w.heap, &t, usize::MAX).huge, 0);
    let p = w.malloc(&mut t, 64);
    let r = malloc_requests(&w.heap, &t, 64);
    assert!(!r.arena && !r.page && r.huge == 0);
    let r = free_requests(&w.heap, &t, p);
    assert!(!r.arena && !r.page && r.huge == 0);
    let r = free_requests(&w.heap, &ThreadLocals::new(), p);
    assert!(!r.arena && r.page);
    assert_eq!(memalign_requests(&w.heap, &t, 64, 10).huge, 8192);
    assert_eq!(memalign_requests(&w.heap, &t, 8192, 10).huge, 0);
    assert_eq!(memalign_requests(&w.heap, &t, 16, 10).huge, 0);
}

#[test]
fn nothing_is_asked_for_a_bad_alignment() {
    let (w, t) = (World::new(), ThreadLocals::new());
    for bad in [0, 1, 3, 4, 12, 24, 40, 100, 4104] {
        for size in [0, 100, 5000, 300_000] {
            let r = memalign_requests(&w.heap, &t, bad, size);
            assert!(!r.arena && !r.page && r.huge == 0);
        }
    }
    let r = memalign_requests(&w.heap, &t, 8, 100);
    assert!(r.arena && r.page && r.huge == 0);
    let r = memalign_requests(&w.heap, &t, 4096, 100);
    assert!(!r.arena && !r.page && r.huge == 8192);
}

#[test]
fn posix_memalign_results() {
    let (mut w, mut t) = (World::new(), ThreadLocals::new());
    let mut p = 1usize;
    for bad in [0, 4, 12, 24, 100] {
        assert_eq!(posix_memalign(&mut w.heap, &mut t, OsReplies::none(), &mut p, bad, 64), EINVAL);
    }
    assert_eq!(EINVAL, 22);
    assert_eq!(posix_memalign(&mut w.heap, &mut t, OsReplies::none(), &mut p, 8192, 64), ENOMEM);
    assert_eq!(posix_memalign(&mut w.heap, &mut t, OsReplies::none(), &mut p, 64, 64), ENOMEM);
    assert_eq!(posix_memalign(&mut w.heap, &mut t, OsReplies::none(), &mut p, 16, 0), ENOMEM);
    assert_eq!(ENOMEM, 12);
    assert_eq!(p, 1);
    for alignment in [8, 16, 32, 256, 4096] {
        let os = w.answer(memalign_requests(&w.heap, &t, alignment, 100));
        assert_eq!(posix_memalign(&mut w.heap, &mut t, os, &mut p, alignment, 100), 0);
        assert_ne!(p, 0);
        assert_eq!(p % alignment, 0);
        assert!(w.usable(p) >= 100);
        w.free(&mut t, p);
    }
}

#[test]
fn c_names_do_the_same() {
    let (mut w, mut t) = (World::new(), ThreadLocals::new());
    let os = w.answer(malloc_requests(&w.heap, &t, 100));
    let p = malloc(&mut w.heap, &mut t, os, 100);
    assert_ne!(p, 0);
    w.write(p, 9, 5);
    let (q, none) = realloc(&mut w.heap, &mut t, OsReplies::none(), None, p, 2000);
    assert!(none.is_none());
    assert_eq!(w.read(q, 9), 5);
    assert!(free(&mut w.heap, &mut t, OsReplies::none(), q).is_none());
    let z = calloc(&mut w.heap, &mut t, OsReplies::none(), 10, 10);
    assert_eq!(read_block(&w.heap, z, 0, 100), vec![0u8; 100]);
    assert_eq!(calloc(&mut w.heap, &mut t, OsReplies::none(), usize::MAX, 2), 0);
    assert_eq!(calloc(&mut w.heap, &mut t, OsReplies::none(), 0, 2), 0);
}

#[test]
fn random_streams_of_calls() {
    let mut seed = 0x2545_F491_4F6C_DD1Du64;
    for _ in 0..3 {
        let (mut w, mut t) = (World::new(), ThreadLocals::new());
        let mut ptrs: Vec<usize> = Vec::new();
        for _ in 0..400 {
            seed ^= seed << 13;
            seed ^= seed >> 7;
            seed ^= seed << 17;
            let arg = (seed >> 8) as usize;
            match seed % 3 {
                0 => {
                    let p = w.malloc(&mut t, arg % 256 + 1);
                    if p != 0 {
                        w.write(p, 0, 0xFF);
                        ptrs.push(p);
                    }
                }
                1 => {
                    let p = w.malloc(&mut t, arg % (512 * 1024) + 1);
                    if p != 0 {
                        w.write(p, 0, 0xFF);
                        ptrs.push(p);
                    }
                }
                _ => {
                    if !ptrs.is_empty() {
                        let p = ptrs.swap_remove(arg % ptrs.len());
                        assert_eq!(w.read(p, 0), 0xFF);
                        w.free(&mut t, p);
                    }
                }
            }
        }
        for p in ptrs {
            w.free(&mut t, p);
        }
    }
}
