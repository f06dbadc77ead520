use ferrum_alloc::arena::{Arena, ArenaIds, ARENA_META_SIZE, DATA_START_OFFSET, META_PAGES, PAGES_PER_ARENA};
use ferrum_alloc::memory::Region;
use ferrum_alloc::platform::{DEFAULT_ARENA_SIZE, PAGE_SIZE};

fn mapping() -> Option<Region> {
    Some(Region { base: 0x20_0000, bytes: vec![0u8; DEFAULT_ARENA_SIZE] })
}

fn new_arena(size: usize) -> Arena {
    Arena::new(size, &mut ArenaIds::new(), mapping()).expect("Failed to create arena")
}

#[test]
fn test_arena_creation() {
    let arena = new_arena(0);
    assert!(arena.id() > 0);
    assert!(arena.capacity() > 0);
    assert_eq!(arena.bytes_used(), 0);
    assert!(arena.bytes_remaining() > 0);
}

#[test]
fn test_arena_alloc_basic() {
    let mut arena = new_arena(0);
    let p1 = arena.allocate(64, 8);
    assert_ne!(p1, 0);
    assert!(arena.contains(p1));
    assert_eq!(arena.alloc_count(), 1);

    let p2 = arena.allocate(128, 16);
    assert_ne!(p2, 0);
    assert!(arena.contains(p2));
    assert_ne!(p1, p2);
    assert_eq!(arena.alloc_count(), 2);

    assert_eq!(p1 % PAGE_SIZE, 0);
    assert_eq!(p2 % PAGE_SIZE, 0);
}

#[test]
fn test_arena_alloc_write_read() {
    let mut arena = new_arena(0);
    let p = arena.allocate(256, 8);
    assert_ne!(p, 0);
    for i in 0..=255u8 {
        arena.mem.write_u8(p + i as usize, i);
    }
    for i in 0..=255u8 {
        assert_eq!(arena.mem.read_u8(p + i as usize), i);
    }
}

#[test]
fn test_arena_exhaustion() {
    let mut arena = new_arena(PAGE_SIZE);
    let capacity = arena.capacity();
    let p = arena.allocate(capacity, 1);
    assert_ne!(p, 0);
    let p2 = arena.allocate(1, 1);
    assert_eq!(p2, 0);
    assert!(arena.alloc_page().is_none());
}

#[test]
fn test_arena_reset() {
    let mut arena = new_arena(0);
    let _ = arena.allocate(1024, 8);
    let _ = arena.allocate(2048, 8);
    assert!(arena.bytes_used() > 0);
    assert_eq!(arena.alloc_count(), 2);

    arena.reset();
    assert_eq!(arena.bytes_used(), 0);
    assert_eq!(arena.alloc_count(), 0);

    let p = arena.allocate(64, 8);
    assert_ne!(p, 0);
}

#[test]
fn test_arena_alignment_various() {
    let mut arena = new_arena(0);
    for &align in &[1, 2, 4, 8, 16] {
        let p = arena.allocate(32, align);
        assert_ne!(p, 0);
        assert_eq!(p % PAGE_SIZE, 0, "Pointer {:x} not aligned to {}", p, PAGE_SIZE);
    }
}

#[test]
fn test_arena_zero_size_alloc() {
    let mut arena = new_arena(0);
    let p = arena.allocate(0, 8);
    assert_eq!(p, 0, "Zero-size alloc should return null");
}

#[test]
fn test_arena_unique_ids() {
    let mut ids = ArenaIds::new();
    let a1 = Arena::new(PAGE_SIZE, &mut ids, mapping()).expect("Failed");
    let a2 = Arena::new(PAGE_SIZE, &mut ids, mapping()).expect("Failed");
    let a3 = Arena::new(PAGE_SIZE, &mut ids, mapping()).expect("Failed");
    assert_ne!(a1.id(), a2.id());
    assert_ne!(a2.id(), a3.id());
}

#[test]
fn test_arena_contains() {
    let mut arena = new_arena(PAGE_SIZE * 2);
    let p = arena.allocate(64, 8);
    assert!(arena.contains(p));
    let elsewhere = arena.base_ptr() + DEFAULT_ARENA_SIZE;
    assert!(!arena.contains(elsewhere));
    assert!(!arena.contains(arena.base_ptr() - 1));
}

#[test]
fn pages_are_handed_out_in_order() {
    let mut arena = new_arena(0);
    let base = arena.base_ptr();
    assert_eq!(arena.alloc_page(), Some((base + 4096 + 32 * 5, base + 4096 * 5)));
    assert_eq!(arena.allocate(4097, 1), base + 4096 * 6);
    assert_eq!(arena.alloc_page(), Some((base + 4096 + 32 * 8, base + 4096 * 8)));
    assert_eq!(arena.bytes_used(), 4 * 4096);
    assert_eq!(arena.bytes_used() + arena.bytes_remaining(), arena.capacity());
    assert_eq!(arena.alloc_count(), 3);
}

#[test]
fn refused_mapping_gives_no_arena_and_no_identifier() {
    let mut ids = ArenaIds::new();
    assert!(Arena::new(0, &mut ids, None).is_none());
    assert_eq!(ids.next, 1);
    assert_eq!(Arena::new(0, &mut ids, mapping()).unwrap().id(), 1);
    assert_eq!(ids.next, 2);
}

#[test]
fn addresses_and_entries_lead_to_pages() {
    let arena = new_arena(0);
    let base = arena.base_ptr();
    assert_eq!(arena.ptr_to_page_index(base), 0);
    assert_eq!(arena.ptr_to_page_index(base + DATA_START_OFFSET - 1), 0);
    assert_eq!(arena.ptr_to_page_index(base + DATA_START_OFFSET), META_PAGES);
    assert_eq!(arena.ptr_to_page_index(base + DEFAULT_ARENA_SIZE - 1), PAGES_PER_ARENA - 1);
    assert_eq!(arena.ptr_to_page_index(base + DEFAULT_ARENA_SIZE), 0);
    for i in [0, 5, 77, 511] {
        assert_eq!(arena.meta_index(arena.meta_ptr(i)), i);
        assert_eq!(arena.page_addr(i), base + 4096 * i);
    }
    assert_eq!(PAGES_PER_ARENA, 512);
    assert_eq!(ARENA_META_SIZE, 32);
}

#[test]
fn sizes_near_the_largest_number_give_null() {
    let mut arena = new_arena(0);
    for size in [usize::MAX, usize::MAX - 4094, usize::MAX - 4095] {
        assert_eq!(arena.allocate(size, 16), 0);
    }
    assert_eq!(arena.bytes_used(), 0);
}
