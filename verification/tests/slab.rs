use ferrum_alloc::arena::{Arena, ArenaIds};
use ferrum_alloc::memory::Region;
use ferrum_alloc::platform::DEFAULT_ARENA_SIZE;
use ferrum_alloc::slab::{PageMeta, SlabAllocator, NULL_SLOT};

fn new_arena() -> Arena {
    let mem = Region { base: 0x20_0000, bytes: vec![0u8; DEFAULT_ARENA_SIZE] };
    Arena::new(0, &mut ArenaIds::new(), Some(mem)).unwrap()
}

#[test]
fn empty_page() {
    let p = PageMeta::empty();
    let q = PageMeta::default();
    for m in [p, q] {
        assert_eq!(m.size_class, 0xFF);
        assert_eq!(m.owner_id, 0xFFFF);
        assert_eq!(m.used_slots, 0);
        assert_eq!(m.free_list_head, NULL_SLOT);
        assert_eq!((m.next_page, m.prev_page, m.page_addr), (0, 0, 0));
    }
}

#[test]
fn slots_are_handed_out_in_order() {
    let mut arena = new_arena();
    let mut slab = SlabAllocator::new();
    let page = arena.page_addr(5);
    assert!(slab.alloc_needs_page(&arena, 3));
    for i in 0..128 {
        assert_eq!(slab.allocate(3, &mut arena, 7), page + 32 * i);
    }
    assert!(slab.alloc_needs_page(&arena, 3));
    assert_eq!(arena.pages[5].size_class, 3);
    assert_eq!(arena.pages[5].owner_id, 7);
    assert_eq!(arena.pages[5].used_slots, 128);
    assert_eq!(arena.pages[5].free_list_head, NULL_SLOT);
    assert_eq!(slab.allocate(3, &mut arena, 7), arena.page_addr(6));
}

#[test]
fn freed_slot_comes_back_first() {
    let mut arena = new_arena();
    let mut slab = SlabAllocator::new();
    let a = slab.allocate(5, &mut arena, 1);
    let b = slab.allocate(5, &mut arena, 1);
    slab.free(a, &mut arena);
    assert_eq!(slab.alloc_no_arena(&mut arena, 5), a);
    slab.free_no_arena(&mut arena, b, 5, arena_entry(5));
    assert_eq!(slab.allocate(5, &mut arena, 1), b);
}

fn arena_entry(i: usize) -> usize {
    0x20_0000 + 4096 + 32 * i
}

#[test]
fn full_page_leaves_the_list_and_returns() {
    let mut arena = new_arena();
    let mut slab = SlabAllocator::new();
    let class = 21u8;
    let slots: Vec<usize> = (0..4).map(|_| slab.allocate(class, &mut arena, 0)).collect();
    assert!(slab.alloc_needs_page(&arena, class));
    let other = slab.allocate(class, &mut arena, 0);
    slab.free(slots[2], &mut arena);
    assert_eq!(slab.alloc_no_arena(&mut arena, class), slots[2]);
    assert_eq!(slab.alloc_no_arena(&mut arena, class), other + 1024);
}

#[test]
fn pages_are_linked_in_both_directions() {
    let mut arena = new_arena();
    let mut slab = SlabAllocator::new();
    let class = 21u8;
    let slots: Vec<usize> = (0..12).map(|_| slab.allocate(class, &mut arena, 0)).collect();
    slab.free(slots[0], &mut arena);
    slab.free(slots[4], &mut arena);
    slab.free(slots[8], &mut arena);
    assert_eq!(arena.pages[7].next_page, arena_entry(6));
    assert_eq!(arena.pages[6].next_page, arena_entry(5));
    assert_eq!(arena.pages[6].prev_page, arena_entry(7));
    assert_eq!(arena.pages[5].prev_page, arena_entry(6));
    assert_eq!(slab.alloc_no_arena(&mut arena, class), slots[8]);
    assert_eq!(slab.alloc_no_arena(&mut arena, class), slots[4]);
    assert_eq!(slab.alloc_no_arena(&mut arena, class), slots[0]);
    assert!(slab.alloc_needs_page(&arena, class));
}

#[test]
fn addresses_outside_slots_are_ignored() {
    let mut arena = new_arena();
    let mut slab = SlabAllocator::new();
    let p = arena.allocate(100, 16);
    let before = arena.mem.bytes.clone();
    slab.free(p, &mut arena);
    slab.free(0x10, &mut arena);
    let base = arena.base_ptr();
    slab.free(base, &mut arena);
    assert_eq!(arena.mem.bytes, before);
}

#[test]
fn no_page_no_slot() {
    let mut arena = new_arena();
    let mut slab = SlabAllocator::new();
    let capacity = arena.capacity();
    arena.allocate(capacity, 1);
    assert_eq!(slab.allocate(0, &mut arena, 0), 0);
    assert!(slab.alloc_needs_page(&arena, 0));
}
