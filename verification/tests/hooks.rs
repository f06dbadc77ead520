use ferrum_alloc::api::{read_block, write_block, Heap, OsReplies};
use ferrum_alloc::dllmain::{
    hooked_free, hooked_heap_alloc, hooked_heap_free, hooked_heap_realloc, hooked_heap_size, hooked_malloc,
    BlockAnswer, FreeAnswer, SizeAnswer,
};
use ferrum_alloc::memory::Region;
use ferrum_alloc::platform::{ThreadLocals, DEFAULT_ARENA_SIZE, PAGE_SIZE};

fn first_replies() -> OsReplies {
    OsReplies {
        arena: Some(Region { base: 0x100_0000, bytes: vec![0u8; DEFAULT_ARENA_SIZE] }),
        page: Some(Region { base: 0x200_0000, bytes: vec![0u8; PAGE_SIZE] }),
        huge: None,
    }
}

#[test]
fn blocks_of_the_heap_are_answered() {
    let (mut heap, mut tls) = (Heap::new(), ThreadLocals::new());
    let p = match hooked_heap_alloc(&mut heap, &mut tls, first_replies(), 100, true) {
        BlockAnswer::Block(p, None) => p,
        _ => panic!("no block"),
    };
    assert_ne!(p, 0);
    assert!(matches!(hooked_heap_size(&mut heap, None, p, true), SizeAnswer::Size(112)));
    write_block(&mut heap, p, 0, &vec![1, 2, 3]);
    let q = match hooked_heap_realloc(&mut heap, &mut tls, OsReplies::none(), None, p, 3000, true, true) {
        BlockAnswer::Block(q, None) => q,
        _ => panic!("no block"),
    };
    assert_eq!(read_block(&heap, q, 0, 3), vec![1, 2, 3]);
    assert!(matches!(
        hooked_heap_free(&mut heap, &mut tls, OsReplies::none(), q, true),
        FreeAnswer::Freed(None)
    ));
    let r = hooked_malloc(&mut heap, &mut tls, OsReplies::none(), 100);
    assert_eq!(r, p);
    assert!(matches!(hooked_free(&mut heap, &mut tls, OsReplies::none(), r, true), FreeAnswer::Freed(None)));
}

#[test]
fn other_addresses_are_left_to_the_replaced_functions() {
    let (mut heap, mut tls) = (Heap::new(), ThreadLocals::new());
    let foreign = 0x7000_0000;
    assert!(matches!(
        hooked_heap_free(&mut heap, &mut tls, first_replies(), foreign, true),
        FreeAnswer::Original
    ));
    assert!(matches!(
        hooked_heap_free(&mut heap, &mut tls, OsReplies::none(), foreign, false),
        FreeAnswer::Freed(None)
    ));
    assert!(matches!(
        hooked_free(&mut heap, &mut tls, OsReplies::none(), foreign, true),
        FreeAnswer::Original
    ));
    assert!(matches!(hooked_heap_size(&mut heap, None, foreign, true), SizeAnswer::Original));
    assert!(matches!(hooked_heap_size(&mut heap, None, foreign, false), SizeAnswer::Size(0)));
    assert!(matches!(
        hooked_heap_realloc(&mut heap, &mut tls, OsReplies::none(), None, foreign, 10, false, true),
        BlockAnswer::Original
    ));
    assert!(matches!(
        hooked_heap_realloc(&mut heap, &mut tls, OsReplies::none(), None, foreign, 10, true, false),
        BlockAnswer::Block(0, None)
    ));
}

#[test]
fn null_and_failure() {
    let (mut heap, mut tls) = (Heap::new(), ThreadLocals::new());
    assert!(matches!(
        hooked_heap_alloc(&mut heap, &mut tls, OsReplies::none(), 10, true),
        BlockAnswer::Original
    ));
    assert!(matches!(
        hooked_heap_alloc(&mut heap, &mut tls, OsReplies::none(), 10, false),
        BlockAnswer::Block(0, None)
    ));
    assert!(matches!(
        hooked_heap_free(&mut heap, &mut tls, OsReplies::none(), 0, true),
        FreeAnswer::Freed(None)
    ));
    assert!(matches!(hooked_heap_size(&mut heap, None, 0, true), SizeAnswer::Size(0)));
    assert!(matches!(
        hooked_heap_realloc(&mut heap, &mut tls, OsReplies::none(), None, 0, 10, true, true),
        BlockAnswer::Original
    ));
    assert!(matches!(
        hooked_heap_realloc(&mut heap, &mut tls, first_replies(), None, 0, 10, true, true),
        BlockAnswer::Block(p, None) if p != 0
    ));
}

#[test]
fn blocks_of_whole_pages_are_blocks_of_the_heap() {
    let (mut heap, mut tls) = (Heap::new(), ThreadLocals::new());
    assert_ne!(hooked_malloc(&mut heap, &mut tls, first_replies(), 200_000), 0);
    assert_ne!(hooked_malloc(&mut heap, &mut tls, OsReplies::none(), 200_000), 0);
    let p = hooked_malloc(&mut heap, &mut tls, OsReplies::none(), 200_000);
    assert_eq!(p % PAGE_SIZE, 0);
    assert!(matches!(hooked_heap_size(&mut heap, None, p, true), SizeAnswer::Size(200_704)));
    let q = match hooked_heap_realloc(&mut heap, &mut tls, OsReplies::none(), None, p, 150_000, true, true) {
        BlockAnswer::Block(q, None) => q,
        _ => panic!("no block"),
    };
    assert_ne!(q, 0);
    assert!(matches!(hooked_free(&mut heap, &mut tls, OsReplies::none(), q, true), FreeAnswer::Freed(None)));
    assert_eq!(hooked_malloc(&mut heap, &mut tls, OsReplies::none(), 200_000), p);
}
