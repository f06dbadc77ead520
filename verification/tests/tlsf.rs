use ferrum_alloc::memory::Region;
use ferrum_alloc::tlsf::bins::{align_up_size, mapping, mapping_search, ALIGN, FL_COUNT};
use ferrum_alloc::tlsf::header::{BlockHeader, HEADER_SIZE};
use ferrum_alloc::tlsf::TlsfAllocator;

const POOL: usize = 0x10_0000;

fn make_pool(size: usize) -> (Region, TlsfAllocator) {
    let mut mem = Region { base: POOL, bytes: vec![0u8; size] };
    let mut tlsf = TlsfAllocator::new();
    tlsf.add_pool(&mut mem, POOL, size);
    (mem, tlsf)
}

#[test]
fn test_mapping_1024() {
    let (fl, sl) = mapping(1024);
    assert_eq!(fl, 6);
    assert_eq!(sl, 0);
}

#[test]
fn test_mapping_2048() {
    let (fl, sl) = mapping(2048);
    assert_eq!(fl, 7);
    assert_eq!(sl, 0);
}

#[test]
fn test_mapping_min_payload() {
    let (fl, sl) = mapping(16);
    assert_eq!(fl, 0);
    assert_eq!(sl, 0);
}

#[test]
fn test_mapping_1536() {
    let (fl, sl) = mapping(1536);
    assert_eq!(fl, 6);
    assert_eq!(sl, 8);
}

#[test]
fn test_alloc_basic() {
    let pool_size = 65536;
    let (mut mem, mut tlsf) = make_pool(pool_size);
    let p = tlsf.allocate(&mut mem, 2048);
    assert_ne!(p, 0);
    assert!(tlsf.contains(&mem, p));
    mem.fill(p, 0xAB, 2048);
    assert_eq!(mem.read_u8(p), 0xAB);
    assert_eq!(mem.read_u8(p + 2047), 0xAB);
    tlsf.free(&mut mem, p);
}

#[test]
fn test_alloc_multiple() {
    let pool_size = 65536;
    let (mut mem, mut tlsf) = make_pool(pool_size);
    let a = tlsf.allocate(&mut mem, 1024);
    let b = tlsf.allocate(&mut mem, 2048);
    let c = tlsf.allocate(&mut mem, 4096);
    assert_ne!(a, 0);
    assert_ne!(b, 0);
    assert_ne!(c, 0);
    assert_ne!(a, b);
    assert_ne!(b, c);
    assert_ne!(a, c);
    tlsf.free(&mut mem, a);
    tlsf.free(&mut mem, b);
    tlsf.free(&mut mem, c);
}

#[test]
fn test_alloc_zero() {
    let pool_size = 65536;
    let (mut mem, mut tlsf) = make_pool(pool_size);
    let p = tlsf.allocate(&mut mem, 0);
    assert_eq!(p, 0);
}

#[test]
fn test_alloc_too_large() {
    let pool_size = 65536;
    let (mut mem, mut tlsf) = make_pool(pool_size);
    let p = tlsf.allocate(&mut mem, pool_size);
    assert_eq!(p, 0);
}

#[test]
fn test_coalesce_forward() {
    let pool_size = 65536;
    let (mut mem, mut tlsf) = make_pool(pool_size);
    let a = tlsf.allocate(&mut mem, 1024);
    let b = tlsf.allocate(&mut mem, 1024);
    let c = tlsf.allocate(&mut mem, 1024);
    tlsf.free(&mut mem, b);
    tlsf.free(&mut mem, a);
    let big = tlsf.allocate(&mut mem, 2048);
    assert_ne!(big, 0);
    tlsf.free(&mut mem, big);
    tlsf.free(&mut mem, c);
}

#[test]
fn test_coalesce_three_blocks() {
    let pool_size = 65536;
    let (mut mem, mut tlsf) = make_pool(pool_size);
    let a = tlsf.allocate(&mut mem, 1024);
    let b = tlsf.allocate(&mut mem, 1024);
    let c = tlsf.allocate(&mut mem, 1024);
    tlsf.free(&mut mem, b);
    tlsf.free(&mut mem, a);
    tlsf.free(&mut mem, c);
    let big = tlsf.allocate(&mut mem, 3 * 1024);
    assert_ne!(big, 0);
    tlsf.free(&mut mem, big);
}

#[test]
fn test_splitting() {
    let pool_size = 65536;
    let (mut mem, mut tlsf) = make_pool(pool_size);
    let a = tlsf.allocate(&mut mem, 1024);
    assert_ne!(a, 0);
    let b = tlsf.allocate(&mut mem, 1024);
    assert_ne!(b, 0);
    assert_ne!(a, b);
    tlsf.free(&mut mem, a);
    tlsf.free(&mut mem, b);
}

#[test]
fn test_reuse_after_free() {
    let pool_size = 65536;
    let (mut mem, mut tlsf) = make_pool(pool_size);
    let a = tlsf.allocate(&mut mem, 2048);
    assert_ne!(a, 0);
    tlsf.free(&mut mem, a);
    let b = tlsf.allocate(&mut mem, 2048);
    assert_ne!(b, 0);
    assert_eq!(a, b);
    tlsf.free(&mut mem, b);
}

#[test]
fn test_usable_size() {
    let pool_size = 65536;
    let (mut mem, mut tlsf) = make_pool(pool_size);
    let p = tlsf.allocate(&mut mem, 1000);
    assert_ne!(p, 0);
    let usable = tlsf.usable_size(&mem, p);
    assert!(usable >= 1000, "usable {} < 1000", usable);
    assert_eq!(usable % ALIGN, 0);
    tlsf.free(&mut mem, p);
}

#[test]
fn test_alloc_free_cycle() {
    let pool_size = 131072;
    let (mut mem, mut tlsf) = make_pool(pool_size);
    for _ in 0..3 {
        let mut ptrs = [0usize; 20];
        for i in 0..20 {
            ptrs[i] = tlsf.allocate(&mut mem, 1024 + i * 128);
            assert_ne!(ptrs[i], 0, "alloc {} failed", i);
        }
        for p in ptrs.iter().rev() {
            tlsf.free(&mut mem, *p);
        }
    }
}

#[test]
fn search_rounds_up_to_the_next_bin() {
    assert_eq!(mapping_search(1024), (6, 0));
    assert_eq!(mapping_search(1040), (6, 1));
    assert_eq!(mapping_search(2047), (7, 0));
    assert_eq!(mapping_search(usize::MAX), (FL_COUNT, 0));
    assert_eq!(mapping_search(0x40_0000), (FL_COUNT, 0));
    assert_eq!(align_up_size(17), 32);
    assert_eq!(align_up_size(16), 16);
}

#[test]
fn blocks_lie_one_behind_the_other() {
    let (mut mem, mut tlsf) = make_pool(65536);
    let a = tlsf.allocate(&mut mem, 1000);
    let b = tlsf.allocate(&mut mem, 16);
    assert_eq!(a, POOL + HEADER_SIZE);
    assert_eq!(tlsf.usable_size(&mem, a), 1008);
    assert_eq!(b, a + 1008 + HEADER_SIZE);
    let h = BlockHeader::load(&mem, BlockHeader::from_payload(b));
    assert_eq!(h.size(), 16);
    assert_eq!(h.prev_phys_size, 1008);
    assert!(!h.is_free());
    assert!(!h.prev_is_free());
    tlsf.free(&mut mem, a);
    let h = BlockHeader::load(&mem, BlockHeader::from_payload(b));
    assert!(h.prev_is_free());
    assert_eq!(h.prev_phys(BlockHeader::from_payload(b)), POOL);
}

#[test]
fn everything_given_back_is_one_block_again() {
    let (mut mem, mut tlsf) = make_pool(65536);
    let before = mem.bytes.clone();
    let whole = 65536 - 2 * HEADER_SIZE;
    let mut ptrs = Vec::new();
    for i in 0..10 {
        ptrs.push(tlsf.allocate(&mut mem, 100 * (i + 1)));
    }
    for i in [3, 0, 9, 5, 1, 7, 2, 8, 4, 6] {
        tlsf.free(&mut mem, ptrs[i]);
    }
    let h = BlockHeader::load(&mem, POOL);
    assert!(h.is_free());
    assert_eq!(h.size(), whole);
    assert_eq!(mem.bytes[..32], before[..32]);
}

#[test]
fn contents_survive_other_calls() {
    let (mut mem, mut tlsf) = make_pool(65536);
    let a = tlsf.allocate(&mut mem, 512);
    mem.fill(a, 0x5A, 512);
    let b = tlsf.allocate(&mut mem, 700);
    let c = tlsf.allocate(&mut mem, 900);
    tlsf.free(&mut mem, b);
    let d = tlsf.allocate(&mut mem, 300);
    tlsf.free(&mut mem, c);
    tlsf.free(&mut mem, d);
    assert_eq!(mem.read_bytes(a, 512), vec![0x5A; 512]);
}

#[test]
fn null_is_ignored_and_small_pools_are_too() {
    let (mut mem, mut tlsf) = make_pool(65536);
    tlsf.free(&mut mem, 0);
    assert_eq!(tlsf.usable_size(&mem, 0), 0);
    let mut mem = Region { base: 0x1000, bytes: vec![0u8; 47] };
    let mut none = TlsfAllocator::new();
    none.add_pool(&mut mem, 0x1000, 47);
    assert!(!none.contains(&mem, 0x1000));
    assert_eq!(none.allocate(&mut mem, 1), 0);
}

#[test]
fn two_pools_serve_together() {
    let mut mem = Region { base: 0x1000, bytes: vec![0u8; 4096] };
    let mut tlsf = TlsfAllocator::new();
    tlsf.add_pool(&mut mem, 0x1000, 1024);
    tlsf.add_pool(&mut mem, 0x1800, 1024);
    assert!(tlsf.contains(&mem, 0x1800));
    assert!(!tlsf.contains(&mem, 0x1000));
    let a = tlsf.allocate(&mut mem, 900);
    let b = tlsf.allocate(&mut mem, 900);
    assert_ne!(a, 0);
    assert_ne!(b, 0);
    assert_eq!(tlsf.allocate(&mut mem, 900), 0);
    tlsf.free(&mut mem, a);
    assert_eq!(tlsf.allocate(&mut mem, 900), a);
}

#[test]
fn sizes_beyond_any_pool_give_null() {
    let (mut mem, mut tlsf) = make_pool(65536);
    let before = mem.bytes.clone();
    for size in [usize::MAX, usize::MAX - 14, usize::MAX - 15, usize::MAX / 2, 65536] {
        assert_eq!(tlsf.allocate(&mut mem, size), 0);
    }
    assert_eq!(mem.bytes, before);
}

#[test]
fn a_pool_given_back_serves_as_on_the_first_day() {
    for order in [[0, 1, 2], [2, 1, 0], [1, 0, 2], [0, 2, 1]] {
        let (mut mem, mut tlsf) = make_pool(4096);
        let blocks: Vec<usize> = [100, 700, 48].iter().map(|&n| tlsf.allocate(&mut mem, n)).collect();
        for &p in &blocks {
            assert!(p >= POOL + HEADER_SIZE && p + tlsf.usable_size(&mem, p) <= POOL + 4096);
        }
        for i in order {
            tlsf.free(&mut mem, blocks[i]);
        }
        assert_eq!(tlsf.allocate(&mut mem, 3900), POOL + HEADER_SIZE);
    }
}
