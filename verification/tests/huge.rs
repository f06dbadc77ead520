use ferrum_alloc::huge::{
    huge_alloc, huge_free, huge_usable_size, HugeBlocks, HUGE_ALLOC_THRESHOLD, HUGE_MAGIC,
};
use ferrum_alloc::memory::Region;

fn mapping(base: usize, len: usize) -> Option<Region> {
    Some(Region { base, bytes: vec![0u8; len] })
}

#[test]
fn block_starts_behind_the_header_page() {
    let mut blocks = HugeBlocks::new();
    let size = HUGE_ALLOC_THRESHOLD + 1;
    let total = HUGE_ALLOC_THRESHOLD + 2 * 4096;
    let p = huge_alloc(&mut blocks, size, mapping(0x10_0000, total));
    assert_eq!(p, 0x10_1000);
    assert_eq!(huge_usable_size(&blocks, p), total - 4096);
    let region = huge_free(&mut blocks, p).unwrap();
    assert_eq!(region.base, 0x10_0000);
    assert_eq!(region.bytes.len(), total);
    assert_eq!(region.read_u64(0x10_0000), HUGE_MAGIC as u64);
    assert_eq!(region.read_u64(0x10_0008), total as u64);
    assert_eq!(huge_usable_size(&blocks, p), 0);
}

#[test]
fn failures_and_unknown_addresses() {
    let mut blocks = HugeBlocks::new();
    assert_eq!(huge_alloc(&mut blocks, 4096, None), 0);
    assert_eq!(huge_alloc(&mut blocks, 4096, mapping(0x10_0000, 4096)), 0);
    assert_eq!(huge_alloc(&mut blocks, usize::MAX, None), 0);
    assert_eq!(huge_alloc(&mut blocks, usize::MAX - 8191, None), 0);
    assert!(huge_free(&mut blocks, 0).is_none());
    assert!(huge_free(&mut blocks, 0x10_1000).is_none());
    assert_eq!(huge_usable_size(&blocks, 0), 0);
}

#[test]
fn blocks_keep_their_bytes() {
    let mut blocks = HugeBlocks::new();
    let p = huge_alloc(&mut blocks, 100, mapping(0x10_0000, 8192));
    let q = huge_alloc(&mut blocks, 100, mapping(0x20_0000, 8192));
    blocks.write_bytes(p, 0, &vec![1, 2, 3]);
    blocks.fill(q, 9, 100);
    blocks.write_bytes(p, 2, &vec![4, 5]);
    assert_eq!(blocks.read_bytes(p, 0, 5), vec![1, 2, 4, 5, 0]);
    assert_eq!(blocks.read_bytes(q, 98, 3), vec![9, 9, 0]);
    assert!(huge_free(&mut blocks, p).is_some());
    assert_eq!(blocks.read_bytes(q, 0, 2), vec![9, 9]);
}
