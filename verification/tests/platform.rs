use ferrum_alloc::memory::Region;
use ferrum_alloc::platform::{
    align_ptr_up, align_up, is_power_of_two, os_alloc, os_free, tls_create, tls_get, tls_set, ThreadLocals,
    TlsKeys, DEFAULT_ARENA_SIZE, PAGE_SIZE,
};

fn mapping(base: usize, len: usize) -> Option<Region> {
    Some(Region { base, bytes: vec![0u8; len] })
}

#[test]
fn test_align_up() {
    assert_eq!(align_up(0, 4096), 0);
    assert_eq!(align_up(1, 4096), 4096);
    assert_eq!(align_up(4096, 4096), 4096);
    assert_eq!(align_up(4097, 4096), 8192);
    assert_eq!(align_up(100, 8), 104);
    assert_eq!(align_up(8, 8), 8);
}

#[test]
fn test_os_alloc_free() {
    let size = DEFAULT_ARENA_SIZE;
    let mut region = os_alloc(size, mapping(0x10_0000, size)).expect("os_alloc returned null");
    let ptr = region.base;
    for i in (0..size).step_by(PAGE_SIZE) {
        region.write_u8(ptr + i, 0xAA);
    }
    for i in (0..size).step_by(PAGE_SIZE) {
        assert_eq!(region.read_u8(ptr + i), 0xAA);
    }
    assert_eq!(os_free(ptr, size), Some((ptr, size)));
}

#[test]
fn test_os_alloc_small() {
    let mut region = os_alloc(1, mapping(0x4000, PAGE_SIZE)).expect("os_alloc returned null");
    let ptr = region.base;
    assert_ne!(ptr, 0);
    region.write_u8(ptr, 42);
    assert_eq!(region.read_u8(ptr), 42);
    assert_eq!(os_free(ptr, 1), Some((ptr, PAGE_SIZE)));
}

#[test]
fn test_os_alloc_multiple() {
    let regions: Vec<Region> = (0..4)
        .map(|i| {
            os_alloc(PAGE_SIZE * 4, mapping(0x10_0000 * (i + 1), PAGE_SIZE * 4)).expect("os_alloc returned null")
        })
        .collect();
    for i in 0..4 {
        for j in (i + 1)..4 {
            assert_ne!(regions[i].base, regions[j].base);
        }
    }
    for r in regions {
        assert_eq!(os_free(r.base, PAGE_SIZE * 4), Some((r.base, PAGE_SIZE * 4)));
    }
}

#[test]
fn refused_and_unfit_mappings_are_not_taken() {
    assert!(os_alloc(4096, None).is_none());
    assert!(os_alloc(4096, mapping(0x4000, 8192)).is_none());
    assert!(os_alloc(4096, mapping(0x4001, 4096)).is_none());
    assert!(os_alloc(4096, mapping(0, 4096)).is_none());
    assert!(os_alloc(4096, mapping(0x4000, 4096)).is_some());
    assert_eq!(os_free(0, 4096), None);
}

#[test]
fn addresses_and_powers_of_two() {
    assert_eq!(align_ptr_up(0x1001, 0x1000), 0x2000);
    assert_eq!(align_ptr_up(0x2000, 0x1000), 0x2000);
    assert!(!is_power_of_two(0));
    assert!(is_power_of_two(1));
    assert!(is_power_of_two(4096));
    assert!(!is_power_of_two(24));
}

#[test]
fn thread_locals_by_key() {
    let mut keys = TlsKeys::new();
    let a = tls_create(&mut keys);
    let b = tls_create(&mut keys);
    assert_eq!((a, b), (1, 2));
    let mut tls = ThreadLocals::new();
    assert_eq!(tls_get(&tls, a), 0);
    tls_set(&mut tls, a, 7);
    tls_set(&mut tls, a, 8);
    assert_eq!(tls_get(&tls, a), 8);
    assert_eq!(tls_get(&tls, b), 0);
}

#[test]
fn numbers_in_memory_are_little_endian() {
    let mut r = Region { base: 0x1000, bytes: vec![0u8; 32] };
    r.write_u64(0x1008, 0x0102_0304_0506_0708);
    assert_eq!(r.read_u8(0x1008), 8);
    assert_eq!(r.read_u8(0x100F), 1);
    assert_eq!(r.read_u64(0x1008), 0x0102_0304_0506_0708);
    r.write_u16(0x1010, 0xABCD);
    assert_eq!(r.read_u8(0x1010), 0xCD);
    assert_eq!(r.read_u16(0x1010), 0xABCD);
    r.fill(0x1000, 9, 4);
    assert_eq!(r.read_bytes(0x1000, 5), vec![9, 9, 9, 9, 0]);
    r.write_bytes(0x1001, &vec![1, 2]);
    assert_eq!(r.read_bytes(0x1000, 4), vec![9, 1, 2, 9]);
}

#[test]
fn sizes_that_cannot_be_rounded_are_refused() {
    let region = Region { base: 0x10_0000, bytes: vec![0u8; 4096] };
    assert!(os_alloc(usize::MAX, Some(region)).is_none());
    assert!(os_alloc(usize::MAX - 4094, None).is_none());
}
