use ferrum_alloc::arena::{Arena, ArenaIds};
use ferrum_alloc::memory::Region;
use ferrum_alloc::platform::{ThreadLocals, TlsKeys, DEFAULT_ARENA_SIZE, PAGE_SIZE};
use ferrum_alloc::thread_cache::{init_tls, remote_free_push, CacheRegistry, ThreadCache, MAX_THREADS};

fn page(k: usize) -> Option<Region> {
    Some(Region { base: 0x100_0000 + k * PAGE_SIZE, bytes: vec![0u8; PAGE_SIZE] })
}

fn new_arena() -> Arena {
    let mem = Region { base: 0x20_0000, bytes: vec![0u8; DEFAULT_ARENA_SIZE] };
    Arena::new(0, &mut ArenaIds::new(), Some(mem)).unwrap()
}

#[test]
fn no_cache_before_the_key_exists() {
    let mut registry = CacheRegistry::new();
    let mut tls = ThreadLocals::new();
    assert_eq!(ThreadCache::get_or_create(&mut registry, &mut tls, page(0)), None);
    init_tls(&mut registry, &mut TlsKeys::new());
    assert_eq!(registry.tls_key, 1);
    assert_eq!(ThreadCache::get_or_create(&mut registry, &mut tls, page(0)), Some(0));
    assert_eq!(ThreadCache::get_or_create(&mut registry, &mut tls, None), Some(0));
}

#[test]
fn caches_keep_the_pages_they_were_given() {
    let mut registry = CacheRegistry::new();
    init_tls(&mut registry, &mut TlsKeys::new());
    for k in 0..3 {
        let mut tls = ThreadLocals::new();
        assert_eq!(ThreadCache::get_or_create(&mut registry, &mut tls, page(k)), Some(k as u16));
        assert_eq!(ThreadCache::get_or_create(&mut registry, &mut tls, page(9)), Some(k as u16));
    }
    for k in 0..3 {
        let cache = registry.caches[k].as_ref().unwrap();
        assert_eq!(cache.page.base, page(k).unwrap().base);
        assert_eq!(cache.page.bytes.len(), PAGE_SIZE);
    }
}

#[test]
fn identifiers_are_unique_and_run_out() {
    let mut registry = CacheRegistry::new();
    init_tls(&mut registry, &mut TlsKeys::new());
    let mut refused = ThreadLocals::new();
    assert_eq!(ThreadCache::get_or_create(&mut registry, &mut refused, None), None);
    for k in 1..MAX_THREADS {
        let mut tls = ThreadLocals::new();
        let id = ThreadCache::get_or_create(&mut registry, &mut tls, page(k));
        assert_eq!(id, Some(k as u16));
        assert_eq!(registry.caches[k].as_ref().unwrap().id as usize, k);
    }
    for _ in 0..3 {
        let mut tls = ThreadLocals::new();
        assert_eq!(ThreadCache::get_or_create(&mut registry, &mut tls, page(0)), None);
    }
    assert!(registry.caches[0].is_none());
}

#[test]
fn pushed_blocks_are_drained_into_their_pages() {
    let mut registry = CacheRegistry::new();
    init_tls(&mut registry, &mut TlsKeys::new());
    let mut tls = ThreadLocals::new();
    let id = ThreadCache::get_or_create(&mut registry, &mut tls, page(0)).unwrap();
    let mut arena = new_arena();
    let mut blocks = Vec::new();
    for _ in 0..5 {
        let cache = registry.caches[id as usize].as_mut().unwrap();
        blocks.push(cache.slab.allocate(4, &mut arena, id));
    }
    remote_free_push(&mut registry, &mut arena, id, blocks[1]);
    remote_free_push(&mut registry, &mut arena, id, blocks[3]);
    assert_eq!(registry.caches[id as usize].as_ref().unwrap().remote_frees, blocks[3]);
    assert_eq!(arena.mem.read_u64(blocks[3]), blocks[1] as u64);
    assert_eq!(arena.mem.read_u64(blocks[1]), 0);
    assert_eq!(arena.pages[5].used_slots, 5);

    let cache = registry.caches[id as usize].as_mut().unwrap();
    cache.drain_remote_frees(&mut arena);
    assert_eq!(cache.remote_frees, 0);
    assert_eq!(arena.pages[5].used_slots, 3);
    assert_eq!(cache.slab.allocate(4, &mut arena, id), blocks[1]);
    assert_eq!(cache.slab.allocate(4, &mut arena, id), blocks[3]);
}

#[test]
fn pushes_to_unknown_caches_are_dropped() {
    let mut registry = CacheRegistry::new();
    init_tls(&mut registry, &mut TlsKeys::new());
    let mut tls = ThreadLocals::new();
    let id = ThreadCache::get_or_create(&mut registry, &mut tls, page(0)).unwrap();
    let mut arena = new_arena();
    let p = registry.caches[id as usize].as_mut().unwrap().slab.allocate(4, &mut arena, id);
    let before = arena.mem.bytes.clone();
    remote_free_push(&mut registry, &mut arena, 5, p);
    remote_free_push(&mut registry, &mut arena, 200, p);
    assert_eq!(arena.mem.bytes, before);
    assert_eq!(registry.caches[id as usize].as_ref().unwrap().remote_frees, 0);
}
