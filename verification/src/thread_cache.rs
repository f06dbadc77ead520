//! Per-thread caches of small blocks.
//!
//! Every thread allocates small blocks from a slab allocator of its own. A
//! block that another thread gives back is pushed onto a stack of its owner,
//! which the owner empties before it allocates. The stack lies in the blocks
//! themselves: each holds the address of the next one.

use vstd::prelude::*;

use crate::arena::{Arena, PAGES_PER_ARENA};
use crate::memory::Region;
use crate::platform::{is_mapping, os_alloc, tls_create, tls_get, tls_set, ThreadLocals, TlsKeys, PAGE_SIZE};
use crate::slab::{SlabAllocator, SlabState};

verus! {

/// Number of threads that can have a cache.
pub const MAX_THREADS: usize = 128;

/// A block on the stack of blocks given back by other threads.
pub struct RemoteFreeNode {
    /// Address of the next one; 0 for none.
    pub next: usize,
}

impl RemoteFreeNode {
    /// Reads the node at `addr`.
    fn load(mem: &Region, addr: usize) -> (r: RemoteFreeNode)
        requires
            mem.wf(),
            mem.has(addr as int, 8),
            mem.word(addr as int) <= usize::MAX,
        ensures
            r.next == mem.word(addr as int),
    {
        RemoteFreeNode { next: mem.read_u64(addr) as usize }
    }

    /// Writes the node at `addr`.
    fn store(&self, mem: &mut Region, addr: usize)
        requires
            old(mem).wf(),
            old(mem).has(addr as int, 8),
        ensures
            final(mem).wf(),
            final(mem).word(addr as int) == self.next,
            final(mem).same_outside(*old(mem), addr as int, addr + 8),
            forall|a: int|
                #![trigger final(mem).word(a)]
                old(mem).has(a, 8) && (a + 8 <= addr || addr + 8 <= a) ==> final(mem).word(a) == old(
                    mem,
                ).word(a),
    {
        mem.write_u64(addr, self.next as u64);
    }
}

/// What a cache holds: the lists of its slab allocator, and the blocks that
/// other threads have given back, the last one first.
#[verifier::ext_equal]
pub struct CacheState {
    pub lists: Seq<Seq<int>>,
    pub pending: Seq<int>,
}

/// Cache of one thread.
pub struct ThreadCache {
    /// Unique identifier, below `MAX_THREADS`.
    pub id: u16,
    /// The thread's slab allocator.
    pub slab: SlabAllocator,
    /// Top of the stack of blocks given back by other threads; 0 if empty.
    pub remote_frees: usize,
    /// The page that the cache occupies.
    pub page: Region,
    /// The blocks on the stack.
    pub pending: Ghost<Seq<int>>,
}

impl View for ThreadCache {
    type V = CacheState;

    open spec fn view(&self) -> CacheState {
        CacheState { lists: self.slab@, pending: self.pending@ }
    }
}

impl ThreadCache {
    /// The address of the `k`-th block of a stack; 0 if there is none.
    pub open spec fn at(ps: Seq<int>, k: int) -> int {
        if 0 <= k < ps.len() {
            ps[k]
        } else {
            0
        }
    }

    /// The `k`-th block of a stack is a slot in use that holds the address of
    /// the next one.
    pub open spec fn node_ok(arena: Arena, ps: Seq<int>, k: int) -> bool {
        &&& ps[k] > 0
        &&& arena@.used(ps[k])
        &&& arena@.page_of(ps[k]) < arena@.next
        &&& arena.mem.word(ps[k]) == Self::at(ps, k + 1)
    }

    /// The stack lies in its blocks.
    pub open spec fn stack_ok(arena: Arena, ps: Seq<int>) -> bool {
        &&& ps.no_duplicates()
        &&& forall|k: int| 0 <= k < ps.len() ==> #[trigger] Self::node_ok(arena, ps, k)
    }

    /// A cache in good order.
    pub open spec fn wf(self, arena: Arena) -> bool {
        &&& self.slab.wf(arena)
        &&& self.remote_frees == Self::at(self.pending@, 0)
        &&& Self::stack_ok(arena, self.pending@)
    }

    /// Gives the blocks on the stack back to their pages.
    pub fn drain_remote_frees(&mut self, arena: &mut Arena)
        requires
            old(self).wf(*old(arena)),
            old(arena).wf(),
        ensures
            final(self).wf(*final(arena)),
            final(arena).wf(),
            final(self).id == old(self).id,
            final(self).page == old(self).page,
            final(self)@.pending == Seq::<int>::empty(),
            (SlabState { arena: final(arena)@, lists: final(self)@.lists }) == (SlabState {
                arena: old(arena)@,
                lists: old(self)@.lists,
            }).drained(old(self)@.pending),
            final(arena).mem.same_place(old(arena).mem),
            forall|x: int|
                #![trigger final(arena).mem.byte(x)]
                old(arena).mem.has(x, 1) && (forall|k: int|
                    0 <= k < old(self)@.pending.len() ==> !(#[trigger] old(self)@.pending[k] <= x
                        < old(self)@.pending[k] + 2)) ==> final(arena).mem.byte(x) == old(
                    arena,
                ).mem.byte(x),
            SlabAllocator::other_links_kept(
                *final(arena),
                *old(arena),
                final(self)@.lists,
                old(self)@.lists,
            ),
    {
        let ghost a0 = *arena;
        let ghost ps = self.pending@;
        let ghost l0 = self.slab@;
        let ghost st = SlabState { arena: a0@, lists: l0 };
        let mut head: usize = self.remote_frees;
        self.remote_frees = 0;
        proof {
            self.pending@ = Seq::empty();
            assert(ps.skip(0) =~= ps);
        }
        let ghost mut done: int = 0;
        while head != 0
            invariant
                0 <= done <= ps.len(),
                head == Self::at(ps, done),
                self.id == old(self).id,
                self.page == old(self).page,
                self.remote_frees == 0,
                self.pending@ == Seq::<int>::empty(),
                self.slab.wf(*arena),
                arena.wf(),
                st == (SlabState { arena: a0@, lists: l0 }),
                (SlabState { arena: arena@, lists: self.slab@ }).drained(ps.skip(done)) == st.drained(ps),
                ps.no_duplicates(),
                forall|k: int| done <= k < ps.len() ==> #[trigger] Self::node_ok(*arena, ps, k),
                arena.mem.same_place(a0.mem),
                forall|x: int|
                    #![trigger arena.mem.byte(x)]
                    a0.mem.has(x, 1) && (forall|k: int|
                        0 <= k < ps.len() ==> !(#[trigger] ps[k] <= x < ps[k] + 2))
                        ==> arena.mem.byte(x) == a0.mem.byte(x),
                SlabAllocator::other_links_kept(*arena, a0, self.slab@, l0),
            decreases ps.len() - done,
        {
            let ghost a1 = *arena;
            let ghost l1 = self.slab@;
            let ghost s1 = SlabState { arena: a1@, lists: l1 };
            proof {
                assert(Self::node_ok(*arena, ps, done));
                crate::slab::lemma_slots_wf(a1);
                crate::slab::laws::lemma_used(a1@, ps[done]);
                if done + 1 < ps.len() {
                    assert(Self::node_ok(*arena, ps, done + 1));
                    crate::slab::laws::lemma_used(a1@, ps[done + 1]);
                }
                self.slab.lemma_state_wf(a1);
                crate::slab::laws::returned_slot(s1, ps[done]);
                assert(ps.skip(done)[0] == ps[done]);
                assert(ps.skip(done).skip(1) =~= ps.skip(done + 1));
            }
            let next: usize = RemoteFreeNode::load(&arena.mem, head).next;
            self.slab.free(head, arena);
            proof {
                assert((SlabState { arena: arena@, lists: self.slab@ }) == s1.returned(ps[done]));
                assert forall|k: int| done + 1 <= k < ps.len() implies #[trigger] Self::node_ok(
                    *arena,
                    ps,
                    k,
                ) by {
                    assert(Self::node_ok(a1, ps, k));
                    assert(ps[k] != ps[done]);
                    crate::slab::laws::lemma_used(a1@, ps[k]);
                    crate::slab::laws::used_slots_are_disjoint(a1@, ps[done], ps[k]);
                    crate::memory::lemma_word_same(arena.mem, a1.mem, ps[k]);
                }
                assert forall|x: int|
                    #![trigger arena.mem.byte(x)]
                    a0.mem.has(x, 1) && (forall|k: int|
                        0 <= k < ps.len() ==> !(#[trigger] ps[k] <= x < ps[k] + 2)) implies arena.mem.byte(
                    x,
                ) == a0.mem.byte(x) by {
                    assert(!(ps[done] <= x < ps[done] + 2));
                    assert(a1.mem.byte(x) == a0.mem.byte(x));
                }
                assert forall|j: int|
                    #![trigger arena.pages@[j]]
                    0 <= j < PAGES_PER_ARENA && !SlabAllocator::listed(l0, j) && !SlabAllocator::listed(
                        self.slab@,
                        j,
                    ) implies {
                    &&& arena.pages@[j].next_page == a0.pages@[j].next_page
                    &&& arena.pages@[j].prev_page == a0.pages@[j].prev_page
                } by {
                    assert(!SlabAllocator::listed(l1, j));
                    assert(a1.pages@[j].next_page == a0.pages@[j].next_page);
                }
                done = done + 1;
            }
            head = next;
        }
        proof {
            if done < ps.len() {
                assert(Self::node_ok(*arena, ps, done));
            }
        }
    }

    /// A cache stays in order while its pages, its blocks on the stack and the
    /// bytes of these stay as they are.
    pub proof fn lemma_kept(self, new: Arena, old: Arena)
        requires
            self.wf(old),
            old.wf(),
            new@.base == old@.base,
            new@.next >= old@.next,
            new.mem.same_place(old.mem),
            forall|j: int|
                #![trigger new.pages@[j]]
                0 <= j < PAGES_PER_ARENA && SlabAllocator::listed(self@.lists, j) ==> {
                    &&& new.pages@[j].next_page == old.pages@[j].next_page
                    &&& new.pages@[j].prev_page == old.pages@[j].prev_page
                    &&& new.pages@[j].size_class == old.pages@[j].size_class
                    &&& old.free@[j].len() > 0 ==> new.free@[j].len() > 0
                },
            forall|p: int| #[trigger] self@.pending.contains(p) && old@.used(p) ==> new@.used(p),
            forall|p: int, x: int|
                #![trigger self@.pending.contains(p), new.mem.byte(x)]
                self@.pending.contains(p) && p <= x < p + 8 ==> new.mem.byte(x) == old.mem.byte(x),
        ensures
            self.wf(new),
    {
        self.slab.lemma_kept_at(new, old);
        let ps = self.pending@;
        crate::slab::lemma_slots_wf(old);
        assert forall|k: int| 0 <= k < ps.len() implies #[trigger] Self::node_ok(new, ps, k) by {
            assert(Self::node_ok(old, ps, k));
            assert(self@.pending.contains(ps[k]));
            crate::slab::laws::lemma_used(old@, ps[k]);
            crate::memory::lemma_word_same(new.mem, old.mem, ps[k]);
        }
    }
}

/// The caches of all threads.
pub struct CacheRegistry {
    /// The caches, by identifier.
    pub caches: Vec<Option<ThreadCache>>,
    /// The next identifier to hand out.
    pub next_thread_id: u16,
    /// The key under which a thread keeps the handle of its cache: the
    /// identifier and one more. `usize::MAX` until the key is created.
    pub tls_key: usize,
}

impl View for CacheRegistry {
    type V = Seq<Option<CacheState>>;

    open spec fn view(&self) -> Seq<Option<CacheState>> {
        Seq::new(
            self.caches@.len(),
            |k: int|
                match self.caches@[k] {
                    Some(c) => Some(c@),
                    None => None,
                },
        )
    }
}

impl CacheRegistry {
    /// Identifiers are places in the registry, and are handed out in order.
    pub open spec fn shape(self) -> bool {
        &&& self.caches@.len() == MAX_THREADS
        &&& self.next_thread_id <= MAX_THREADS
        &&& forall|k: int|
            #![trigger self.caches@[k]]
            0 <= k < MAX_THREADS && self.caches@[k] is Some ==> self.caches@[k]->0.id == k && k
                < self.next_thread_id
    }

    /// All caches are in good order.
    pub open spec fn wf(self, arena: Arena) -> bool {
        &&& self.shape()
        &&& forall|k: int|
            #![trigger self.caches@[k]]
            0 <= k < MAX_THREADS && self.caches@[k] is Some ==> self.caches@[k]->0.wf(arena)
    }

    /// What a thread holds under the key.
    pub open spec fn handle(self, tls: ThreadLocals) -> int {
        tls.value(self.tls_key as u32) as int
    }

    /// What a thread holds under the key is the handle of a cache, or nothing.
    pub open spec fn knows(self, tls: ThreadLocals) -> bool {
        self.tls_key != usize::MAX && self.handle(tls) != 0 ==> self.handle(tls) <= MAX_THREADS
            && self.caches@[self.handle(tls) - 1] is Some
    }

    /// No caches.
    pub fn new() -> (r: CacheRegistry)
        ensures
            r.shape(),
            r@ == Seq::new(MAX_THREADS as nat, |k: int| None::<CacheState>),
            r.next_thread_id == 0,
            r.tls_key == usize::MAX,
            forall|arena: Arena| #[trigger] r.wf(arena),
            forall|tls: ThreadLocals| #[trigger] r.knows(tls),
    {
        let mut caches: Vec<Option<ThreadCache>> = Vec::new();
        while caches.len() < MAX_THREADS
            invariant
                caches@.len() <= MAX_THREADS,
                forall|k: int| 0 <= k < caches@.len() ==> #[trigger] caches@[k] is None,
            decreases MAX_THREADS - caches@.len(),
        {
            caches.push(None);
        }
        let r = CacheRegistry { caches, next_thread_id: 0, tls_key: usize::MAX };
        assert(r@ =~= Seq::new(MAX_THREADS as nat, |k: int| None::<CacheState>));
        r
    }
}

impl ThreadCache {
    /// The identifier of the calling thread's cache, which is created if the
    /// thread has none.
    ///
    /// To create it, the operating system is to be asked for a page; `reply` is
    /// its answer. The result is `None` before the key is created, if all
    /// identifiers are taken, and if the page was refused; an identifier that
    /// was meant for a refused page stays unused.
    pub fn get_or_create(
        registry: &mut CacheRegistry,
        tls: &mut ThreadLocals,
        reply: Option<Region>,
    ) -> (r: Option<u16>)
        requires
            old(registry).shape(),
            old(registry).knows(*old(tls)),
        ensures
            final(registry).shape(),
            final(registry).knows(*final(tls)),
            final(registry).tls_key == old(registry).tls_key,
            forall|arena: Arena| old(registry).wf(arena) ==> #[trigger] final(registry).wf(arena),
            r matches Some(id) ==> id < MAX_THREADS && final(registry).caches@[id as int] is Some,
            ({
                let (next, caches, handle, id) = CacheRegistry::joined(
                    old(registry).next_thread_id as int,
                    old(registry)@,
                    old(registry).handle(*old(tls)),
                    is_mapping(reply, PAGE_SIZE as int),
                );
                if old(registry).tls_key == usize::MAX {
                    r is None && *final(registry) == *old(registry) && *final(tls) == *old(tls)
                } else {
                    &&& final(registry).next_thread_id == next
                    &&& final(registry)@ == caches
                    &&& final(registry).handle(*final(tls)) == handle
                    &&& match r {
                        Some(k) => id == Some(k as int),
                        None => id is None,
                    }
                    &&& if old(registry).handle(*old(tls)) == 0 && id is Some {
                        let k = id->0;
                        &&& final(registry).caches@ == old(registry).caches@.update(
                            k,
                            final(registry).caches@[k],
                        )
                        &&& final(registry).caches@[k] is Some
                        &&& final(registry).caches@[k]->0.id == k
                        &&& final(registry).caches@[k]->0.page == reply->0
                    } else {
                        final(registry).caches@ == old(registry).caches@
                    }
                    &&& forall|other: u32|
                        other != old(registry).tls_key as u32 ==> #[trigger] final(tls).value(other)
                            == old(tls).value(other)
                }
            }),
    {
        let key: usize = registry.tls_key;
        if key == usize::MAX {
            return None;
        }
        let handle: usize = tls_get(tls, key as u32);
        if handle != 0 {
            return Some((handle - 1) as u16);
        }
        let id: u16 = registry.next_thread_id;
        if id as usize >= MAX_THREADS {
            return None;
        }
        registry.next_thread_id = id + 1;
        assert(crate::platform::is_align_up(PAGE_SIZE as int, PAGE_SIZE as int, PAGE_SIZE as int));
        let page = match os_alloc(PAGE_SIZE, reply) {
            Some(page) => page,
            None => {
                assert(registry@ =~= old(registry)@);
                return None;
            },
        };
        let cache = ThreadCache {
            id,
            slab: SlabAllocator::new(),
            remote_frees: 0,
            page,
            pending: Ghost(Seq::empty()),
        };
        registry.caches.set(id as usize, Some(cache));
        tls_set(tls, key as u32, id as usize + 1);
        proof {
            assert(registry@ =~= old(registry)@.update(id as int, Some(CacheState::empty())));
        }
        Some(id)
    }
}

impl CacheState {
    /// A new cache.
    pub open spec fn empty() -> CacheState {
        CacheState {
            lists: Seq::new(crate::size_class::NUM_SIZE_CLASSES as nat, |c: int| Seq::<int>::empty()),
            pending: Seq::empty(),
        }
    }
}

impl CacheRegistry {
    /// What a thread with the handle `handle` finds or makes, given whether the
    /// operating system grants a page: the next identifier, the caches, the
    /// thread's handle, and the identifier of its cache.
    pub open spec fn joined(
        next: int,
        caches: Seq<Option<CacheState>>,
        handle: int,
        page: bool,
    ) -> (int, Seq<Option<CacheState>>, int, Option<int>) {
        if handle != 0 {
            (next, caches, handle, Some(handle - 1))
        } else if next >= MAX_THREADS {
            (next, caches, 0, None)
        } else if !page {
            (next + 1, caches, 0, None)
        } else {
            (next + 1, caches.update(next, Some(CacheState::empty())), next + 1, Some(next))
        }
    }
}

/// Creates the key under which threads keep the handles of their caches.
pub fn init_tls(registry: &mut CacheRegistry, keys: &mut TlsKeys)
    ensures
        *final(registry) == (CacheRegistry { tls_key: old(keys).next as usize, ..*old(registry) }),
        final(keys).next == (if old(keys).next == u32::MAX {
            0
        } else {
            old(keys).next + 1
        }),
{
    let key: u32 = tls_create(keys);
    registry.tls_key = key as usize;
}

/// Pushes a block onto the stack of the cache `target_id`. Nothing happens if
/// there is no such cache.
pub fn remote_free_push(registry: &mut CacheRegistry, arena: &mut Arena, target_id: u16, ptr: usize)
    requires
        old(arena).wf(),
        old(registry).wf(*old(arena)),
        old(arena)@.used(ptr as int),
        old(arena)@.page_of(ptr as int) < old(arena)@.next,
        forall|k: int|
            #![trigger old(registry).caches@[k]]
            0 <= k < MAX_THREADS && old(registry).caches@[k] is Some ==> !old(
                registry,
            ).caches@[k]->0.pending@.contains(ptr as int),
    ensures
        final(arena).wf(),
        final(registry).wf(*final(arena)),
        final(registry).next_thread_id == old(registry).next_thread_id,
        final(registry).tls_key == old(registry).tls_key,
        final(arena)@ == old(arena)@,
        final(arena).pages == old(arena).pages,
        final(arena).free == old(arena).free,
        target_id >= MAX_THREADS || old(registry)@[target_id as int] is None ==> *final(registry)
            == *old(registry) && *final(arena) == *old(arena),
        target_id < MAX_THREADS && old(registry)@[target_id as int] is Some ==> {
            let c = old(registry)@[target_id as int]->0;
            &&& final(registry)@ == old(registry)@.update(
                target_id as int,
                Some(CacheState { pending: seq![ptr as int] + c.pending, ..c }),
            )
            &&& final(registry).caches@ == old(registry).caches@.update(
                target_id as int,
                final(registry).caches@[target_id as int],
            )
            &&& final(registry).caches@[target_id as int] is Some
            &&& final(registry).caches@[target_id as int]->0.id == old(registry).caches@[target_id as int]->0.id
            &&& final(registry).caches@[target_id as int]->0.page
                == old(registry).caches@[target_id as int]->0.page
            &&& final(arena).mem.same_outside(old(arena).mem, ptr as int, ptr + 8)
        },
{
    if target_id as usize >= MAX_THREADS {
        return;
    }
    if registry.caches[target_id as usize].is_none() {
        return;
    }
    let ghost a0 = *arena;
    let ghost r0 = *registry;
    proof {
        crate::slab::lemma_slots_wf(a0);
        crate::slab::laws::lemma_used(a0@, ptr as int);
    }
    match &mut registry.caches[target_id as usize] {
        Some(cache) => {
            let ghost ps = cache.pending@;
            let node = RemoteFreeNode { next: cache.remote_frees };
            node.store(&mut arena.mem, ptr);
            cache.remote_frees = ptr;
            proof {
                cache.pending@ = seq![ptr as int] + ps;
            }
        },
        None => {
            assert(false);
        },
    }
    proof {
        let t = target_id as int;
        let c0 = r0.caches@[t]->0;
        let ps = c0.pending@;
        let qs = seq![ptr as int] + ps;
        assert(r0.caches@[t] is Some);
        assert(registry.caches@[t]->0.pending@ == qs);
        assert(arena@.pages =~= a0@.pages);
        assert(arena@ == a0@);
        lemma_slot_written(*arena, a0, ptr as int);
        assert forall|k: int|
            #![trigger registry.caches@[k]]
            0 <= k < MAX_THREADS && registry.caches@[k] is Some implies registry.caches@[k]->0.wf(*arena) by {
            let c = r0.caches@[k]->0;
            assert(r0.caches@[k] is Some);
            assert forall|p: int, x: int|
                #![trigger c@.pending.contains(p), arena.mem.byte(x)]
                c@.pending.contains(p) && p <= x < p + 8 implies arena.mem.byte(x) == a0.mem.byte(x) by {
                let i = c.pending@.index_of(p);
                assert(ThreadCache::node_ok(a0, c.pending@, i));
                crate::slab::laws::lemma_used(a0@, p);
                crate::slab::laws::used_slots_are_disjoint(a0@, ptr as int, p);
            }
            c.lemma_kept(*arena, a0);
            if k == t {
                assert forall|i: int| 0 <= i < qs.len() implies #[trigger] ThreadCache::node_ok(
                    *arena,
                    qs,
                    i,
                ) by {
                    if i > 0 {
                        assert(ThreadCache::node_ok(*arena, ps, i - 1));
                        assert(qs[i] == ps[i - 1]);
                    }
                }
                assert forall|x: int, y: int| 0 <= x < qs.len() && 0 <= y < qs.len() && x != y implies qs[x]
                    != qs[y] by {
                    if x > 0 {
                        assert(ps.contains(qs[x]));
                    }
                    if y > 0 {
                        assert(ps.contains(qs[y]));
                    }
                }
            }
        }
        assert(registry@ =~= r0@.update(
            t,
            Some(CacheState { pending: qs, ..r0@[t]->0 }),
        ));
    }
}

/// Writing to a slot that is in use leaves an arena in good order.
pub proof fn lemma_slot_written(new: Arena, old: Arena, p: int)
    requires
        old.wf(),
        old@.used(p),
        new.meta == old.meta,
        new.pages == old.pages,
        new.free == old.free,
        new.mem.wf(),
        new.mem.same_outside(
            old.mem,
            p,
            p + crate::size_class::SizeClass::size(old@.pages[old@.page_of(p)].class),
        ),
    ensures
        new.wf(),
        new@ == old@,
{
    crate::slab::lemma_slots_wf(old);
    crate::slab::laws::lemma_used(old@, p);
    let i = old@.page_of(p);
    let z = crate::size_class::SizeClass::size(old@.pages[i].class);
    let s = old@.index_of(p);
    assert forall|j: int| 0 <= j < PAGES_PER_ARENA implies #[trigger] new.page_ok(j) by {
        assert(old.page_ok(j));
        let f = old.free@[j];
        let c = old.pages@[j].size_class as int;
        let y = crate::size_class::SizeClass::size(c);
        if c != 0xFF {
            crate::size_class::lemma_sizes(c);
            crate::size_class::lemma_slots(c);
            assert forall|k: int, x: int|
                #![trigger f[k], new.mem.byte(x)]
                0 <= k < f.len() && crate::arena::Chain::slot(old@.page(j), y, f[k]) <= x
                    < crate::arena::Chain::slot(old@.page(j), y, f[k]) + 2 implies new.mem.byte(x)
                == old.mem.byte(x) by {
                crate::arena::lemma_slot_in_page(
                    old@.page(j),
                    y,
                    crate::size_class::SizeClass::slots(c, 4096),
                    f[k],
                );
                if i == j {
                    assert(f.contains(f[k]));
                    if f[k] < s {
                        crate::arena::lemma_slots_apart(old@.page(i), z, f[k], s);
                    } else {
                        crate::arena::lemma_slots_apart(old@.page(i), z, s, f[k]);
                    }
                }
            }
        }
        new.lemma_page_kept(old, j);
    }
    assert(new@.pages =~= old@.pages);
}

/// A thread keeps its cache. A new one is empty and gets the next of 128
/// numbers, if the operating system gives a page for it; without the page, the
/// number is used up. No other cache changes.
pub proof fn caches_are_given_in_order(
    next: int,
    caches: Seq<Option<CacheState>>,
    handle: int,
    page: bool,
)
    requires
        0 <= next <= 128,
        128 <= caches.len(),
    ensures
        ({
            let (n, cs, h, id) = CacheRegistry::joined(next, caches, handle, page);
            &&& handle != 0 ==> n == next && cs == caches && h == handle && id == Some(handle - 1)
            &&& handle == 0 && next < 128 ==> n == next + 1
            &&& handle == 0 && next == 128 ==> n == next
            &&& handle == 0 && next < 128 && page ==> h == next + 1 && id == Some(next) && cs[next] is Some
                && cs[next]->0.pending.len() == 0 && cs[next]->0.lists.len() == 22 && forall|c: int|
                0 <= c < 22 ==> (#[trigger] cs[next]->0.lists[c]).len() == 0
            &&& handle == 0 && !(next < 128 && page) ==> h == 0 && id is None && cs == caches
            &&& cs.len() == caches.len()
            &&& forall|k: int| 0 <= k < cs.len() && k != next ==> #[trigger] cs[k] == caches[k]
        }),
{
}

} // verus!
