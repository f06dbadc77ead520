//! Slab allocator for small size classes.
//!
//! Serves allocations of up to 1024 bytes. Pages are taken from the arena and
//! split into slots of one size class; pages with free slots are kept in one
//! doubly linked list per class. What a page's entry holds as links are the
//! addresses of other entries.

use vstd::prelude::*;

use crate::arena::{Arena, ArenaState, Chain, PageView, META_PAGES, NO_CLASS, PAGES_PER_ARENA};
use crate::platform::PAGE_SIZE;
use crate::size_class::{class_to_size, slots_per_page, SizeClass, NUM_SIZE_CLASSES};

pub mod laws;

verus! {

/// End of a chain of free slots.
pub const NULL_SLOT: u16 = 0xFFFF;

/// What is recorded of a page of an arena.
#[derive(Clone, Copy)]
pub struct PageMeta {
    /// Class of its slots; 0xFF for a page that is not split.
    pub size_class: u8,
    /// The thread that the page belongs to; 0xFFFF for none.
    pub owner_id: u16,
    /// Number of slots in use.
    pub used_slots: u16,
    /// First free slot.
    pub free_list_head: u16,
    /// Entry of the next page in the list of pages with free slots.
    pub next_page: usize,
    /// Entry of the previous page in that list.
    pub prev_page: usize,
    /// Address of the page.
    pub page_addr: usize,
}

impl PageMeta {
    /// A page that is not in use.
    pub fn empty() -> (r: PageMeta)
        ensures
            r == (PageMeta {
                size_class: 0xFF,
                owner_id: 0xFFFF,
                used_slots: 0,
                free_list_head: NULL_SLOT,
                next_page: 0,
                prev_page: 0,
                page_addr: 0,
            }),
    {
        PageMeta {
            size_class: 0xFF,
            owner_id: 0xFFFF,
            used_slots: 0,
            free_list_head: NULL_SLOT,
            next_page: 0,
            prev_page: 0,
            page_addr: 0,
        }
    }
}

impl Default for PageMeta {
    fn default() -> (r: PageMeta)
        ensures
            r.size_class == 0xFF,
            r.owner_id == 0xFFFF,
            r.used_slots == 0,
            r.free_list_head == NULL_SLOT,
            r.next_page == 0,
            r.prev_page == 0,
            r.page_addr == 0,
    {
        Self::empty()
    }
}

impl ArenaState {
    /// The address of slot `s` of page `i`.
    pub open spec fn slot(self, i: int, s: int) -> int {
        Chain::slot(self.page(i), SizeClass::size(self.pages[i].class), s)
    }

    /// Page `i` with the free slots `f`.
    pub open spec fn with_free(self, i: int, f: Seq<int>) -> ArenaState {
        ArenaState { pages: self.pages.update(i, PageView { free: f, ..self.pages[i] }), ..self }
    }

    /// Page `i` split into slots of a class, all of them free, for an owner.
    pub open spec fn split(self, i: int, class: int, owner: int) -> ArenaState {
        ArenaState {
            pages: self.pages.update(
                i,
                PageView {
                    class,
                    owner,
                    free: Seq::new(SizeClass::slots(class, 4096) as nat, |k: int| k),
                },
            ),
            ..self
        }
    }

    /// `p` is the address of a slot that is in use.
    pub open spec fn used(self, p: int) -> bool {
        let i = self.page_of(p);
        &&& i != 0
        &&& self.pages[i].class != 0xFF
        &&& exists|s: int| #[trigger] self.slot_used(i, s) && p == self.slot(i, s)
    }

    /// Slot `s` of page `i` is in use.
    pub open spec fn slot_used(self, i: int, s: int) -> bool {
        0 <= s < SizeClass::slots(self.pages[i].class, 4096) && !self.pages[i].free.contains(s)
    }

    /// Pages are handed out in order; a page that is split has a class, and its
    /// free slots are slots, none listed twice.
    pub open spec fn slots_wf(self) -> bool {
        &&& self.pages.len() == PAGES_PER_ARENA
        &&& META_PAGES <= self.next <= PAGES_PER_ARENA
        &&& forall|i: int|
            #![trigger self.pages[i]]
            0 <= i < PAGES_PER_ARENA ==> if self.pages[i].class == 0xFF {
                self.pages[i].free.len() == 0
            } else {
                &&& i >= META_PAGES
                &&& 0 <= self.pages[i].class < NUM_SIZE_CLASSES
                &&& self.pages[i].free.no_duplicates()
                &&& forall|k: int|
                    0 <= k < self.pages[i].free.len() ==> 0 <= #[trigger] self.pages[i].free[k]
                        < SizeClass::slots(self.pages[i].class, 4096)
            }
    }

    /// The index of the slot at `p`.
    pub open spec fn index_of(self, p: int) -> int {
        let i = self.page_of(p);
        (p - self.page(i)) / SizeClass::size(self.pages[i].class)
    }
}

/// An arena and one slab allocator's lists of pages with free slots, by class.
#[verifier::ext_equal]
pub struct SlabState {
    pub arena: ArenaState,
    pub lists: Seq<Seq<int>>,
}

impl SlabState {
    /// The lists hold pages that have free slots of their class, none twice.
    pub open spec fn wf(self) -> bool {
        &&& self.arena.slots_wf()
        &&& self.lists.len() == NUM_SIZE_CLASSES
        &&& forall|c: int|
            #![trigger self.lists[c]]
            0 <= c < NUM_SIZE_CLASSES ==> self.lists[c].no_duplicates()
        &&& forall|c: int, k: int|
            #![trigger SlabAllocator::member(self.lists, c, k)]
            SlabAllocator::member(self.lists, c, k) ==> {
                let i = self.lists[c][k];
                &&& META_PAGES <= i < self.arena.next
                &&& self.arena.pages[i].class == c
                &&& self.arena.pages[i].free.len() > 0
            }
    }

    /// A page is at hand for the class: one from the list, or else a new one.
    /// `None` if there is neither.
    pub open spec fn stocked(self, class: int, owner: int) -> Option<SlabState> {
        if self.lists[class].len() > 0 {
            Some(self)
        } else if self.arena.next < PAGES_PER_ARENA {
            Some(
                SlabState {
                    arena: self.arena.page_taken().split(self.arena.next, class, owner),
                    lists: self.lists.update(class, seq![self.arena.next]),
                },
            )
        } else {
            None
        }
    }

    /// The slot that is handed out next.
    pub open spec fn next_slot(self, class: int) -> int {
        let i = self.lists[class][0];
        self.arena.slot(i, self.arena.pages[i].free[0])
    }

    /// The next slot has been handed out. A page without free slots leaves the
    /// list.
    pub open spec fn served(self, class: int) -> SlabState {
        let i = self.lists[class][0];
        let f = self.arena.pages[i].free.skip(1);
        SlabState {
            arena: self.arena.with_free(i, f),
            lists: if f.len() == 0 {
                self.lists.update(class, self.lists[class].skip(1))
            } else {
                self.lists
            },
        }
    }

    /// The slot at `p` has been given back. A page that had no free slots joins
    /// the list.
    pub open spec fn returned(self, p: int) -> SlabState {
        let i = self.arena.page_of(p);
        let class = self.arena.pages[i].class;
        let f = self.arena.pages[i].free;
        SlabState {
            arena: self.arena.with_free(i, seq![self.arena.index_of(p)] + f),
            lists: if f.len() == 0 {
                self.lists.update(class, seq![i] + self.lists[class])
            } else {
                self.lists
            },
        }
    }

    /// What giving back `p` does: nothing if `p` lies in no page of slots.
    pub open spec fn freed(self, p: int) -> SlabState {
        let i = self.arena.page_of(p);
        if i == 0 || self.arena.pages[i].class == 0xFF {
            self
        } else {
            self.returned(p)
        }
    }
}

impl SlabState {
    /// The slots at `ps` have been given back, one after the other.
    pub open spec fn drained(self, ps: Seq<int>) -> SlabState
        decreases ps.len(),
    {
        if ps.len() == 0 {
            self
        } else {
            self.freed(ps[0]).drained(ps.skip(1))
        }
    }
}

/// Manages the size classes of one thread.
pub struct SlabAllocator {
    /// For each class, the entry of the first page that has free slots.
    partial_pages: [usize; NUM_SIZE_CLASSES],
    /// For each class, the pages that have free slots.
    lists: Ghost<Seq<Seq<int>>>,
}

impl View for SlabAllocator {
    type V = Seq<Seq<int>>;

    closed spec fn view(&self) -> Seq<Seq<int>> {
        self.lists@
    }
}

impl SlabAllocator {
    /// The list of class `c` has a `k`-th member.
    pub open spec fn member(lists: Seq<Seq<int>>, c: int, k: int) -> bool {
        0 <= c < NUM_SIZE_CLASSES && 0 <= k < lists[c].len()
    }

    /// Page `i` is in one of the lists.
    pub open spec fn listed(lists: Seq<Seq<int>>, i: int) -> bool {
        exists|c: int, k: int| #[trigger] Self::member(lists, c, k) && lists[c][k] == i
    }

    /// The entry of the `k`-th page of a list; 0 if there is none.
    spec fn entry_at(arena: ArenaState, l: Seq<int>, k: int) -> int {
        if 0 <= k < l.len() {
            arena.entry(l[k])
        } else {
            0
        }
    }

    /// The `k`-th page of the list of class `c` belongs there, and its entry
    /// links its neighbours. Page `x` need not have free slots.
    spec fn member_ok(lists: Seq<Seq<int>>, arena: Arena, c: int, k: int, x: int) -> bool {
        let i = lists[c][k];
        &&& META_PAGES <= i < arena@.next
        &&& arena.pages@[i].size_class == c
        &&& i != x ==> arena.free@[i].len() > 0
        &&& arena.pages@[i].next_page == Self::entry_at(arena@, lists[c], k + 1)
        &&& arena.pages@[i].prev_page == Self::entry_at(arena@, lists[c], k - 1)
    }

    /// The lists lie in the entries of the pages; page `x` need not have free
    /// slots.
    spec fn ordered(self, arena: Arena, x: int) -> bool {
        &&& self@.len() == NUM_SIZE_CLASSES
        &&& forall|c: int|
            #![trigger self@[c]]
            0 <= c < NUM_SIZE_CLASSES ==> self.partial_pages[c] == Self::entry_at(arena@, self@[c], 0)
        &&& forall|c: int| #![trigger self@[c]] 0 <= c < NUM_SIZE_CLASSES ==> self@[c].no_duplicates()
        &&& forall|c: int, k: int|
            #![trigger Self::member(self@, c, k)]
            Self::member(self@, c, k) ==> Self::member_ok(self@, arena, c, k, x)
    }

    /// The lists lie in the entries of the pages.
    pub closed spec fn wf(self, arena: Arena) -> bool {
        self.ordered(arena, 0)
    }

    /// No pages.
    pub fn new() -> (r: SlabAllocator)
        ensures
            r@ == Seq::new(NUM_SIZE_CLASSES as nat, |c: int| Seq::<int>::empty()),
            forall|arena: Arena| #[trigger] r.wf(arena),
    {
        SlabAllocator {
            partial_pages: [0; NUM_SIZE_CLASSES],
            lists: Ghost(Seq::new(NUM_SIZE_CLASSES as nat, |c: int| Seq::<int>::empty())),
        }
    }

    /// Whether a new page is needed to serve a class.
    pub fn alloc_needs_page(&self, arena: &Arena, size_class: u8) -> (r: bool)
        requires
            self.wf(*arena),
            arena.wf(),
            size_class < NUM_SIZE_CLASSES,
        ensures
            r == (self@[size_class as int].len() == 0),
    {
        proof {
            let c = size_class as int;
            if self@[c].len() > 0 {
                assert(Self::member(self@, c, 0));
                assert(Self::member_ok(self@, *arena, c, 0, 0));
            }
        }
        self.partial_pages[size_class as usize] == 0
    }

    /// Puts a page in front of the list of its class.
    fn push_partial_page(&mut self, arena: &mut Arena, size_class: u8, meta_ptr: usize)
        requires
            old(self).wf(*old(arena)),
            old(arena).mapped(),
            old(arena).pages@.len() == PAGES_PER_ARENA,
            old(arena)@.next <= PAGES_PER_ARENA,
            size_class < NUM_SIZE_CLASSES,
            ({
                let i = (meta_ptr - old(arena)@.entry(0)) / 32;
                &&& meta_ptr == old(arena)@.entry(i)
                &&& META_PAGES <= i < old(arena)@.next
                &&& old(arena).pages@[i].size_class == size_class
                &&& old(arena).free@[i].len() > 0
                &&& !old(self)@[size_class as int].contains(i)
            }),
        ensures
            final(self).wf(*final(arena)),
            ({
                let i = (meta_ptr - old(arena)@.entry(0)) / 32;
                &&& final(self)@ == old(self)@.update(
                    size_class as int,
                    seq![i] + old(self)@[size_class as int],
                )
                &&& Self::listed(final(self)@, i)
            }),
            Self::only_links(*final(arena), *old(arena)),
            forall|j: int|
                0 <= j < PAGES_PER_ARENA && !Self::listed(final(self)@, j)
                    ==> #[trigger] final(arena).pages@[j] == old(arena).pages@[j],
    {
        let ghost lists = self@;
        let ghost c = size_class as int;
        let ghost l = lists[c];
        let ghost i = (meta_ptr - arena@.entry(0)) / 32;
        let head: usize = self.partial_pages[size_class as usize];
        let idx: usize = arena.meta_index(meta_ptr);
        let mut pm = arena.pages[idx];
        pm.prev_page = 0;
        pm.next_page = head;
        arena.pages.set(idx, pm);
        if head != 0 {
            proof {
                assert(Self::member(lists, c, 0));
                assert(Self::member_ok(lists, *old(arena), c, 0, 0));
            }
            let head_idx: usize = arena.meta_index(head);
            assert(head_idx == l[0]);
            let mut hm = arena.pages[head_idx];
            hm.prev_page = meta_ptr;
            arena.pages.set(head_idx, hm);
        }
        self.partial_pages[size_class as usize] = meta_ptr;
        proof {
            self.lists@ = lists.update(c, seq![i] + l);
            let nl = self@;
            assert(nl[c] == seq![i] + l);
            assert(arena@.base == old(arena)@.base);
            assert(arena@.next == old(arena)@.next);
            assert(Self::member(nl, c, 0) && nl[c][0] == i);
            assert(head != 0 ==> Self::member(nl, c, 1) && nl[c][1] == l[0]);
            assert forall|d: int, k: int|
                #![trigger Self::member(nl, d, k)]
                Self::member(nl, d, k) implies Self::member_ok(nl, *arena, d, k, 0) by {
                if d == c {
                    if k > 0 {
                        assert(nl[c][k] == l[k - 1]);
                        assert(Self::member(lists, c, k - 1));
                        assert(Self::member_ok(lists, *old(arena), c, k - 1, 0));
                        assert(l.contains(l[k - 1]));
                        assert(k > 1 ==> l[k - 1] != l[0]);
                    }
                } else {
                    assert(Self::member(lists, d, k));
                    assert(Self::member_ok(lists, *old(arena), d, k, 0));
                }
            }
            assert forall|d: int| #![trigger nl[d]] 0 <= d < NUM_SIZE_CLASSES implies nl[d].no_duplicates() by {
                assert(lists[d].no_duplicates());
                if d == c {
                    assert forall|x: int, y: int|
                        0 <= x < nl[c].len() && 0 <= y < nl[c].len() && x != y implies nl[c][x]
                        != nl[c][y] by {
                        if x > 0 {
                            assert(l.contains(nl[c][x]));
                        }
                        if y > 0 {
                            assert(l.contains(nl[c][y]));
                        }
                    }
                }
            }
            assert forall|d: int| #![trigger nl[d]] 0 <= d < NUM_SIZE_CLASSES implies self.partial_pages[d]
                == Self::entry_at(arena@, nl[d], 0) by {
                assert(old(self).partial_pages[d] == Self::entry_at(old(arena)@, lists[d], 0));
            }
        }
    }

    /// Takes a page out of the list of its class.
    fn remove_partial_page(&mut self, arena: &mut Arena, size_class: u8, meta_ptr: usize)
        requires
            old(self).ordered(*old(arena), (meta_ptr - old(arena)@.entry(0)) / 32),
            old(arena).mapped(),
            old(arena).pages@.len() == PAGES_PER_ARENA,
            old(arena)@.next <= PAGES_PER_ARENA,
            size_class < NUM_SIZE_CLASSES,
            ({
                let i = (meta_ptr - old(arena)@.entry(0)) / 32;
                &&& meta_ptr == old(arena)@.entry(i)
                &&& old(self)@[size_class as int].contains(i)
            }),
        ensures
            final(self).wf(*final(arena)),
            ({
                let i = (meta_ptr - old(arena)@.entry(0)) / 32;
                let l = old(self)@[size_class as int];
                &&& final(self)@ == old(self)@.update(size_class as int, l.remove(l.index_of(i)))
            }),
            Self::only_links(*final(arena), *old(arena)),
            forall|j: int|
                0 <= j < PAGES_PER_ARENA && !Self::listed(old(self)@, j)
                    ==> #[trigger] final(arena).pages@[j] == old(arena).pages@[j],
    {
        let ghost lists = self@;
        let ghost c = size_class as int;
        let ghost l = lists[c];
        let ghost i = (meta_ptr - arena@.entry(0)) / 32;
        let ghost p = l.index_of(i);
        proof {
            assert(Self::member(lists, c, p) && l[p] == i);
            assert(Self::member_ok(lists, *arena, c, p, i));
            if p > 0 {
                assert(Self::member(lists, c, p - 1));
                assert(Self::member_ok(lists, *arena, c, p - 1, i));
            }
            if p + 1 < l.len() {
                assert(Self::member(lists, c, p + 1));
                assert(Self::member_ok(lists, *arena, c, p + 1, i));
            }
        }
        let idx: usize = arena.meta_index(meta_ptr);
        let prev: usize = arena.pages[idx].prev_page;
        let next: usize = arena.pages[idx].next_page;
        if prev != 0 {
            let prev_idx: usize = arena.meta_index(prev);
            assert(prev_idx == l[p - 1]);
            let mut pm = arena.pages[prev_idx];
            pm.next_page = next;
            arena.pages.set(prev_idx, pm);
        } else {
            self.partial_pages[size_class as usize] = next;
        }
        if next != 0 {
            let next_idx: usize = arena.meta_index(next);
            assert(next_idx == l[p + 1]);
            let mut nm = arena.pages[next_idx];
            nm.prev_page = prev;
            arena.pages.set(next_idx, nm);
        }
        let mut pm = arena.pages[idx];
        pm.prev_page = 0;
        pm.next_page = 0;
        arena.pages.set(idx, pm);
        proof {
            self.lists@ = lists.update(c, l.remove(p));
            let nl = self@;
            assert(nl[c] == l.remove(p));
            assert(arena@.base == old(arena)@.base);
            assert(arena@.next == old(arena)@.next);
            assert forall|d: int, k: int|
                #![trigger Self::member(nl, d, k)]
                Self::member(nl, d, k) implies Self::member_ok(nl, *arena, d, k, 0) by {
                let o = if d == c && k >= p {
                    k + 1
                } else {
                    k
                };
                assert(Self::member(lists, d, o) && lists[d][o] == nl[d][k]);
                assert(Self::member_ok(lists, *old(arena), d, o, i));
                if d == c {
                    assert(l[o] != l[p]);
                }
            }
            assert forall|d: int| #![trigger nl[d]] 0 <= d < NUM_SIZE_CLASSES implies nl[d].no_duplicates() by {
                assert(lists[d].no_duplicates());
            }
            assert forall|d: int| #![trigger nl[d]] 0 <= d < NUM_SIZE_CLASSES implies self.partial_pages[d]
                == Self::entry_at(arena@, nl[d], 0) by {
                assert(old(self).partial_pages[d] == Self::entry_at(old(arena)@, lists[d], 0));
            }
            assert forall|j: int| 0 <= j < PAGES_PER_ARENA && !Self::listed(lists, j) implies #[trigger] arena.pages@[j]
                == old(arena).pages@[j] by {
                assert(p > 0 ==> Self::listed(lists, l[p - 1]));
                assert(p + 1 < l.len() ==> Self::listed(lists, l[p + 1]));
                assert(Self::listed(lists, i));
            }
        }
    }

    /// Splits a page into slots of a class, all of them free.
    fn init_page(&self, arena: &mut Arena, meta_ptr: usize, page_base: usize, size_class: u8, owner_id: u16)
        requires
            old(arena).wf(),
            size_class < NUM_SIZE_CLASSES,
            ({
                let i = (meta_ptr - old(arena)@.entry(0)) / 32;
                &&& meta_ptr == old(arena)@.entry(i)
                &&& META_PAGES <= i < PAGES_PER_ARENA
                &&& page_base == old(arena)@.page(i)
            }),
        ensures
            final(arena).wf(),
            ({
                let i = (meta_ptr - old(arena)@.entry(0)) / 32;
                &&& final(arena)@ == old(arena)@.split(i, size_class as int, owner_id as int)
                &&& final(arena).mem.same_outside(old(arena).mem, page_base as int, page_base + 4096)
                &&& forall|j: int|
                    0 <= j < PAGES_PER_ARENA && j != i ==> #[trigger] final(arena).pages@[j]
                        == old(arena).pages@[j]
            }),
    {
        let ghost st = arena@;
        let ghost i = (meta_ptr - arena@.entry(0)) / 32;
        let ghost c = size_class as int;
        let ghost z = SizeClass::size(c);
        let ghost n = SizeClass::slots(c, 4096);
        let idx: usize = arena.meta_index(meta_ptr);
        let meta = PageMeta {
            size_class,
            owner_id,
            used_slots: 0,
            free_list_head: 0,
            next_page: 0,
            prev_page: 0,
            page_addr: page_base,
        };
        arena.pages.set(idx, meta);
        let slot_size: usize = class_to_size(size_class);
        let slots: usize = slots_per_page(size_class, PAGE_SIZE);
        proof {
            crate::size_class::lemma_sizes(c);
            crate::size_class::lemma_slots(c);
        }
        let mut k: usize = 0;
        while k < slots - 1
            invariant
                size_class < NUM_SIZE_CLASSES,
                c == size_class,
                z == SizeClass::size(c),
                n == SizeClass::slots(c, 4096),
                slot_size == z,
                slots == n,
                8 <= z,
                4 <= n <= 512,
                n * z <= 4096,
                k <= slots - 1,
                arena.mem.wf(),
                arena.mem.has(page_base as int, 4096),
                arena.mem.same_outside(old(arena).mem, page_base as int, page_base + 4096),
                arena.meta == old(arena).meta,
                arena.free == old(arena).free,
                arena.pages@ == old(arena).pages@.update(i, meta),
                forall|q: int|
                    #![trigger Chain::slot(page_base as int, z, q)]
                    0 <= q < k ==> arena.mem.half(Chain::slot(page_base as int, z, q)) == q + 1,
            decreases slots - k,
        {
            proof {
                crate::arena::lemma_slot_in_page(page_base as int, z, n, k as int);
                assert forall|q: int| 0 <= q < k implies #[trigger] Chain::slot(page_base as int, z, q)
                    + 2 <= Chain::slot(page_base as int, z, k as int) && page_base <= Chain::slot(
                    page_base as int,
                    z,
                    q,
                ) by {
                    crate::arena::lemma_slots_apart(page_base as int, z, q, k as int);
                    crate::arena::lemma_slot_in_page(page_base as int, z, n, q);
                }
            }
            assert(k * slot_size <= 4096);
            let slot_addr: usize = page_base + k * slot_size;
            assert(slot_addr == Chain::slot(page_base as int, z, k as int));
            arena.mem.write_u16(slot_addr, (k + 1) as u16);
            k = k + 1;
        }
        proof {
            crate::arena::lemma_slot_in_page(page_base as int, z, n, n - 1);
            assert forall|q: int| 0 <= q < n - 1 implies #[trigger] Chain::slot(page_base as int, z, q)
                + 2 <= Chain::slot(page_base as int, z, n - 1) && page_base <= Chain::slot(
                page_base as int,
                z,
                q,
            ) by {
                crate::arena::lemma_slots_apart(page_base as int, z, q, n - 1);
                crate::arena::lemma_slot_in_page(page_base as int, z, n, q);
            }
        }
        assert((slots - 1) * slot_size <= 4096);
        let last_slot: usize = page_base + (slots - 1) * slot_size;
        assert(last_slot == Chain::slot(page_base as int, z, n - 1));
        arena.mem.write_u16(last_slot, NULL_SLOT);
        proof {
            let f = Seq::new(n as nat, |k: int| k);
            arena.free@ = arena.free@.update(i, f);
            assert forall|j: int| 0 <= j < PAGES_PER_ARENA implies #[trigger] arena.page_ok(j) by {
                if j == i {
                    assert forall|k: int|
                        #![trigger arena.mem.half(Chain::slot(page_base as int, z, f[k]))]
                        0 <= k < f.len() implies arena.mem.half(Chain::slot(page_base as int, z, f[k]))
                        == Chain::link(f, k) by {
                        assert(Chain::slot(page_base as int, z, k) == Chain::slot(page_base as int, z, f[k]));
                    }
                } else {
                    Self::lemma_page_elsewhere(*arena, *old(arena), i, j);
                }
            }
            assert(arena@.pages =~= st.split(i, c, owner_id as int).pages);
        }
    }

    /// Writing to one page leaves what is recorded of the others right.
    proof fn lemma_page_elsewhere(new: Arena, old: Arena, i: int, j: int)
        requires
            old.wf(),
            0 <= i < PAGES_PER_ARENA,
            0 <= j < PAGES_PER_ARENA,
            i != j,
            new.mem.same_outside(old.mem, old@.page(i), old@.page(i) + 4096),
            new.pages@[j].same_but_links(old.pages@[j]),
            new.free@[j] == old.free@[j],
        ensures
            new.page_ok(j),
    {
        assert(old.page_ok(j));
        let c = old.pages@[j].size_class as int;
        if c != NO_CLASS {
            crate::size_class::lemma_sizes(c);
            crate::size_class::lemma_slots(c);
            let z = SizeClass::size(c);
            let f = old.free@[j];
            assert forall|k: int, x: int|
                #![trigger f[k], new.mem.byte(x)]
                0 <= k < f.len() && Chain::slot(old@.page(j), z, f[k]) <= x < Chain::slot(
                    old@.page(j),
                    z,
                    f[k],
                ) + 2 implies new.mem.byte(x) == old.mem.byte(x) by {
                crate::arena::lemma_slot_in_page(old@.page(j), z, SizeClass::slots(c, 4096), f[k]);
            }
        }
        new.lemma_page_kept(old, j);
    }

    /// The links between pages are not part of an arena's order.
    proof fn lemma_only_links(new: Arena, old: Arena)
        requires
            old.wf(),
            Self::only_links(new, old),
        ensures
            new.wf(),
            new@ == old@,
    {
        assert forall|j: int| 0 <= j < PAGES_PER_ARENA implies #[trigger] new.page_ok(j) by {
            new.lemma_page_kept(old, j);
        }
        assert(new@.pages =~= old@.pages);
    }

    /// The links of pages that are in none of the lists, before and after,
    /// have not changed.
    pub open spec fn other_links_kept(
        new: Arena,
        old: Arena,
        new_lists: Seq<Seq<int>>,
        old_lists: Seq<Seq<int>>,
    ) -> bool {
        forall|j: int|
            #![trigger new.pages@[j]]
            0 <= j < PAGES_PER_ARENA && !Self::listed(old_lists, j) && !Self::listed(new_lists, j) ==> {
                &&& new.pages@[j].next_page == old.pages@[j].next_page
                &&& new.pages@[j].prev_page == old.pages@[j].prev_page
            }
    }

    /// Of the pages other than `i`, the records have not changed but for links.
    pub open spec fn other_records_kept(new: Arena, old: Arena, i: int) -> bool {
        forall|j: int|
            #![trigger new.pages@[j]]
            0 <= j < PAGES_PER_ARENA && j != i ==> new.pages@[j].same_but_links(old.pages@[j])
    }

    /// Allocates a slot from a page at hand.
    pub fn alloc_no_arena(&mut self, arena: &mut Arena, size_class: u8) -> (r: usize)
        requires
            old(self).wf(*old(arena)),
            old(arena).wf(),
            size_class < NUM_SIZE_CLASSES,
            old(self)@[size_class as int].len() > 0,
        ensures
            final(self).wf(*final(arena)),
            final(arena).wf(),
            final(arena).mem == old(arena).mem,
            ({
                let st = SlabState { arena: old(arena)@, lists: old(self)@ };
                &&& r == st.next_slot(size_class as int)
                &&& (SlabState { arena: final(arena)@, lists: final(self)@ }) == st.served(size_class as int)
            }),
            Self::other_links_kept(*final(arena), *old(arena), final(self)@, old(self)@),
            Self::other_records_kept(*final(arena), *old(arena), old(self)@[size_class as int][0]),
    {
        let ghost a0 = *arena;
        let ghost lists = self@;
        let ghost c = size_class as int;
        let ghost i = lists[c][0];
        let ghost f = a0.free@[i];
        let ghost z = SizeClass::size(c);
        let ghost n = SizeClass::slots(c, 4096);
        proof {
            assert(Self::member(lists, c, 0));
            assert(Self::member_ok(lists, a0, c, 0, 0));
            assert(a0.page_ok(i));
            crate::size_class::lemma_sizes(c);
            crate::size_class::lemma_slots(c);
            crate::arena::lemma_slot_in_page(a0@.page(i), z, n, f[0]);
            assert(a0.mem.half(Chain::slot(a0@.page(i), z, f[0])) == Chain::link(f, 0));
        }
        let page_meta_ptr: usize = self.partial_pages[size_class as usize];
        let idx: usize = arena.meta_index(page_meta_ptr);
        let mut meta = arena.pages[idx];
        let slot_idx: u16 = meta.free_list_head;
        let slot_size: usize = class_to_size(size_class);
        assert(slot_idx as usize * slot_size == f[0] * z);
        let slot_addr: usize = meta.page_addr + (slot_idx as usize) * slot_size;
        let next_idx: u16 = arena.mem.read_u16(slot_addr);
        meta.free_list_head = next_idx;
        meta.used_slots = meta.used_slots + 1;
        arena.pages.set(idx, meta);
        let ghost g = f.skip(1);
        proof {
            arena.free@ = a0.free@.update(i, g);
            assert forall|j: int| 0 <= j < PAGES_PER_ARENA implies #[trigger] arena.page_ok(j) by {
                assert(a0.page_ok(j));
                if j == i {
                    assert forall|k: int|
                        #![trigger arena.mem.half(Chain::slot(a0@.page(i), z, g[k]))]
                        0 <= k < g.len() implies arena.mem.half(Chain::slot(a0@.page(i), z, g[k]))
                        == Chain::link(g, k) by {
                        assert(a0.mem.half(Chain::slot(a0@.page(i), z, f[k + 1])) == Chain::link(f, k + 1));
                    }
                    assert(g.no_duplicates());
                } else {
                    arena.lemma_page_kept(a0, j);
                }
            }
            assert(arena@.pages =~= a0@.with_free(i, g).pages);
            assert(f.len() > 1 ==> next_idx != NULL_SLOT);
        }
        if meta.free_list_head == NULL_SLOT {
            let ghost a1 = *arena;
            proof {
                self.lemma_kept(*arena, a0, i);
                assert(f.len() == 1);
                assert(lists[c].contains(i));
                assert(lists[c].index_of(i) == 0) by {
                    assert(lists[c].no_duplicates());
                    assert(lists[c][lists[c].index_of(i)] == i);
                }
            }
            self.remove_partial_page(arena, size_class, page_meta_ptr);
            proof {
                Self::lemma_only_links(*arena, a1);
                assert(self@[c] =~= lists[c].skip(1));
            }
        } else {
            proof {
                self.lemma_kept(*arena, a0, 0);
            }
        }
        slot_addr
    }

    /// The lists stay in order while the links, the classes and the presence of
    /// free slots of their pages stay as they are.
    proof fn lemma_kept(self, new: Arena, old: Arena, x: int)
        requires
            self.wf(old),
            new@.base == old@.base,
            new@.next >= old@.next,
            forall|j: int|
                #![trigger new.pages@[j]]
                0 <= j < PAGES_PER_ARENA && Self::listed(self@, j) ==> {
                    &&& new.pages@[j].next_page == old.pages@[j].next_page
                    &&& new.pages@[j].prev_page == old.pages@[j].prev_page
                    &&& new.pages@[j].size_class == old.pages@[j].size_class
                    &&& j != x ==> new.free@[j].len() > 0
                },
            old@.next <= PAGES_PER_ARENA,
        ensures
            self.ordered(new, x),
    {
        let lists = self@;
        assert forall|c: int, k: int|
            #![trigger Self::member(lists, c, k)]
            Self::member(lists, c, k) implies Self::member_ok(lists, new, c, k, x) by {
            assert(Self::member_ok(lists, old, c, k, 0));
            assert(Self::listed(lists, lists[c][k]));
        }
        assert forall|c: int| #![trigger lists[c]] 0 <= c < NUM_SIZE_CLASSES implies self.partial_pages[c]
            == Self::entry_at(new@, lists[c], 0) by {
            assert(self.partial_pages[c] == Self::entry_at(old@, lists[c], 0));
        }
    }

    /// Allocates a slot of a class. A page with free slots is taken from the
    /// list, or else from the arena, for `owner_id`; 0 if the arena is full.
    pub fn allocate(&mut self, size_class: u8, arena: &mut Arena, owner_id: u16) -> (r: usize)
        requires
            old(self).wf(*old(arena)),
            old(arena).wf(),
            size_class < NUM_SIZE_CLASSES,
        ensures
            final(self).wf(*final(arena)),
            final(arena).wf(),
            ({
                let st = SlabState { arena: old(arena)@, lists: old(self)@ };
                match st.stocked(size_class as int, owner_id as int) {
                    Some(sk) => {
                        &&& r == sk.next_slot(size_class as int)
                        &&& (SlabState { arena: final(arena)@, lists: final(self)@ }) == sk.served(
                            size_class as int,
                        )
                        &&& if old(self)@[size_class as int].len() > 0 {
                            final(arena).mem == old(arena).mem
                        } else {
                            let page = old(arena)@.page(old(arena)@.next);
                            final(arena).mem.same_outside(old(arena).mem, page, page + 4096)
                        }
                        &&& Self::other_links_kept(*final(arena), *old(arena), final(self)@, old(self)@)
                        &&& Self::other_records_kept(
                            *final(arena),
                            *old(arena),
                            sk.lists[size_class as int][0],
                        )
                    },
                    None => r == 0 && *final(self) == *old(self) && *final(arena) == *old(arena),
                }
            }),
    {
        let ghost a0 = *arena;
        let ghost l0 = self@;
        let ghost c = size_class as int;
        if self.alloc_needs_page(arena, size_class) {
            match arena.alloc_page() {
                Some((new_meta_ptr, page_addr)) => {
                    let ghost i = a0@.next;
                    proof {
                        crate::arena::entry_names_page(a0@, i);
                        crate::size_class::lemma_slots(c);
                        assert(!Self::listed(l0, i)) by {
                            assert forall|d: int, k: int| #[trigger] Self::member(l0, d, k) implies l0[d][k]
                                != i by {
                                assert(Self::member_ok(l0, a0, d, k, 0));
                            }
                        }
                    }
                    self.init_page(arena, new_meta_ptr, page_addr, size_class, owner_id);
                    let ghost a2 = *arena;
                    proof {
                        assert forall|j: int| 0 <= j < PAGES_PER_ARENA && j != i implies #[trigger] a2.free@[j]
                            == a0.free@[j] by {
                            assert(a2@.pages[j] == a0@.pages[j]);
                        }
                        assert(a2@.pages[i].free.len() > 0);
                        assert(a2@.pages[i].class == c);
                        assert forall|j: int|
                            #![trigger a2.pages@[j]]
                            0 <= j < PAGES_PER_ARENA && Self::listed(l0, j) implies {
                            &&& a2.pages@[j].next_page == a0.pages@[j].next_page
                            &&& a2.pages@[j].prev_page == a0.pages@[j].prev_page
                            &&& a2.pages@[j].size_class == a0.pages@[j].size_class
                            &&& a2.free@[j].len() > 0
                        } by {
                            let (d, k) = choose|d: int, k: int| #[trigger]
                                Self::member(l0, d, k) && l0[d][k] == j;
                            assert(Self::member_ok(l0, a0, d, k, 0));
                        }
                        self.lemma_kept(a2, a0, 0);
                    }
                    self.push_partial_page(arena, size_class, new_meta_ptr);
                    proof {
                        Self::lemma_only_links(*arena, a2);
                        assert(self@[c] =~= seq![i]);
                        assert(self@ =~= l0.update(c, seq![i]));
                    }
                },
                None => {
                    return 0;
                },
            }
        }
        let ghost a3 = *arena;
        let ghost l3 = self@;
        let r: usize = self.alloc_no_arena(arena, size_class);
        proof {
            let st = SlabState { arena: a0@, lists: l0 };
            assert(st.stocked(c, owner_id as int) == Some(SlabState { arena: a3@, lists: l3 }));
            if l0[c].len() == 0 {
                let i = a0@.next;
                assert forall|j: int|
                    #![trigger arena.pages@[j]]
                    0 <= j < PAGES_PER_ARENA && !Self::listed(l0, j) && !Self::listed(self@, j) implies {
                    &&& arena.pages@[j].next_page == a0.pages@[j].next_page
                    &&& arena.pages@[j].prev_page == a0.pages@[j].prev_page
                } by {
                }
            }
        }
        r
    }

    /// Gives a slot back to its page, whose entry is at `meta_ptr`.
    pub fn free_no_arena(&mut self, arena: &mut Arena, ptr: usize, _page_index: usize, meta_ptr: usize)
        requires
            old(self).wf(*old(arena)),
            old(arena).wf(),
            old(arena)@.used(ptr as int),
            old(arena)@.page_of(ptr as int) < old(arena)@.next,
            meta_ptr == old(arena)@.entry(old(arena)@.page_of(ptr as int)),
        ensures
            final(self).wf(*final(arena)),
            final(arena).wf(),
            (SlabState { arena: final(arena)@, lists: final(self)@ }) == (SlabState {
                arena: old(arena)@,
                lists: old(self)@,
            }).returned(ptr as int),
            final(arena).mem.same_outside(old(arena).mem, ptr as int, ptr + 2),
            Self::other_links_kept(*final(arena), *old(arena), final(self)@, old(self)@),
            Self::other_records_kept(*final(arena), *old(arena), old(arena)@.page_of(ptr as int)),
    {
        let ghost a0 = *arena;
        let ghost lists = self@;
        let ghost i = a0@.page_of(ptr as int);
        let ghost c = a0.pages@[i].size_class as int;
        let ghost f = a0.free@[i];
        let ghost z = SizeClass::size(c);
        let ghost n = SizeClass::slots(c, 4096);
        let ghost s = choose|s: int| #[trigger] a0@.slot_used(i, s) && ptr == a0@.slot(i, s);
        proof {
            assert(a0.page_ok(i));
            crate::arena::entry_names_page(a0@, i);
            crate::size_class::lemma_sizes(c);
            crate::size_class::lemma_slots(c);
            lemma_free_leaves_room(f, n, s);
            lemma_slot_index(a0@, i, s);
            crate::arena::lemma_slot_in_page(a0@.page(i), z, n, s);
        }
        let idx: usize = arena.meta_index(meta_ptr);
        let mut meta = arena.pages[idx];
        let size_class: u8 = meta.size_class;
        let slot_size: usize = class_to_size(size_class);
        let offset: usize = ptr - meta.page_addr;
        let slot_idx: u16 = (offset / slot_size) as u16;
        assert(slot_idx == s);
        let was_full: bool = meta.free_list_head == NULL_SLOT;
        arena.mem.write_u16(ptr, meta.free_list_head);
        meta.free_list_head = slot_idx;
        meta.used_slots = meta.used_slots - 1;
        arena.pages.set(idx, meta);
        let ghost g = seq![s] + f;
        proof {
            arena.free@ = a0.free@.update(i, g);
            assert(was_full == (f.len() == 0)) by {
                if f.len() > 0 {
                    assert(f[0] < n);
                }
            }
            assert forall|j: int| 0 <= j < PAGES_PER_ARENA implies #[trigger] arena.page_ok(j) by {
                assert(a0.page_ok(j));
                if j == i {
                    Self::lemma_chain_grown(arena.mem, a0.mem, a0@.page(i), z, n, f, s);
                } else {
                    Self::lemma_page_elsewhere(*arena, a0, i, j);
                }
            }
            assert(arena@.pages =~= a0@.with_free(i, g).pages);
        }
        if was_full {
            let ghost a1 = *arena;
            proof {
                assert(!Self::listed(lists, i)) by {
                    assert forall|d: int, k: int| #[trigger] Self::member(lists, d, k) implies lists[d][k]
                        != i by {
                        assert(Self::member_ok(lists, a0, d, k, 0));
                    }
                }
                assert(!lists[c].contains(i)) by {
                    if lists[c].contains(i) {
                        let k = lists[c].index_of(i);
                        assert(Self::member(lists, c, k));
                    }
                }
                self.lemma_kept_at(a1, a0);
            }
            self.push_partial_page(arena, size_class, meta_ptr);
            proof {
                Self::lemma_only_links(*arena, a1);
            }
        } else {
            proof {
                self.lemma_kept_at(*arena, a0);
            }
        }
    }

    /// The lists stay in order while links and classes stay as they are and no
    /// page loses its free slots.
    pub proof fn lemma_kept_at(self, new: Arena, old: Arena)
        requires
            self.wf(old),
            new@.base == old@.base,
            new@.next >= old@.next,
            old@.next <= PAGES_PER_ARENA,
            forall|j: int|
                #![trigger new.pages@[j]]
                0 <= j < PAGES_PER_ARENA && Self::listed(self@, j) ==> {
                    &&& new.pages@[j].next_page == old.pages@[j].next_page
                    &&& new.pages@[j].prev_page == old.pages@[j].prev_page
                    &&& new.pages@[j].size_class == old.pages@[j].size_class
                    &&& old.free@[j].len() > 0 ==> new.free@[j].len() > 0
                },
        ensures
            self.wf(new),
    {
        assert forall|j: int|
            #![trigger new.pages@[j]]
            0 <= j < PAGES_PER_ARENA && Self::listed(self@, j) implies new.free@[j].len() > 0 by {
            assert(new.pages@[j].size_class == old.pages@[j].size_class);
            let (d, k) = choose|d: int, k: int| #[trigger]
                Self::member(self@, d, k) && self@[d][k] == j;
            assert(Self::member_ok(self@, old, d, k, 0));
        }
        self.lemma_kept(new, old, 0);
    }

    /// A page in a list is one of the pages handed out, and has free slots of
    /// the class of the list.
    pub proof fn listed_page(self, arena: Arena, i: int)
        requires
            self.wf(arena),
            Self::listed(self@, i),
        ensures
            META_PAGES <= i < arena@.next,
            arena.pages@[i].size_class < NUM_SIZE_CLASSES,
            arena.free@[i].len() > 0,
            self@.len() == NUM_SIZE_CLASSES,
            self@[arena.pages@[i].size_class as int].contains(i),
    {
        let (d, k) = choose|d: int, k: int| #[trigger] Self::member(self@, d, k) && self@[d][k] == i;
        assert(Self::member_ok(self@, arena, d, k, 0));
    }

    /// A slot that is given back leads to the chain of the others.
    proof fn lemma_chain_grown(
        new: crate::memory::Region,
        old: crate::memory::Region,
        page: int,
        z: int,
        n: int,
        f: Seq<int>,
        s: int,
    )
        requires
            Chain::lies(old, page, z, n, f),
            z >= 8,
            n * z <= 4096,
            0 <= s < n,
            !f.contains(s),
            old.has(page, 4096),
            new.half(Chain::slot(page, z, s)) == Chain::head(f),
            new.same_outside(old, Chain::slot(page, z, s), Chain::slot(page, z, s) + 2),
        ensures
            Chain::lies(new, page, z, n, seq![s] + f),
    {
        let g = seq![s] + f;
        assert forall|k: int, x: int|
            #![trigger f[k], new.byte(x)]
            0 <= k < f.len() && Chain::slot(page, z, f[k]) <= x < Chain::slot(page, z, f[k]) + 2 implies new.byte(
        x) == old.byte(x) by {
            assert(f.contains(f[k]));
            if f[k] < s {
                crate::arena::lemma_slots_apart(page, z, f[k], s);
            } else {
                crate::arena::lemma_slots_apart(page, z, s, f[k]);
            }
            crate::arena::lemma_slot_in_page(page, z, n, f[k]);
        }
        crate::arena::lemma_chain_kept(new, old, page, z, n, f);
        assert forall|k: int|
            #![trigger new.half(Chain::slot(page, z, g[k]))]
            0 <= k < g.len() implies new.half(Chain::slot(page, z, g[k])) == Chain::link(g, k) by {
            if k > 0 {
                assert(g[k] == f[k - 1]);
                assert(new.half(Chain::slot(page, z, f[k - 1])) == Chain::link(f, k - 1));
            }
        }
        assert(g.no_duplicates()) by {
            assert forall|x: int, y: int| 0 <= x < g.len() && 0 <= y < g.len() && x != y implies g[x]
                != g[y] by {
                if x > 0 {
                    assert(f.contains(g[x]));
                }
                if y > 0 {
                    assert(f.contains(g[y]));
                }
            }
        }
    }

    /// Gives a slot back to its page. An address that lies in no page of slots
    /// is ignored.
    pub fn free(&mut self, ptr: usize, arena: &mut Arena)
        requires
            old(self).wf(*old(arena)),
            old(arena).wf(),
            ({
                let st = old(arena)@;
                let i = st.page_of(ptr as int);
                i == 0 || st.pages[i].class == 0xFF || (st.used(ptr as int) && i < st.next)
            }),
        ensures
            final(self).wf(*final(arena)),
            final(arena).wf(),
            (SlabState { arena: final(arena)@, lists: final(self)@ }) == (SlabState {
                arena: old(arena)@,
                lists: old(self)@,
            }).freed(ptr as int),
            ({
                let st = old(arena)@;
                let i = st.page_of(ptr as int);
                i == 0 || st.pages[i].class == 0xFF ==> *final(self) == *old(self) && *final(arena)
                    == *old(arena)
            }),
            final(arena).mem.same_outside(old(arena).mem, ptr as int, ptr + 2),
            Self::other_links_kept(*final(arena), *old(arena), final(self)@, old(self)@),
            Self::other_records_kept(*final(arena), *old(arena), old(arena)@.page_of(ptr as int)),
    {
        let page_index: usize = arena.ptr_to_page_index(ptr);
        if page_index == 0 {
            return;
        }
        if arena.pages[page_index].size_class == NO_CLASS {
            return;
        }
        let meta_ptr: usize = arena.meta_ptr(page_index);
        self.free_no_arena(arena, ptr, page_index, meta_ptr);
    }

    /// Nothing but the links between pages has changed.
    pub open spec fn only_links(new: Arena, old: Arena) -> bool {
        &&& new.mem == old.mem
        &&& new.meta == old.meta
        &&& new.free == old.free
        &&& new.pages@.len() == old.pages@.len()
        &&& forall|j: int|
            #![trigger new.pages@[j]]
            0 <= j < PAGES_PER_ARENA ==> new.pages@[j].same_but_links(old.pages@[j])
    }
}

/// A page with a slot in use has fewer free slots than slots.
pub proof fn lemma_free_leaves_room(f: Seq<int>, n: int, s: int)
    requires
        f.no_duplicates(),
        forall|k: int| 0 <= k < f.len() ==> 0 <= #[trigger] f[k] < n,
        0 <= s < n,
        !f.contains(s),
    ensures
        f.len() < n,
{
    let all = vstd::set_lib::set_int_range(0, n);
    vstd::set_lib::lemma_int_range(0, n);
    f.unique_seq_to_set();
    let rest = all.remove(s);
    assert(f.to_set().subset_of(rest)) by {
        assert forall|x: int| f.to_set().contains(x) implies rest.contains(x) by {
            assert(f.contains(x));
            let k = f.index_of(x);
            assert(f[k] == x);
        }
    }
    vstd::set_lib::lemma_len_subset(f.to_set(), rest);
}

/// The address of a slot leads back to its page and index.
pub proof fn lemma_slot_index(st: ArenaState, i: int, s: int)
    requires
        META_PAGES <= i < PAGES_PER_ARENA,
        0 <= st.pages[i].class < NUM_SIZE_CLASSES,
        0 <= s < SizeClass::slots(st.pages[i].class, 4096),
    ensures
        st.page_of(st.slot(i, s)) == i,
        st.index_of(st.slot(i, s)) == s,
{
    let c = st.pages[i].class;
    let z = SizeClass::size(c);
    crate::size_class::lemma_sizes(c);
    crate::size_class::lemma_slots(c);
    crate::arena::lemma_slot_in_page(st.page(i), z, SizeClass::slots(c, 4096), s);
    crate::arena::address_names_page(st, i, st.slot(i, s));
    vstd::arithmetic::div_mod::lemma_div_by_multiple(s, z);
    assert(s * z == z * s) by (nonlinear_arith);
}

/// The records of an arena in good order describe pages in good order.
pub proof fn lemma_slots_wf(arena: Arena)
    requires
        arena.wf(),
    ensures
        arena@.slots_wf(),
{
    let st = arena@;
    assert forall|i: int| #![trigger st.pages[i]] 0 <= i < PAGES_PER_ARENA implies if st.pages[i].class
        == 0xFF {
        st.pages[i].free.len() == 0
    } else {
        &&& i >= META_PAGES
        &&& 0 <= st.pages[i].class < NUM_SIZE_CLASSES
        &&& st.pages[i].free.no_duplicates()
        &&& forall|k: int|
            0 <= k < st.pages[i].free.len() ==> 0 <= #[trigger] st.pages[i].free[k] < SizeClass::slots(
                st.pages[i].class,
                4096,
            )
    } by {
        assert(arena.page_ok(i));
    }
}

impl SlabAllocator {
    /// Lists in good order show lists in good order.
    pub proof fn lemma_state_wf(self, arena: Arena)
        requires
            arena.wf(),
            self.wf(arena),
        ensures
            (SlabState { arena: arena@, lists: self@ }).wf(),
    {
        lemma_slots_wf(arena);
        let lists = self@;
        assert forall|c: int, k: int|
            #![trigger Self::member(lists, c, k)]
            Self::member(lists, c, k) implies {
            let i = lists[c][k];
            &&& META_PAGES <= i < arena@.next
            &&& arena@.pages[i].class == c
            &&& arena@.pages[i].free.len() > 0
        } by {
            assert(Self::member_ok(lists, arena, c, k, 0));
        }
    }
}

} // verus!
