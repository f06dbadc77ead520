//! Arena: a contiguous region of memory obtained from the operating system.
//!
//! An arena is a page-aligned block of 2 MB that hands out whole pages, in
//! order. Its first pages are set aside for what the arena knows of itself
//! and of its pages; the address of a page's entry there names the page.
//!
//! A page that is split into slots keeps the list of its free slots in the
//! slots themselves: each holds the index of the next one.

use vstd::prelude::*;

use crate::memory::Region;
use crate::platform::{os_alloc, DEFAULT_ARENA_SIZE, PAGE_SIZE};
use crate::size_class::{SizeClass, NUM_SIZE_CLASSES};
use crate::slab::{PageMeta, NULL_SLOT};

verus! {

/// Number of pages per arena.
pub const PAGES_PER_ARENA: usize = DEFAULT_ARENA_SIZE / PAGE_SIZE;

/// Number of pages set aside at the start of an arena.
pub const META_PAGES: usize = 5;

/// Offset of the first page that is handed out.
pub const DATA_START_OFFSET: usize = META_PAGES * PAGE_SIZE;

/// Alignment that every allocation has.
pub const MAX_ALIGN: usize = 16;

/// Size of the entry that an arena keeps of itself.
pub const ARENA_META_SIZE: usize = 32;

/// Size of the entry of a page.
pub const PAGE_META_SIZE: usize = 32;

/// Class of a page that is not split into slots.
pub const NO_CLASS: u8 = 0xFF;

/// Source of arena identifiers; the first one is 1.
pub struct ArenaIds {
    pub next: u32,
}

impl ArenaIds {
    pub fn new() -> (r: ArenaIds)
        ensures
            r.next == 1,
    {
        ArenaIds { next: 1 }
    }

    /// A fresh identifier.
    pub fn next_arena_id(&mut self) -> (id: u32)
        ensures
            id == old(self).next,
            final(self).next == (if id == u32::MAX {
                0
            } else {
                id + 1
            }),
    {
        let id: u32 = self.next;
        self.next = id.wrapping_add(1);
        id
    }
}

/// What an arena knows of itself.
pub struct ArenaMeta {
    pub id: u32,
    pub total_size: u32,
    /// Index of the next page to hand out.
    pub next_free_page: u16,
    pub alloc_count: u32,
}

/// What is known of a page: its class and owner, and for a page that is split
/// into slots, the free ones in the order in which they are handed out.
#[verifier::ext_equal]
pub struct PageView {
    pub class: int,
    pub owner: int,
    pub free: Seq<int>,
}

/// An arena, free of its layout in memory.
#[verifier::ext_equal]
pub struct ArenaState {
    pub base: int,
    pub id: int,
    /// Index of the next page to hand out.
    pub next: int,
    /// Number of allocations.
    pub count: int,
    pub pages: Seq<PageView>,
}

impl ArenaState {
    /// Address of page `i`.
    pub open spec fn page(self, i: int) -> int {
        self.base + 4096 * i
    }

    /// Address of the entry of page `i`.
    pub open spec fn entry(self, i: int) -> int {
        self.base + 4096 + 32 * i
    }

    /// The arena holds address `x`.
    pub open spec fn holds(self, x: int) -> bool {
        self.base <= x < self.base + DEFAULT_ARENA_SIZE
    }

    /// The page that `x` lies in; 0 for an address outside the pages that are
    /// handed out.
    pub open spec fn page_of(self, x: int) -> int {
        if self.base + DATA_START_OFFSET <= x < self.base + DEFAULT_ARENA_SIZE {
            (x - self.base) / 4096
        } else {
            0
        }
    }

    /// A new arena.
    pub open spec fn fresh(base: int, id: int) -> ArenaState {
        ArenaState {
            base,
            id,
            next: META_PAGES as int,
            count: 0,
            pages: Seq::new(
                PAGES_PER_ARENA as nat,
                |i: int| PageView { class: 0xFF, owner: 0xFFFF, free: Seq::<int>::empty() },
            ),
        }
    }

    /// The next page has been handed out.
    pub open spec fn page_taken(self) -> ArenaState {
        ArenaState { next: self.next + 1, count: self.count + 1, ..self }
    }

    /// `n` pages in a row have been handed out.
    pub open spec fn pages_taken(self, n: int) -> ArenaState {
        ArenaState {
            next: self.next + n,
            count: self.count + 1,
            pages: Seq::new(
                self.pages.len(),
                |i: int|
                    if self.next <= i < self.next + n {
                        PageView { class: 0xFF, owner: self.pages[i].owner, free: Seq::empty() }
                    } else {
                        self.pages[i]
                    },
            ),
            ..self
        }
    }
}

/// Chains of free slots.
pub struct Chain {}

impl Chain {
    /// Address of slot `s` of a page at `page` with slots of `z` bytes.
    pub open spec fn slot(page: int, z: int, s: int) -> int {
        page + s * z
    }

    /// What the `k`-th member of the chain holds.
    pub open spec fn link(f: Seq<int>, k: int) -> int {
        if k + 1 < f.len() {
            f[k + 1]
        } else {
            NULL_SLOT as int
        }
    }

    /// What leads to the chain.
    pub open spec fn head(f: Seq<int>) -> int {
        if f.len() > 0 {
            f[0]
        } else {
            NULL_SLOT as int
        }
    }

    /// The chain `f` lies in the page at `page`, which has `n` slots of `z`
    /// bytes.
    pub open spec fn lies(mem: Region, page: int, z: int, n: int, f: Seq<int>) -> bool {
        &&& f.no_duplicates()
        &&& forall|k: int| 0 <= k < f.len() ==> 0 <= #[trigger] f[k] < n
        &&& forall|k: int|
            #![trigger mem.half(Self::slot(page, z, f[k]))]
            0 <= k < f.len() ==> mem.half(Self::slot(page, z, f[k])) == Self::link(f, k)
    }
}

/// An arena that hands out pages in order.
pub struct Arena {
    /// The memory.
    pub mem: Region,
    pub meta: ArenaMeta,
    /// What is known of each page.
    pub pages: Vec<PageMeta>,
    /// The free slots of each page.
    pub free: Ghost<Seq<Seq<int>>>,
}

impl View for Arena {
    type V = ArenaState;

    open spec fn view(&self) -> ArenaState {
        ArenaState {
            base: self.mem.base as int,
            id: self.meta.id as int,
            next: self.meta.next_free_page as int,
            count: self.meta.alloc_count as int,
            pages: Seq::new(
                PAGES_PER_ARENA as nat,
                |i: int|
                    PageView {
                        class: self.pages@[i].size_class as int,
                        owner: self.pages@[i].owner_id as int,
                        free: self.free@[i],
                    },
            ),
        }
    }
}

impl Arena {
    /// What is recorded of page `i` agrees with its memory.
    pub open spec fn page_ok(self, i: int) -> bool {
        let m = self.pages@[i];
        let f = self.free@[i];
        let z = SizeClass::size(m.size_class as int);
        let n = SizeClass::slots(m.size_class as int, 4096);
        if m.size_class == NO_CLASS {
            f.len() == 0
        } else {
            &&& i >= META_PAGES
            &&& m.size_class < NUM_SIZE_CLASSES
            &&& m.page_addr == self@.page(i)
            &&& m.free_list_head == Chain::head(f)
            &&& m.used_slots == n - f.len()
            &&& Chain::lies(self.mem, self@.page(i), z, n, f)
        }
    }

    /// The memory is a mapping of the right size.
    pub open spec fn mapped(self) -> bool {
        &&& self.mem.wf()
        &&& self.mem.base % PAGE_SIZE == 0
        &&& self.mem.bytes@.len() == DEFAULT_ARENA_SIZE
    }

    /// An arena in good order.
    pub open spec fn wf(self) -> bool {
        &&& self.mapped()
        &&& self.pages@.len() == PAGES_PER_ARENA
        &&& self.free@.len() == PAGES_PER_ARENA
        &&& self.meta.total_size == DEFAULT_ARENA_SIZE
        &&& META_PAGES <= self.meta.next_free_page <= PAGES_PER_ARENA
        &&& self.meta.alloc_count <= self.meta.next_free_page - META_PAGES
        &&& forall|i: int| 0 <= i < PAGES_PER_ARENA ==> #[trigger] self.page_ok(i)
    }

    /// Creates an arena of the default size, whatever `_size` says. The
    /// operating system is to be asked for that many bytes; `reply` is its
    /// answer. The result is `None` if it gave no such mapping.
    pub fn new(_size: usize, ids: &mut ArenaIds, reply: Option<Region>) -> (r: Option<Arena>)
        ensures
            crate::platform::is_mapping(reply, DEFAULT_ARENA_SIZE as int) ==> {
                &&& r is Some
                &&& r->0.wf()
                &&& r->0.mem == reply->0
                &&& r->0@ == ArenaState::fresh(reply->0.base as int, old(ids).next as int)
                &&& final(ids).next == (if old(ids).next == u32::MAX {
                    0
                } else {
                    old(ids).next + 1
                })
            },
            !crate::platform::is_mapping(reply, DEFAULT_ARENA_SIZE as int) ==> r is None && *final(ids)
                == *old(ids),
    {
        let total_size: usize = DEFAULT_ARENA_SIZE;
        assert(crate::platform::is_align_up(total_size as int, total_size as int, PAGE_SIZE as int));
        let mem = match os_alloc(total_size, reply) {
            Some(mem) => mem,
            None => {
                return None;
            },
        };
        let meta = ArenaMeta {
            id: ids.next_arena_id(),
            total_size: total_size as u32,
            next_free_page: META_PAGES as u16,
            alloc_count: 0,
        };
        let mut pages: Vec<PageMeta> = Vec::new();
        while pages.len() < PAGES_PER_ARENA
            invariant
                pages@.len() <= PAGES_PER_ARENA,
                forall|i: int|
                    0 <= i < pages@.len() ==> (#[trigger] pages@[i]).size_class == NO_CLASS
                        && pages@[i].owner_id == 0xFFFF,
            decreases PAGES_PER_ARENA - pages@.len(),
        {
            pages.push(PageMeta::empty());
        }
        let arena = Arena {
            mem,
            meta,
            pages,
            free: Ghost(Seq::new(PAGES_PER_ARENA as nat, |i: int| Seq::<int>::empty())),
        };
        assert(arena@.pages =~= ArenaState::fresh(arena.mem.base as int, arena.meta.id as int).pages);
        Some(arena)
    }

    /// Hands out the next page: the address of its entry and that of the page
    /// itself. `None` if the arena is full.
    pub fn alloc_page(&mut self) -> (r: Option<(usize, usize)>)
        requires
            old(self).wf(),
        ensures
            final(self).wf(),
            final(self).mem == old(self).mem,
            final(self).pages == old(self).pages,
            old(self)@.next >= PAGES_PER_ARENA ==> r is None && *final(self) == *old(self),
            old(self)@.next < PAGES_PER_ARENA ==> match r {
                Some((entry, page)) => {
                    &&& entry == old(self)@.entry(old(self)@.next)
                    &&& page == old(self)@.page(old(self)@.next)
                    &&& final(self)@ == old(self)@.page_taken()
                },
                None => false,
            },
    {
        let page_idx: usize = self.meta.next_free_page as usize;
        if page_idx >= PAGES_PER_ARENA {
            return None;
        }
        self.meta.next_free_page = self.meta.next_free_page + 1;
        self.meta.alloc_count = self.meta.alloc_count + 1;
        proof {
            assert forall|i: int| 0 <= i < PAGES_PER_ARENA implies #[trigger] self.page_ok(i) by {
                assert(old(self).page_ok(i));
            }
            assert(self@.pages =~= old(self)@.pages);
        }
        let page_meta: usize = self.meta_ptr(page_idx);
        let page_data: usize = self.page_addr(page_idx);
        Some((page_meta, page_data))
    }

    /// Allocates `size` bytes in whole pages, which are aligned to any
    /// `_align` up to the page size; 0 if the arena is full or `size` is 0.
    pub fn allocate(&mut self, size: usize, _align: usize) -> (r: usize)
        requires
            old(self).wf(),
        ensures
            final(self).wf(),
            final(self).mem == old(self).mem,
            ({
                let n = (size + 4095) / 4096;
                if size == 0 || old(self)@.next + n > PAGES_PER_ARENA {
                    r == 0 && *final(self) == *old(self)
                } else {
                    &&& r == old(self)@.page(old(self)@.next)
                    &&& final(self)@ == old(self)@.pages_taken(n)
                    &&& forall|i: int|
                        0 <= i < PAGES_PER_ARENA && !(old(self)@.next <= i < old(self)@.next + n)
                            ==> #[trigger] final(self).pages@[i] == old(self).pages@[i]
                }
            }),
    {
        if size == 0 || size > usize::MAX - (PAGE_SIZE - 1) {
            return 0;
        }
        let pages_needed: usize = (size + (PAGE_SIZE - 1)) / PAGE_SIZE;
        let start_page: usize = self.meta.next_free_page as usize;
        if pages_needed > PAGES_PER_ARENA - start_page {
            return 0;
        }
        let end_page: usize = start_page + pages_needed;
        let ghost st = self@;
        self.meta.next_free_page = end_page as u16;
        self.meta.alloc_count = self.meta.alloc_count + 1;
        let mut i: usize = start_page;
        while i < end_page
            invariant
                start_page <= i <= end_page <= PAGES_PER_ARENA,
                self.mem == old(self).mem,
                self.free == old(self).free,
                self.meta.id == old(self).meta.id,
                self.meta.total_size == old(self).meta.total_size,
                self.meta.next_free_page == end_page,
                self.meta.alloc_count == old(self).meta.alloc_count + 1,
                self.pages@.len() == PAGES_PER_ARENA,
                old(self).pages@.len() == PAGES_PER_ARENA,
                forall|k: int|
                    0 <= k < PAGES_PER_ARENA && !(start_page <= k < i) ==> #[trigger] self.pages@[k]
                        == old(self).pages@[k],
                forall|k: int|
                    start_page <= k < i ==> (#[trigger] self.pages@[k]).size_class == NO_CLASS
                        && self.pages@[k].owner_id == old(self).pages@[k].owner_id,
            decreases end_page - i,
        {
            let mut pm = self.pages[i];
            pm.size_class = NO_CLASS;
            self.pages.set(i, pm);
            i = i + 1;
        }
        proof {
            self.free@ = Seq::new(
                PAGES_PER_ARENA as nat,
                |k: int|
                    if start_page <= k < end_page {
                        Seq::<int>::empty()
                    } else {
                        old(self).free@[k]
                    },
            );
            assert forall|k: int| 0 <= k < PAGES_PER_ARENA implies #[trigger] self.page_ok(k) by {
                assert(old(self).page_ok(k));
            }
            assert(self@.pages =~= st.pages_taken(pages_needed as int).pages);
        }
        self.page_addr(start_page)
    }

    /// Takes back all pages at once. What is recorded of them stays until they
    /// are handed out again.
    pub fn reset(&mut self)
        requires
            old(self).wf(),
        ensures
            final(self).wf(),
            final(self).mem == old(self).mem,
            final(self)@ == (ArenaState { next: META_PAGES as int, count: 0, ..old(self)@ }),
    {
        self.meta.next_free_page = META_PAGES as u16;
        self.meta.alloc_count = 0;
        proof {
            assert forall|i: int| 0 <= i < PAGES_PER_ARENA implies #[trigger] self.page_ok(i) by {
                assert(old(self).page_ok(i));
            }
            assert(self@.pages =~= old(self)@.pages);
        }
    }

    /// The page that an address lies in; 0 for one outside the pages that are
    /// handed out.
    pub fn ptr_to_page_index(&self, ptr: usize) -> (r: usize)
        requires
            self.wf(),
        ensures
            r == self@.page_of(ptr as int),
            r < PAGES_PER_ARENA,
    {
        let base: usize = self.mem.base;
        if ptr < base + DATA_START_OFFSET || ptr >= base + self.meta.total_size as usize {
            return 0;
        }
        (ptr - base) / PAGE_SIZE
    }

    /// Address of the entry of a page.
    pub fn meta_ptr(&self, page_index: usize) -> (r: usize)
        requires
            self.mapped(),
            page_index < PAGES_PER_ARENA,
        ensures
            r == self@.entry(page_index as int),
    {
        self.mem.base + PAGE_SIZE + PAGE_META_SIZE * page_index
    }

    /// The page that an entry belongs to.
    pub fn meta_index(&self, meta_ptr: usize) -> (r: usize)
        requires
            self.mapped(),
            meta_ptr >= self@.entry(0),
        ensures
            r == (meta_ptr - self@.entry(0)) / 32,
    {
        (meta_ptr - (self.mem.base + PAGE_SIZE)) / PAGE_META_SIZE
    }

    /// Address of a page.
    pub fn page_addr(&self, page_index: usize) -> (r: usize)
        requires
            self.mapped(),
            page_index < PAGES_PER_ARENA,
        ensures
            r == self@.page(page_index as int),
    {
        self.mem.base + page_index * PAGE_SIZE
    }

    pub fn bytes_used(&self) -> (r: usize)
        requires
            self.wf(),
        ensures
            r == (self@.next - META_PAGES) * 4096,
    {
        (self.meta.next_free_page as usize - META_PAGES) * PAGE_SIZE
    }

    pub fn bytes_remaining(&self) -> (r: usize)
        requires
            self.wf(),
        ensures
            r == (PAGES_PER_ARENA - self@.next) * 4096,
    {
        (PAGES_PER_ARENA - self.meta.next_free_page as usize) * PAGE_SIZE
    }

    pub fn capacity(&self) -> (r: usize)
        ensures
            r == (PAGES_PER_ARENA - META_PAGES) * 4096,
    {
        (PAGES_PER_ARENA - META_PAGES) * PAGE_SIZE
    }

    /// The arena's identifier.
    pub fn id(&self) -> (r: u32)
        ensures
            r == self@.id,
    {
        self.meta.id
    }

    /// The arena's base address.
    pub fn base_ptr(&self) -> (r: usize)
        ensures
            r == self@.base,
    {
        self.mem.base
    }

    /// Whether an address belongs to this arena.
    pub fn contains(&self, ptr: usize) -> (r: bool)
        requires
            self.wf(),
        ensures
            r == self@.holds(ptr as int),
    {
        ptr >= self.mem.base && ptr < self.mem.base + self.meta.total_size as usize
    }

    /// The number of allocations since the arena was made or reset.
    pub fn alloc_count(&self) -> (r: u32)
        ensures
            r == self@.count,
    {
        self.meta.alloc_count
    }
}

/// What has been handed out and what is left make up the capacity.
pub proof fn used_and_remaining_make_capacity(arena: Arena)
    requires
        arena.wf(),
    ensures
        (arena@.next - META_PAGES) * 4096 + (PAGES_PER_ARENA - arena@.next) * 4096 == (
        PAGES_PER_ARENA - META_PAGES) * 4096,
{
}

/// The entry of a page leads back to the page.
pub proof fn entry_names_page(st: ArenaState, i: int)
    ensures
        (st.entry(i) - st.entry(0)) / 32 == i,
{
}

/// An address within a page leads to that page.
pub proof fn address_names_page(st: ArenaState, i: int, x: int)
    requires
        META_PAGES <= i < PAGES_PER_ARENA,
        st.page(i) <= x < st.page(i) + 4096,
    ensures
        st.page_of(x) == i,
{
}

/// A slot lies in its page.
pub proof fn lemma_slot_in_page(page: int, z: int, n: int, s: int)
    requires
        0 <= s < n,
        z >= 0,
        n * z <= 4096,
    ensures
        page <= Chain::slot(page, z, s),
        Chain::slot(page, z, s) + z <= page + 4096,
{
    assert(0 <= s * z && s * z + z <= n * z) by (nonlinear_arith)
        requires
            0 <= s < n,
            z >= 0,
    ;
}

/// Two slots of a page share no byte.
pub proof fn lemma_slots_apart(page: int, z: int, s: int, t: int)
    requires
        s < t,
        z >= 0,
    ensures
        Chain::slot(page, z, s) + z <= Chain::slot(page, z, t),
{
    assert(s * z + z <= t * z) by (nonlinear_arith)
        requires
            s < t,
            z >= 0,
    ;
}

/// A chain depends on the bytes of its members alone.
pub proof fn lemma_chain_kept(mem: Region, old_mem: Region, page: int, z: int, n: int, f: Seq<int>)
    requires
        Chain::lies(old_mem, page, z, n, f),
        mem.same_place(old_mem),
        mem.has(page, 4096),
        z >= 8,
        n * z <= 4096,
        forall|k: int, x: int|
            #![trigger f[k], mem.byte(x)]
            0 <= k < f.len() && Chain::slot(page, z, f[k]) <= x < Chain::slot(page, z, f[k]) + 2
                ==> mem.byte(x) == old_mem.byte(x),
    ensures
        Chain::lies(mem, page, z, n, f),
{
    assert forall|k: int|
        #![trigger mem.half(Chain::slot(page, z, f[k]))]
        0 <= k < f.len() implies mem.half(Chain::slot(page, z, f[k])) == Chain::link(f, k) by {
        let a = Chain::slot(page, z, f[k]);
        lemma_slot_in_page(page, z, n, f[k]);
        assert(mem.byte(a) == old_mem.byte(a));
        assert(mem.byte(a + 1) == old_mem.byte(a + 1));
        crate::memory::lemma_half_same(mem, old_mem, a);
        assert(old_mem.half(Chain::slot(page, z, f[k])) == Chain::link(f, k));
    }
}

impl PageMeta {
    /// Equal but for the place in a list of pages.
    pub open spec fn same_but_links(self, other: PageMeta) -> bool {
        &&& self.size_class == other.size_class
        &&& self.owner_id == other.owner_id
        &&& self.used_slots == other.used_slots
        &&& self.free_list_head == other.free_list_head
        &&& self.page_addr == other.page_addr
    }
}

impl Arena {
    /// What is recorded of a page stays right while its record and the bytes
    /// of its free slots stay as they are.
    pub proof fn lemma_page_kept(self, old_self: Arena, i: int)
        requires
            old_self.wf(),
            0 <= i < PAGES_PER_ARENA,
            self.mem.same_place(old_self.mem),
            self.pages@[i].same_but_links(old_self.pages@[i]),
            self.free@[i] == old_self.free@[i],
            old_self.pages@[i].size_class != NO_CLASS ==> forall|k: int, x: int|
                #![trigger old_self.free@[i][k], self.mem.byte(x)]
                0 <= k < old_self.free@[i].len() && Chain::slot(
                    old_self@.page(i),
                    SizeClass::size(old_self.pages@[i].size_class as int),
                    old_self.free@[i][k],
                ) <= x < Chain::slot(
                    old_self@.page(i),
                    SizeClass::size(old_self.pages@[i].size_class as int),
                    old_self.free@[i][k],
                ) + 2 ==> self.mem.byte(x) == old_self.mem.byte(x),
        ensures
            self.page_ok(i),
    {
        assert(old_self.page_ok(i));
        let m = old_self.pages@[i];
        if m.size_class != NO_CLASS {
            let c = m.size_class as int;
            crate::size_class::lemma_sizes(c);
            crate::size_class::lemma_slots(c);
            lemma_chain_kept(
                self.mem,
                old_self.mem,
                old_self@.page(i),
                SizeClass::size(c),
                SizeClass::slots(c, 4096),
                old_self.free@[i],
            );
        }
    }
}

/// Pages are handed out in order, each once: the next ones are taken, no class
/// is left on them, and the others stay as they are.
pub proof fn pages_are_handed_out_in_order(st: ArenaState, n: int)
    requires
        0 <= st.next,
        0 <= n,
        st.next + n <= 512,
        st.pages.len() == 512,
    ensures
        ({
            let ns = st.pages_taken(n);
            &&& ns.base == st.base
            &&& ns.id == st.id
            &&& ns.next == st.next + n
            &&& ns.count == st.count + 1
            &&& ns.pages.len() == 512
            &&& forall|i: int|
                st.next <= i < st.next + n ==> (#[trigger] ns.pages[i]).class == 0xFF
                    && ns.pages[i].free.len() == 0
            &&& forall|i: int|
                0 <= i < 512 && !(st.next <= i < st.next + n) ==> #[trigger] ns.pages[i] == st.pages[i]
            &&& ns.page(st.next + n) == st.page(st.next) + n * 4096
        }),
        st.page_taken().base == st.base,
        st.page_taken().id == st.id,
        st.page_taken().next == st.next + 1,
        st.page_taken().count == st.count + 1,
        st.page_taken().pages == st.pages,
{
}

/// A new arena has 507 pages to hand out, behind five for its own use, and
/// none of them is split.
pub proof fn new_arena_has_all_its_pages(base: int, id: int)
    ensures
        ({
            let st = ArenaState::fresh(base, id);
            &&& st.base == base
            &&& st.id == id
            &&& st.next == 5
            &&& st.count == 0
            &&& st.pages.len() == 512
            &&& st.page(5) == base + 0x5000
            &&& st.page(512) == base + 0x20_0000
            &&& forall|i: int|
                0 <= i < 512 ==> (#[trigger] st.pages[i]).class == 0xFF && st.pages[i].free.len() == 0
        }),
{
}

/// The arena holds the addresses of its 512 pages and no others; those behind
/// the first five name their pages.
pub proof fn addresses_lie_in_pages(st: ArenaState, x: int)
    ensures
        st.holds(x) <==> st.base <= x < st.base + 512 * 4096,
        st.base + 5 * 4096 <= x < st.base + 512 * 4096 ==> {
            let i = st.page_of(x);
            5 <= i < 512 && st.page(i) <= x < st.page(i) + 4096 && st.page(i) == st.base + i * 4096
        },
        !(st.base + 5 * 4096 <= x < st.base + 512 * 4096) ==> st.page_of(x) == 0,
{
}

/// Entries are 32 bytes apart and lie between the first page and those that
/// are handed out.
pub proof fn entries_lie_in_front_of_the_pages(st: ArenaState, i: int, j: int)
    requires
        0 <= i < j < 512,
    ensures
        st.page(1) <= st.entry(i),
        st.entry(i) + 32 <= st.entry(j),
        st.entry(j) + 32 <= st.page(5),
        (st.entry(j) - st.entry(i)) == 32 * (j - i),
{
}

} // verus!
