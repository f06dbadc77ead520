//! What holds of slots over several calls.

use vstd::prelude::*;

use crate::arena::{ArenaState, META_PAGES, PAGES_PER_ARENA};
use crate::size_class::{SizeClass, NUM_SIZE_CLASSES};
use crate::slab::{SlabAllocator, SlabState};

verus! {

/// The address of a slot in use leads to its page and index.
pub proof fn lemma_used(st: ArenaState, p: int)
    requires
        st.slots_wf(),
    ensures
        st.used(p) <==> {
            let i = st.page_of(p);
            let s = st.index_of(p);
            &&& META_PAGES <= i < PAGES_PER_ARENA
            &&& st.pages[i].class != 0xFF
            &&& st.slot_used(i, s)
            &&& p == st.slot(i, s)
        },
        st.used(p) ==> {
            let i = st.page_of(p);
            let z = SizeClass::size(st.pages[i].class);
            &&& 0 <= st.pages[i].class < NUM_SIZE_CLASSES
            &&& z >= 8
            &&& st.page(i) <= p
            &&& p + z <= st.page(i) + 4096
        },
{
    let i = st.page_of(p);
    if st.used(p) {
        let s = choose|s: int| #[trigger] st.slot_used(i, s) && p == st.slot(i, s);
        assert(0 <= i < PAGES_PER_ARENA);
        let c = st.pages[i].class;
        crate::slab::lemma_slot_index(st, i, s);
        crate::size_class::lemma_sizes(c);
        crate::size_class::lemma_slots(c);
        crate::arena::lemma_slot_in_page(st.page(i), SizeClass::size(c), SizeClass::slots(c, 4096), s);
    }
}

/// Two slots in use share no byte.
pub proof fn used_slots_are_disjoint(st: ArenaState, p: int, q: int)
    requires
        st.slots_wf(),
        st.used(p),
        st.used(q),
        p != q,
    ensures
        ({
            let y = SizeClass::size(st.pages[st.page_of(p)].class);
            let z = SizeClass::size(st.pages[st.page_of(q)].class);
            p + y <= q || q + z <= p
        }),
{
    lemma_used(st, p);
    lemma_used(st, q);
    let i = st.page_of(p);
    let j = st.page_of(q);
    if i == j {
        let z = SizeClass::size(st.pages[i].class);
        let s = st.index_of(p);
        let t = st.index_of(q);
        if s < t {
            crate::arena::lemma_slots_apart(st.page(i), z, s, t);
        } else if t < s {
            crate::arena::lemma_slots_apart(st.page(i), z, t, s);
        }
    }
}

/// A page that is at hand for a class: nothing that is in use is touched.
pub proof fn lemma_stocked(st: SlabState, class: int, owner: int)
    requires
        st.wf(),
        0 <= class < NUM_SIZE_CLASSES,
        forall|i: int|
            st.arena.next <= i < PAGES_PER_ARENA ==> (#[trigger] st.arena.pages[i]).class == 0xFF,
        st.stocked(class, owner) is Some,
    ensures
        ({
            let sk = st.stocked(class, owner)->0;
            &&& sk.wf()
            &&& sk.lists[class].len() > 0
            &&& forall|p: int| #[trigger] sk.arena.used(p) <==> st.arena.used(p)
            &&& forall|p: int| #[trigger]
                st.arena.used(p) ==> sk.arena.pages[st.arena.page_of(p)] == st.arena.pages[st.arena.page_of(
                    p,
                )]
        }),
{
    let sk = st.stocked(class, owner)->0;
    if st.lists[class].len() == 0 {
        let i = st.arena.next;
        crate::size_class::lemma_slots(class);
        assert(sk.lists[class] =~= seq![i]);
        assert forall|j: int| #![trigger sk.arena.pages[j]] 0 <= j < PAGES_PER_ARENA && j != i implies sk.arena.pages[j]
            == st.arena.pages[j] by {};
        assert(sk.arena.slots_wf());
        assert forall|c: int, k: int| #[trigger] SlabAllocator::member(sk.lists, c, k) implies {
            let i = sk.lists[c][k];
            &&& META_PAGES <= i < sk.arena.next
            &&& sk.arena.pages[i].class == c
            &&& sk.arena.pages[i].free.len() > 0
        } by {
            if c != class {
                assert(SlabAllocator::member(st.lists, c, k));
            }
        }
        assert forall|p: int| #[trigger] sk.arena.used(p) <==> st.arena.used(p) by {
            lemma_used(sk.arena, p);
            lemma_used(st.arena, p);
            let j = st.arena.page_of(p);
            assert(sk.arena.page_of(p) == j);
            if j == i {
                let s = sk.arena.index_of(p);
                if sk.arena.slot_used(i, s) {
                    let f = sk.arena.pages[i].free;
                    assert(f[s] == s);
                    assert(f.contains(s));
                }
            }
        }
        assert forall|p: int| #[trigger] st.arena.used(p) implies sk.arena.pages[st.arena.page_of(p)]
            == st.arena.pages[st.arena.page_of(p)] by {
            lemma_used(st.arena, p);
        }
    }
}

/// The slot that is handed out was not in use and is now; the others in use
/// stay as they are.
pub proof fn served_slot(st: SlabState, class: int)
    requires
        st.wf(),
        0 <= class < NUM_SIZE_CLASSES,
        st.lists[class].len() > 0,
    ensures
        st.served(class).wf(),
        !st.arena.used(st.next_slot(class)),
        st.served(class).arena.pages[st.arena.page_of(st.next_slot(class))].class == class,
        st.arena.page_of(st.next_slot(class)) == st.lists[class][0],
        forall|p: int| #[trigger]
            st.served(class).arena.used(p) <==> st.arena.used(p) || p == st.next_slot(class),
        st.next_slot(class) % 8 == st.arena.base % 8,
        SizeClass::size(class) % 16 == 0 && st.arena.base % 16 == 0 ==> st.next_slot(class) % 16 == 0,
{
    let i = st.lists[class][0];
    assert(SlabAllocator::member(st.lists, class, 0));
    let f = st.arena.pages[i].free;
    let s = f[0];
    let ns = st.served(class);
    let r = st.next_slot(class);
    let g = f.skip(1);
    let z = SizeClass::size(class);
    crate::slab::lemma_slot_index(st.arena, i, s);
    assert(f.contains(s));
    assert forall|j: int| #![trigger ns.arena.pages[j]] 0 <= j < PAGES_PER_ARENA && j != i implies ns.arena.pages[j]
        == st.arena.pages[j] by {};
    assert(g.no_duplicates());
    assert(ns.arena.slots_wf());
    assert forall|c: int, k: int| #[trigger] SlabAllocator::member(ns.lists, c, k) implies {
        let j = ns.lists[c][k];
        &&& META_PAGES <= j < ns.arena.next
        &&& ns.arena.pages[j].class == c
        &&& ns.arena.pages[j].free.len() > 0
    } by {
        if g.len() == 0 && c == class {
            assert(SlabAllocator::member(st.lists, c, k + 1));
            assert(ns.lists[c][k] == st.lists[c][k + 1]);
            assert(st.lists[c][k + 1] != st.lists[c][0]);
        } else {
            assert(SlabAllocator::member(st.lists, c, k));
        }
    }
    lemma_used(st.arena, r);
    assert forall|p: int| #[trigger] ns.arena.used(p) <==> st.arena.used(p) || p == r by {
        lemma_used(ns.arena, p);
        lemma_used(st.arena, p);
        let j = st.arena.page_of(p);
        assert(ns.arena.page_of(p) == j);
        if j == i {
            let t = st.arena.index_of(p);
            if g.contains(t) {
                let k = g.index_of(t);
                assert(f[k + 1] == t);
                assert(f.contains(t));
                assert(t != s);
            }
            if f.contains(t) && t != s {
                let k = f.index_of(t);
                assert(g[k - 1] == t);
            }
        }
    }
    crate::size_class::lemma_sizes(class);
    lemma_multiple(z, s, 8);
    if z % 16 == 0 {
        lemma_multiple(z, s, 16);
    }
}

/// A multiple of a multiple.
proof fn lemma_multiple(z: int, s: int, m: int)
    requires
        z % m == 0,
        m > 0,
    ensures
        (s * z) % m == 0,
{
    let q = z / m;
    vstd::arithmetic::div_mod::lemma_fundamental_div_mod(z, m);
    assert(s * z == m * (s * q)) by (nonlinear_arith)
        requires
            z == m * q,
    ;
    vstd::arithmetic::div_mod::lemma_mod_multiples_basic(s * q, m);
    assert(m * (s * q) == (s * q) * m) by (nonlinear_arith);
}

/// The slot that is given back is no longer in use; the others in use stay as
/// they are.
pub proof fn returned_slot(st: SlabState, p: int)
    requires
        st.wf(),
        st.arena.used(p),
        st.arena.page_of(p) < st.arena.next,
    ensures
        st.returned(p).wf(),
        forall|q: int| #[trigger] st.returned(p).arena.used(q) <==> st.arena.used(q) && q != p,
        forall|j: int| SlabAllocator::listed(st.lists, j) ==> #[trigger] SlabAllocator::listed(
            st.returned(p).lists,
            j,
        ),
        forall|j: int| #[trigger]
            SlabAllocator::listed(st.returned(p).lists, j) ==> SlabAllocator::listed(st.lists, j) || (j
                == st.arena.page_of(p) && st.arena.pages[j].free.len() == 0),
{
    lemma_used(st.arena, p);
    let i = st.arena.page_of(p);
    let c = st.arena.pages[i].class;
    let s = st.arena.index_of(p);
    let f = st.arena.pages[i].free;
    let g = seq![s] + f;
    let ns = st.returned(p);
    assert forall|j: int| #![trigger ns.arena.pages[j]] 0 <= j < PAGES_PER_ARENA && j != i implies ns.arena.pages[j]
        == st.arena.pages[j] by {};
    assert(g.no_duplicates()) by {
        assert forall|x: int, y: int| 0 <= x < g.len() && 0 <= y < g.len() && x != y implies g[x] != g[y] by {
            if x > 0 {
                assert(f.contains(g[x]));
            }
            if y > 0 {
                assert(f.contains(g[y]));
            }
        }
    }
    assert(ns.arena.slots_wf());
    let l = st.lists[c];
    if f.len() == 0 {
        assert(!l.contains(i)) by {
            if l.contains(i) {
                let k = l.index_of(i);
                assert(SlabAllocator::member(st.lists, c, k));
            }
        }
        assert((seq![i] + l).no_duplicates()) by {
            let m = seq![i] + l;
            assert forall|x: int, y: int| 0 <= x < m.len() && 0 <= y < m.len() && x != y implies m[x] != m[y] by {
                if x > 0 {
                    assert(l.contains(m[x]));
                }
                if y > 0 {
                    assert(l.contains(m[y]));
                }
            }
        }
    }
    assert forall|d: int, k: int| #[trigger] SlabAllocator::member(ns.lists, d, k) implies {
        let j = ns.lists[d][k];
        &&& META_PAGES <= j < ns.arena.next
        &&& ns.arena.pages[j].class == d
        &&& ns.arena.pages[j].free.len() > 0
        &&& SlabAllocator::listed(st.lists, j) || (j == i && f.len() == 0)
    } by {
        if f.len() == 0 && d == c {
            if k > 0 {
                assert(SlabAllocator::member(st.lists, d, k - 1));
                assert(ns.lists[d][k] == st.lists[d][k - 1]);
            }
        } else {
            assert(SlabAllocator::member(st.lists, d, k));
        }
    }
    assert forall|j: int| SlabAllocator::listed(st.lists, j) implies #[trigger] SlabAllocator::listed(
        ns.lists,
        j,
    ) by {
        let (d, k) = choose|d: int, k: int| #[trigger]
            SlabAllocator::member(st.lists, d, k) && st.lists[d][k] == j;
        if f.len() == 0 && d == c {
            assert(SlabAllocator::member(ns.lists, d, k + 1));
            assert(ns.lists[d][k + 1] == j);
        } else {
            assert(SlabAllocator::member(ns.lists, d, k));
        }
    }
    assert forall|q: int| #[trigger] ns.arena.used(q) <==> st.arena.used(q) && q != p by {
        lemma_used(ns.arena, q);
        lemma_used(st.arena, q);
        let j = st.arena.page_of(q);
        assert(ns.arena.page_of(q) == j);
        if j == i {
            let t = st.arena.index_of(q);
            if f.contains(t) {
                let k = f.index_of(t);
                assert(g[k + 1] == t);
            }
            assert(g[0] == s);
            if g.contains(t) && t != s {
                let k = g.index_of(t);
                assert(f[k - 1] == t);
            }
        }
    }
}

/// Giving a slot back straight after it was handed out restores the pages and
/// the lists exactly.
pub proof fn free_undoes_alloc(st: SlabState, class: int)
    requires
        st.wf(),
        0 <= class < NUM_SIZE_CLASSES,
        st.lists[class].len() > 0,
    ensures
        st.served(class).returned(st.next_slot(class)) == st,
{
    let i = st.lists[class][0];
    assert(SlabAllocator::member(st.lists, class, 0));
    let f = st.arena.pages[i].free;
    let ns = st.served(class);
    crate::slab::lemma_slot_index(st.arena, i, f[0]);
    let r = st.next_slot(class);
    assert(ns.arena.page_of(r) == i && ns.arena.index_of(r) == f[0]);
    assert(seq![f[0]] + f.skip(1) =~= f);
    assert(ns.returned(r).arena.pages =~= st.arena.pages);
    if f.len() == 1 {
        assert(seq![i] + st.lists[class].skip(1) =~= st.lists[class]);
    }
    assert(ns.returned(r).lists =~= st.lists);
}

/// A slot that is given back to the first page of its list, or to a page that
/// was full, is the next one of its class to be handed out.
pub proof fn freed_slot_is_reused_first(st: SlabState, p: int)
    requires
        st.wf(),
        st.arena.used(p),
        st.arena.page_of(p) < st.arena.next,
        ({
            let i = st.arena.page_of(p);
            let l = st.lists[st.arena.pages[i].class];
            st.arena.pages[i].free.len() == 0 || (l.len() > 0 && l[0] == i)
        }),
    ensures
        st.returned(p).next_slot(st.arena.pages[st.arena.page_of(p)].class) == p,
{
    lemma_used(st.arena, p);
}

/// A page that is split has as many slots as fit, all of them free: no room
/// for another one is left. They are handed out from the front.
pub proof fn split_page_is_all_slots(st: ArenaState, i: int, class: int, owner: int)
    requires
        0 <= i < st.pages.len(),
        0 <= class < NUM_SIZE_CLASSES,
    ensures
        ({
            let page = st.split(i, class, owner).pages[i];
            let z = SizeClass::size(class);
            &&& page.class == class
            &&& page.owner == owner
            &&& page.free.len() * z <= 4096 < (page.free.len() + 1) * z
            &&& forall|s: int| 0 <= s < page.free.len() ==> #[trigger] page.free.contains(s)
            &&& forall|s: int| 0 <= s < page.free.len() ==> #[trigger] page.free[s] == s
        }),
{
    let page = st.split(i, class, owner).pages[i];
    let z = SizeClass::size(class);
    crate::size_class::lemma_sizes(class);
    crate::size_class::lemma_slots(class);
    vstd::arithmetic::div_mod::lemma_fundamental_div_mod(4096, z);
    let n = 4096int / z;
    assert((n + 1) * z == z * n + z) by (nonlinear_arith);
    assert(z * n == n * z) by (nonlinear_arith);
    assert forall|s: int| 0 <= s < page.free.len() implies #[trigger] page.free.contains(s) by {
        assert(page.free[s] == s);
    }
}

/// A new page is taken only if no page of the class has a free slot, and there
/// is one to be had whenever the arena has one left.
pub proof fn pages_are_taken_when_needed(st: SlabState, class: int, owner: int)
    requires
        st.wf(),
        0 <= class < NUM_SIZE_CLASSES,
    ensures
        match st.stocked(class, owner) {
            Some(sk) => {
                &&& sk.lists[class].len() > 0
                &&& st.lists[class].len() > 0 ==> sk == st
                &&& st.lists[class].len() == 0 ==> {
                    let page = sk.arena.pages[st.arena.next];
                    let z = SizeClass::size(class);
                    &&& sk.arena.next == st.arena.next + 1
                    &&& sk.lists[class] == seq![st.arena.next]
                    &&& page.owner == owner
                    &&& page.class == class
                    &&& page.free.len() * z <= 4096 < (page.free.len() + 1) * z
                    &&& forall|i: int|
                        0 <= i < 512 && i != st.arena.next ==> #[trigger] sk.arena.pages[i] == st.arena.pages[i]
                }
            },
            None => st.lists[class].len() == 0 && st.arena.next == 512,
        },
{
    if st.lists[class].len() == 0 && st.arena.next < 512 {
        split_page_is_all_slots(st.arena.page_taken(), st.arena.next, class, owner);
    }
}

/// Whatever page it lies in, a slot that is given back is the first of its
/// page to be handed out again; the other free slots stay behind it.
pub proof fn given_back_slot_is_first_of_its_page(st: SlabState, p: int)
    requires
        st.wf(),
        st.arena.used(p),
        st.arena.page_of(p) < st.arena.next,
    ensures
        ({
            let i = st.arena.page_of(p);
            let n = st.returned(p);
            &&& n.arena.pages[i].free.len() == st.arena.pages[i].free.len() + 1
            &&& n.arena.slot(i, n.arena.pages[i].free[0]) == p
            &&& forall|k: int|
                0 <= k < st.arena.pages[i].free.len() ==> n.arena.pages[i].free[k + 1]
                    == #[trigger] st.arena.pages[i].free[k]
            &&& forall|j: int|
                0 <= j < 512 && j != i ==> #[trigger] n.arena.pages[j] == st.arena.pages[j]
            &&& SlabAllocator::listed(n.lists, i) || st.arena.pages[i].free.len() > 0
        }),
{
    lemma_used(st.arena, p);
    let i = st.arena.page_of(p);
    let n = st.returned(p);
    let c = st.arena.pages[i].class;
    if st.arena.pages[i].free.len() == 0 {
        assert(n.lists[c][0] == i);
        assert(SlabAllocator::member(n.lists, c, 0));
    }
}

/// Every page of the owner that has a free slot is in a list.
pub open spec fn within_reach(st: SlabState, owner: int) -> bool {
    forall|i: int|
        #![trigger st.arena.pages[i]]
        0 <= i < 512 && st.arena.pages[i].class != 0xFF && st.arena.pages[i].owner == owner
            && st.arena.pages[i].free.len() > 0 ==> SlabAllocator::listed(st.lists, i)
}

/// No free slot gets out of reach when one is handed out.
pub proof fn served_keeps_reach(st: SlabState, class: int, owner: int)
    requires
        st.wf(),
        0 <= class < NUM_SIZE_CLASSES,
        st.lists[class].len() > 0,
        within_reach(st, owner),
    ensures
        within_reach(st.served(class), owner),
{
    let n = st.served(class);
    let top = st.lists[class][0];
    assert(SlabAllocator::member(st.lists, class, 0));
    assert forall|i: int|
        #![trigger n.arena.pages[i]]
        0 <= i < 512 && n.arena.pages[i].class != 0xFF && n.arena.pages[i].owner == owner
            && n.arena.pages[i].free.len() > 0 implies SlabAllocator::listed(n.lists, i) by {
        assert(st.arena.pages[i].free.len() > 0);
        assert(SlabAllocator::listed(st.lists, i));
        let (c, k) = choose|c: int, k: int| #[trigger]
            SlabAllocator::member(st.lists, c, k) && st.lists[c][k] == i;
        if n.lists == st.lists {
            assert(SlabAllocator::member(n.lists, c, k));
        } else if c == class {
            assert(i != top);
            assert(k > 0);
            assert(n.lists[c][k - 1] == i);
            assert(SlabAllocator::member(n.lists, c, k - 1));
        } else {
            assert(SlabAllocator::member(n.lists, c, k));
        }
    }
}

/// A slot that is given back comes within reach, and none gets out of it.
pub proof fn returned_keeps_reach(st: SlabState, p: int, owner: int)
    requires
        st.wf(),
        st.arena.used(p),
        st.arena.page_of(p) < st.arena.next,
        within_reach(st, owner),
    ensures
        within_reach(st.returned(p), owner),
{
    lemma_used(st.arena, p);
    let n = st.returned(p);
    let top = st.arena.page_of(p);
    let class = st.arena.pages[top].class;
    assert forall|i: int|
        #![trigger n.arena.pages[i]]
        0 <= i < 512 && n.arena.pages[i].class != 0xFF && n.arena.pages[i].owner == owner
            && n.arena.pages[i].free.len() > 0 implies SlabAllocator::listed(n.lists, i) by {
        if st.arena.pages[i].free.len() > 0 {
            assert(SlabAllocator::listed(st.lists, i));
            let (c, k) = choose|c: int, k: int| #[trigger]
                SlabAllocator::member(st.lists, c, k) && st.lists[c][k] == i;
            if n.lists != st.lists && c == class {
                assert(n.lists[c][k + 1] == i);
                assert(SlabAllocator::member(n.lists, c, k + 1));
            } else {
                assert(SlabAllocator::member(n.lists, c, k));
            }
        } else {
            assert(i == top);
            assert(n.lists[class][0] == i);
            assert(SlabAllocator::member(n.lists, class, 0));
        }
    }
}

/// A new page is within reach at once.
pub proof fn stocked_keeps_reach(st: SlabState, class: int, owner: int)
    requires
        st.wf(),
        0 <= class < NUM_SIZE_CLASSES,
        within_reach(st, owner),
        st.stocked(class, owner) is Some,
    ensures
        within_reach(st.stocked(class, owner)->0, owner),
{
    let n = st.stocked(class, owner)->0;
    assert forall|i: int|
        #![trigger n.arena.pages[i]]
        0 <= i < 512 && n.arena.pages[i].class != 0xFF && n.arena.pages[i].owner == owner
            && n.arena.pages[i].free.len() > 0 implies SlabAllocator::listed(n.lists, i) by {
        if st.lists[class].len() == 0 {
            if i == st.arena.next {
                assert(n.lists[class][0] == i);
                assert(SlabAllocator::member(n.lists, class, 0));
            } else {
                assert(n.arena.pages[i] == st.arena.pages[i]);
                assert(SlabAllocator::listed(st.lists, i));
                let (c, k) = choose|c: int, k: int| #[trigger]
                    SlabAllocator::member(st.lists, c, k) && st.lists[c][k] == i;
                assert(SlabAllocator::member(n.lists, c, k));
            }
        } else {
            assert(SlabAllocator::listed(st.lists, i));
        }
    }
}

/// Slots that are given back one after the other come within reach, and pages
/// that none of them lies in stay as they are.
pub proof fn drained_keeps_reach(st: SlabState, ps: Seq<int>, owner: int)
    requires
        st.wf(),
        ps.no_duplicates(),
        forall|k: int|
            #![trigger ps[k]]
            0 <= k < ps.len() ==> st.arena.used(ps[k]) && st.arena.page_of(ps[k]) < st.arena.next,
    ensures
        within_reach(st, owner) ==> within_reach(st.drained(ps), owner),
        forall|j: int|
            #![trigger st.drained(ps).arena.pages[j]]
            0 <= j < 512 && (forall|k: int|
                #![trigger ps[k]]
                0 <= k < ps.len() ==> st.arena.page_of(ps[k]) != j) ==> st.drained(ps).arena.pages[j]
                == st.arena.pages[j],
    decreases ps.len(),
{
    if ps.len() > 0 {
        let p = ps[0];
        let rest = ps.skip(1);
        lemma_used(st.arena, p);
        returned_slot(st, p);
        let s1 = st.freed(p);
        assert(s1 == st.returned(p));
        assert forall|k: int| #![trigger rest[k]] 0 <= k < rest.len() implies s1.arena.used(rest[k])
            && s1.arena.page_of(rest[k]) < s1.arena.next by {
            assert(rest[k] == ps[k + 1]);
            assert(ps[k + 1] != ps[0]);
        }
        assert(rest.no_duplicates());
        drained_keeps_reach(s1, rest, owner);
        if within_reach(st, owner) {
            returned_keeps_reach(st, p, owner);
        }
        let dn = st.drained(ps);
        assert(dn == s1.drained(rest));
        assert forall|j: int|
            #![trigger dn.arena.pages[j]]
            0 <= j < 512 && (forall|k: int|
                #![trigger ps[k]]
                0 <= k < ps.len() ==> st.arena.page_of(ps[k]) != j) implies dn.arena.pages[j]
            == st.arena.pages[j] by {
            assert forall|k: int| #![trigger rest[k]] 0 <= k < rest.len() implies s1.arena.page_of(rest[k])
                != j by {
                assert(rest[k] == ps[k + 1]);
            }
            assert(st.arena.page_of(ps[0]) != j);
            assert(s1.arena.pages[j] == st.arena.pages[j]);
        }
    }
}

/// Slots that are given back one after the other are no longer in use; the
/// others stay as they are, and no page leaves a list.
pub proof fn drained_slots(st: SlabState, ps: Seq<int>)
    requires
        st.wf(),
        ps.no_duplicates(),
        forall|k: int|
            #![trigger ps[k]]
            0 <= k < ps.len() ==> st.arena.used(ps[k]) && st.arena.page_of(ps[k]) < st.arena.next,
    ensures
        st.drained(ps).wf(),
        st.drained(ps).arena.base == st.arena.base,
        st.drained(ps).arena.id == st.arena.id,
        st.drained(ps).arena.next == st.arena.next,
        st.drained(ps).arena.count == st.arena.count,
        forall|j: int|
            #![trigger st.drained(ps).arena.pages[j]]
            0 <= j < PAGES_PER_ARENA ==> {
                &&& st.drained(ps).arena.pages[j].class == st.arena.pages[j].class
                &&& st.drained(ps).arena.pages[j].owner == st.arena.pages[j].owner
                &&& st.arena.pages[j].free.len() <= st.drained(ps).arena.pages[j].free.len()
            },
        forall|q: int| #[trigger] st.drained(ps).arena.used(q) <==> st.arena.used(q) && !ps.contains(q),
        forall|j: int| SlabAllocator::listed(st.lists, j) ==> #[trigger] SlabAllocator::listed(
            st.drained(ps).lists,
            j,
        ),
        forall|j: int| #[trigger]
            SlabAllocator::listed(st.drained(ps).lists, j) ==> SlabAllocator::listed(st.lists, j)
                || exists|k: int| 0 <= k < ps.len() && #[trigger] st.arena.page_of(ps[k]) == j
                && st.arena.pages[j].free.len() == 0,
    decreases ps.len(),
{
    if ps.len() > 0 {
        let p = ps[0];
        let rest = ps.skip(1);
        lemma_used(st.arena, p);
        returned_slot(st, p);
        let s1 = st.freed(p);
        assert(s1 == st.returned(p));
        assert forall|k: int| #![trigger rest[k]] 0 <= k < rest.len() implies s1.arena.used(rest[k])
            && s1.arena.page_of(rest[k]) < s1.arena.next by {
            assert(rest[k] == ps[k + 1]);
            assert(ps[k + 1] != ps[0]);
        }
        assert(rest.no_duplicates());
        drained_slots(s1, rest);
        assert forall|q: int| ps.contains(q) <==> q == p || #[trigger] rest.contains(q) by {
            if ps.contains(q) && q != p {
                let k = ps.index_of(q);
                assert(rest[k - 1] == q);
            }
            if rest.contains(q) {
                let k = rest.index_of(q);
                assert(ps[k + 1] == q);
            }
        }
        let dn = st.drained(ps);
        assert(dn == s1.drained(rest));
        assert forall|q: int| #[trigger] dn.arena.used(q) <==> st.arena.used(q) && !ps.contains(q) by {
            assert(dn.arena.used(q) <==> s1.arena.used(q) && !rest.contains(q));
        }
        assert forall|j: int| #![trigger dn.arena.pages[j]] 0 <= j < PAGES_PER_ARENA implies {
            &&& dn.arena.pages[j].class == st.arena.pages[j].class
            &&& dn.arena.pages[j].owner == st.arena.pages[j].owner
            &&& st.arena.pages[j].free.len() <= dn.arena.pages[j].free.len()
        } by {
            assert(s1.arena.pages[j].class == st.arena.pages[j].class);
        }
        assert forall|j: int| #[trigger] SlabAllocator::listed(dn.lists, j) implies SlabAllocator::listed(
            st.lists,
            j,
        ) || exists|k: int| 0 <= k < ps.len() && #[trigger] st.arena.page_of(ps[k]) == j
            && st.arena.pages[j].free.len() == 0 by {
            if SlabAllocator::listed(s1.lists, j) {
                if !SlabAllocator::listed(st.lists, j) {
                    assert(st.arena.page_of(ps[0]) == j);
                }
            } else {
                let k = choose|k: int| 0 <= k < rest.len() && #[trigger] s1.arena.page_of(rest[k]) == j
                    && s1.arena.pages[j].free.len() == 0;
                assert(rest[k] == ps[k + 1]);
                assert(st.arena.page_of(ps[k + 1]) == j);
                assert(j != st.arena.page_of(p));
                lemma_used(st.arena, ps[k + 1]);
                assert(s1.arena.pages[j] == st.arena.pages[j]);
            }
        }
    }
}

/// A stack is emptied from the top: what lies at its bottom is given back last.
pub proof fn stacks_are_emptied_from_the_top(st: SlabState, ps: Seq<int>, p: int)
    ensures
        st.drained(ps.push(p)) == st.drained(ps).freed(p),
        st.drained(Seq::empty()) == st,
    decreases ps.len(),
{
    if ps.len() == 0 {
        assert(ps.push(p).skip(1) =~= ps);
        assert(ps.push(p)[0] == p);
        assert(ps =~= Seq::<int>::empty());
        assert(st.freed(p).drained(ps) == st.freed(p));
    } else {
        assert(ps.push(p).skip(1) =~= ps.skip(1).push(p));
        assert(ps.push(p)[0] == ps[0]);
        stacks_are_emptied_from_the_top(st.freed(ps[0]), ps.skip(1), p);
    }
}

/// Giving back an address in no page of slots changes nothing; giving back a
/// slot makes it free.
pub proof fn only_slots_are_given_back(st: SlabState, p: int)
    requires
        st.wf(),
    ensures
        st.arena.page_of(p) == 0 || st.arena.pages[st.arena.page_of(p)].class == 0xFF ==> st.freed(p) == st,
        st.arena.used(p) && st.arena.page_of(p) < st.arena.next ==> !st.freed(p).arena.used(p),
{
    if st.arena.used(p) && st.arena.page_of(p) < st.arena.next {
        lemma_used(st.arena, p);
        returned_slot(st, p);
    }
}

} // verus!
