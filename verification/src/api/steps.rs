//! The steps that the calls are made of keep a heap in good order, and change
//! nothing but the block that they are about.

use vstd::prelude::*;

use crate::api::model::{HeapState, FIRST_PAGE, POOL_PAGES};
use crate::arena::{ArenaState, META_PAGES, PAGES_PER_ARENA};
use crate::size_class::{SizeClass, NUM_SIZE_CLASSES};
use crate::slab::{SlabAllocator, SlabState};
use crate::thread_cache::{CacheState, MAX_THREADS};
use crate::tlsf::model::TlsfState;

verus! {

/// A step of slab allocator `k` that touches no page of another one and leaves
/// the stacks of the others in use.
pub proof fn lemma_slab_step(h: HeapState, k: int, s: SlabState, ps: Seq<int>)
    requires
        h.wf(),
        h.arena is Some,
        0 <= k <= MAX_THREADS,
        h.slabs[k] is Some,
        s.wf(),
        s.arena.base == h.arena->0.base,
        h.arena->0.next <= s.arena.next,
        forall|j: int|
            #![trigger s.arena.pages[j]]
            0 <= j < h.arena->0.next ==> s.arena.pages[j].class == h.arena->0.pages[j].class
                && s.arena.pages[j].owner == h.arena->0.pages[j].owner,
        forall|j: int|
            #![trigger s.arena.pages[j]]
            h.arena->0.next <= j < PAGES_PER_ARENA && s.arena.pages[j].class != 0xFF ==> j < s.arena.next
                && s.arena.pages[j].owner == k && k < MAX_THREADS,
        forall|j: int|
            #![trigger s.arena.pages[j]]
            0 <= j < PAGES_PER_ARENA && h.arena->0.pages[j].free.len() > 0 && !SlabAllocator::listed(
                h.slabs[k]->0.lists,
                j,
            ) ==> s.arena.pages[j].free.len() > 0,
        forall|j: int| #[trigger]
            SlabAllocator::listed(s.lists, j) ==> SlabAllocator::listed(h.slabs[k]->0.lists, j)
                || h.arena->0.pages[j].free.len() == 0,
        HeapState::lists_own(s.arena, s.lists, k),
        forall|m: int, p: int| #[trigger] h.stacked(m, p) && m != k ==> s.arena.used(p),
        ps.no_duplicates(),
        forall|i: int|
            #![trigger ps[i]]
            0 <= i < ps.len() ==> s.arena.used(ps[i]) && s.arena.pages[s.arena.page_of(ps[i])].owner
                == k,
        k == MAX_THREADS ==> ps.len() == 0,
    ensures
        h.with_slab(k, s).with_pending(k, ps).wf(),
{
    let n = h.with_slab(k, s).with_pending(k, ps);
    let a = h.arena->0;
    let b = s.arena;
    assert forall|m: int| #![trigger n.slabs[m]] 0 <= m <= MAX_THREADS && m != k implies n.slabs[m]
        == h.slabs[m] by {};
    assert(n.slabs[k] == Some(CacheState { lists: s.lists, pending: ps }));
    assert(n.arena == Some(b));
    assert forall|i: int| 0 <= i < PAGES_PER_ARENA implies #[trigger] n.page_ok(i) by {
        assert(h.page_ok(i));
        let m = b.pages[i];
    }
    assert forall|m: int|
        #![trigger n.slab_ok(m)]
        0 <= m <= MAX_THREADS && n.slabs[m] is Some implies n.slab_ok(m) by {
        if m != k {
            assert(h.slab_ok(m));
            let l = h.slabs[m]->0.lists;
            assert(h.lists_apart(m, k));
            assert forall|c: int, i: int| #[trigger] SlabAllocator::member(l, c, i) implies {
                let j = l[c][i];
                &&& META_PAGES <= j < b.next
                &&& b.pages[j].class == c
                &&& b.pages[j].free.len() > 0
            } by {
                let j = l[c][i];
                assert(SlabAllocator::listed(l, j));
                assert(b.pages[j].class == a.pages[j].class);
            }
            lemma_own_kept(h, m, b);
            let qs = h.slabs[m]->0.pending;
            assert forall|i: int| #![trigger qs[i]] 0 <= i < qs.len() implies b.used(qs[i])
                && b.pages[b.page_of(qs[i])].owner == m by {
                assert(qs.contains(qs[i]));
                assert(h.stacked(m, qs[i]));
                crate::slab::laws::lemma_used(a, qs[i]);
                let j = a.page_of(qs[i]);
                assert(h.page_ok(j));
                assert(b.pages[j].owner == a.pages[j].owner);
            }
        }
    }
    assert forall|i: int, j: int|
        #![trigger n.lists_apart(i, j)]
        0 <= i <= MAX_THREADS && 0 <= j <= MAX_THREADS && i != j && n.slabs[i] is Some
            && n.slabs[j] is Some implies n.lists_apart(i, j) by {
        assert(h.lists_apart(i, j));
        if i == k {
            lemma_new_page_apart(h, j, k, s.lists);
        } else if j == k {
            lemma_new_page_apart(h, i, k, s.lists);
            assert forall|x: int|
                #![trigger SlabAllocator::listed(n.slabs[i]->0.lists, x)]
                !(SlabAllocator::listed(n.slabs[i]->0.lists, x) && SlabAllocator::listed(
                    n.slabs[j]->0.lists,
                    x,
                )) by {
                if SlabAllocator::listed(s.lists, x) {
                }
            }
        }
    }
    assert forall|p: int| #[trigger] n.runs.sizes.dom().contains(p) implies n.run_ok(p) by {
        assert(h.run_ok(p));
        let i = a.page_of(p);
        let m = h.runs.sizes[p] / 4096;
        assert forall|j: int| #![trigger b.pages[j]] i <= j < i + m implies b.pages[j].class == 0xFF by {
            assert(a.pages[j].class == 0xFF);
        }
    }
    assert(n.pool_wf()) by {
        assert forall|x: int| #[trigger] n.tlsf.has(x) implies n.tlsf.start <= x && x + 16
            + n.tlsf.blocks[x].size <= n.tlsf.end by {
            assert(h.tlsf.has(x));
        }
    }
    assert(n.huge_wf()) by {
        assert forall|p: int| #[trigger] n.huge.dom().contains(p) implies h.huge.dom().contains(p) by {};
    }
}

/// The pages in a thread's lists stay its own while their owners stay.
proof fn lemma_own_kept(h: HeapState, m: int, b: ArenaState)
    requires
        h.wf(),
        h.arena is Some,
        0 <= m <= MAX_THREADS,
        h.slabs[m] is Some,
        forall|j: int|
            #![trigger b.pages[j]]
            0 <= j < h.arena->0.next ==> b.pages[j].owner == h.arena->0.pages[j].owner,
    ensures
        HeapState::lists_own(b, h.slabs[m]->0.lists, m),
{
    assert(h.slab_ok(m));
    let l = h.slabs[m]->0.lists;
    if m < MAX_THREADS {
        assert forall|i: int| #[trigger] SlabAllocator::listed(l, i) implies b.pages[i].owner == m by {
            let (c, k) = choose|c: int, k: int| #[trigger] SlabAllocator::member(l, c, k) && l[c][k] == i;
            assert(h.slab(m).lists == l);
            assert(b.pages[i].owner == h.arena->0.pages[i].owner);
        }
    }
}

/// A page that joins a list of slab allocator `k` is in no list of another.
proof fn lemma_new_page_apart(h: HeapState, m: int, k: int, lists: Seq<Seq<int>>)
    requires
        h.wf(),
        h.arena is Some,
        0 <= k <= MAX_THREADS,
        0 <= m <= MAX_THREADS,
        m != k,
        h.slabs[k] is Some,
        h.slabs[m] is Some,
        forall|j: int| #[trigger]
            SlabAllocator::listed(lists, j) ==> SlabAllocator::listed(h.slabs[k]->0.lists, j)
                || h.arena->0.pages[j].free.len() == 0,
    ensures
        forall|x: int| #[trigger]
            SlabAllocator::listed(lists, x) ==> !SlabAllocator::listed(h.slabs[m]->0.lists, x),
{
    assert(h.lists_apart(m, k));
    assert(h.slab_ok(m));
    let l = h.slabs[m]->0.lists;
    assert forall|x: int| #[trigger] SlabAllocator::listed(lists, x) implies !SlabAllocator::listed(l, x) by {
        if SlabAllocator::listed(l, x) {
            let (c, i) = choose|c: int, i: int| #[trigger] SlabAllocator::member(l, c, i) && l[c][i] == x;
            assert(h.arena->0.pages[x].free.len() > 0);
        }
    }
}

/// A block on a stack is a slot in use, and on one stack only.
pub proof fn lemma_stacked(h: HeapState, k: int, p: int)
    requires
        h.wf(),
        h.arena is Some,
        h.stacked(k, p),
    ensures
        h.arena->0.used(p),
        h.arena->0.pages[h.arena->0.page_of(p)].owner == k,
        h.arena->0.page_of(p) < h.arena->0.next,
        forall|m: int| #[trigger] h.stacked(m, p) ==> m == k,
{
    let a = h.arena->0;
    assert(h.slab_ok(k));
    let ps = h.slabs[k]->0.pending;
    let i = ps.index_of(p);
    assert(ps[i] == p);
    crate::slab::laws::lemma_used(a, p);
    assert(h.page_ok(a.page_of(p)));
    assert forall|m: int| #[trigger] h.stacked(m, p) implies m == k by {
        assert(h.slab_ok(m));
        let qs = h.slabs[m]->0.pending;
        let j = qs.index_of(p);
        assert(qs[j] == p);
    }
}

/// Emptying a stack: no block changes hands.
pub proof fn lemma_drained(h: HeapState, k: int)
    requires
        h.wf(),
        h.arena is Some,
        0 <= k <= MAX_THREADS,
        h.slabs[k] is Some,
    ensures
        h.drained(k).wf(),
        h.drained(k).slabs[k] is Some,
        h.drained(k).arena->0.base == h.arena->0.base,
        forall|p: int| #[trigger] h.drained(k).block(p) == h.block(p),
        forall|m: int| #![trigger h.drained(k).slabs[m]] 0 <= m <= MAX_THREADS ==> (h.drained(k).slabs[m] is Some
            <==> h.slabs[m] is Some),
{
    let a = h.arena->0;
    let st = h.slab(k);
    let ps = h.slabs[k]->0.pending;
    assert(h.slab_ok(k));
    assert forall|i: int| #![trigger ps[i]] 0 <= i < ps.len() implies a.used(ps[i]) && a.page_of(ps[i])
        < a.next by {
        assert(ps.contains(ps[i]));
        assert(h.stacked(k, ps[i]));
        lemma_stacked(h, k, ps[i]);
    }
    crate::slab::laws::drained_slots(st, ps);
    let s = st.drained(ps);
    let n = h.drained(k);
    assert forall|m: int, p: int| #[trigger] h.stacked(m, p) && m != k implies s.arena.used(p) by {
        lemma_stacked(h, m, p);
        if ps.contains(p) {
            assert(h.stacked(k, p));
        }
    }
    assert forall|j: int|
        #![trigger s.arena.pages[j]]
        a.next <= j < PAGES_PER_ARENA && s.arena.pages[j].class != 0xFF implies j < s.arena.next
        && s.arena.pages[j].owner == k && k < MAX_THREADS by {
        assert(h.page_ok(j));
    }
    if k < MAX_THREADS {
        assert forall|j: int| #[trigger] SlabAllocator::listed(s.lists, j) implies s.arena.pages[j].owner
            == k by {
            assert(s.arena.pages[j].owner == a.pages[j].owner) by {
                let (c, i) = choose|c: int, i: int| #[trigger]
                    SlabAllocator::member(s.lists, c, i) && s.lists[c][i] == j;
            }
            if !SlabAllocator::listed(st.lists, j) {
                let i = choose|i: int| 0 <= i < ps.len() && #[trigger] a.page_of(ps[i]) == j;
                assert(ps.contains(ps[i]));
            }
        }
    }
    lemma_slab_step(h, k, s, Seq::empty());
    assert forall|p: int| #[trigger] n.block(p) == h.block(p) by {
        assert(n.arena->0.page_of(p) == a.page_of(p));
        assert(n.pending(p) <==> h.pending(p) && !ps.contains(p)) by {
            if h.pending(p) && !ps.contains(p) {
                let m = choose|m: int| #[trigger] h.stacked(m, p);
                assert(n.stacked(m, p));
            }
            if n.pending(p) {
                let m = choose|m: int| #[trigger] n.stacked(m, p);
                assert(h.stacked(m, p));
                lemma_stacked(h, m, p);
                if ps.contains(p) {
                    assert(h.stacked(k, p));
                }
            }
        }
        if ps.contains(p) {
            assert(h.stacked(k, p));
        }
        let i = a.page_of(p);
        assert(0 <= i < PAGES_PER_ARENA);
        assert(s.arena.pages[i].class == a.pages[i].class);
    }
}

/// A slot handed out by slab allocator `k`, whose stack is empty: a new block
/// of the class's size, and no other change.
pub proof fn lemma_served(h: HeapState, k: int, class: int)
    requires
        h.wf(),
        h.arena is Some,
        0 <= k < MAX_THREADS,
        h.slabs[k] is Some,
        h.slabs[k]->0.pending.len() == 0,
        0 <= class < NUM_SIZE_CLASSES,
        h.slab(k).stocked(class, k) is Some,
    ensures
        ({
            let sk = h.slab(k).stocked(class, k)->0;
            let r = sk.next_slot(class);
            let n = h.with_slab(k, sk.served(class));
            &&& n.wf()
            &&& r > 0
            &&& h.block(r) is None
            &&& !h.arena->0.used(r)
            &&& n.block(r) == Some(SizeClass::size(class))
            &&& n.arena->0.used(r)
            &&& n.class_at(r) == class
            &&& forall|p: int| p != r ==> #[trigger] n.block(p) == h.block(p)
            &&& forall|j: int|
                #![trigger n.arena->0.pages[j]]
                0 <= j < h.arena->0.next ==> n.arena->0.pages[j].class == h.arena->0.pages[j].class
            &&& SizeClass::size(class) % 16 == 0 ==> r % 16 == 0
            &&& forall|m: int| #![trigger n.slabs[m]] 0 <= m <= MAX_THREADS ==> (n.slabs[m] is Some
                <==> h.slabs[m] is Some)
        }),
{
    let a = h.arena->0;
    let st = h.slab(k);
    assert(h.slab_ok(k));
    let sk = st.stocked(class, k)->0;
    let s = sk.served(class);
    let r = sk.next_slot(class);
    let n = h.with_slab(k, s);
    assert forall|i: int| a.next <= i < PAGES_PER_ARENA implies (#[trigger] a.pages[i]).class == 0xFF by {
        assert(h.page_ok(i));
    }
    crate::slab::laws::lemma_stocked(st, class, k);
    crate::slab::laws::served_slot(sk, class);
    let i0 = sk.lists[class][0];
    assert(SlabAllocator::member(sk.lists, class, 0));
    assert(s.arena.pages[i0].free == sk.arena.pages[i0].free.skip(1));
    assert forall|m: int, p: int| #[trigger] h.stacked(m, p) && m != k implies s.arena.used(p) by {
        lemma_stacked(h, m, p);
    }
    assert forall|j: int| #[trigger] SlabAllocator::listed(s.lists, j) implies SlabAllocator::listed(
        h.slabs[k]->0.lists,
        j,
    ) || a.pages[j].free.len() == 0 by {
        let (c, i) = choose|c: int, i: int| #[trigger]
            SlabAllocator::member(s.lists, c, i) && s.lists[c][i] == j;
        lemma_served_lists(sk, class, c, i);
        if st.lists[class].len() > 0 {
        } else {
            let (d, e) = choose|d: int, e: int| #[trigger]
                SlabAllocator::member(sk.lists, d, e) && sk.lists[d][e] == j;
            if d != class {
                assert(SlabAllocator::member(st.lists, d, e));
            } else {
                assert(j == a.next);
            }
        }
    }
    assert forall|j: int|
        #![trigger s.arena.pages[j]]
        0 <= j < PAGES_PER_ARENA && a.pages[j].free.len() > 0 && !SlabAllocator::listed(
            h.slabs[k]->0.lists,
            j,
        ) implies s.arena.pages[j].free.len() > 0 by {
        if j == i0 {
            if st.lists[class].len() > 0 {
                assert(SlabAllocator::member(st.lists, class, 0));
                assert(SlabAllocator::listed(st.lists, j));
            } else {
                assert(j == a.next);
            }
        }
    }
    let ps = h.slabs[k]->0.pending;
    assert forall|j: int| #[trigger] SlabAllocator::listed(s.lists, j) implies s.arena.pages[j].owner == k by {
        let (c, i) = choose|c: int, i: int| #[trigger]
            SlabAllocator::member(s.lists, c, i) && s.lists[c][i] == j;
        lemma_served_lists(sk, class, c, i);
        assert(s.arena.pages[j].owner == sk.arena.pages[j].owner);
        let (d, e) = choose|d: int, e: int| #[trigger]
            SlabAllocator::member(sk.lists, d, e) && sk.lists[d][e] == j;
        if st.lists[class].len() == 0 && d != class {
            assert(SlabAllocator::member(st.lists, d, e));
            assert(SlabAllocator::listed(st.lists, j));
        }
    }
    lemma_slab_step(h, k, s, ps);
    assert(n.slabs =~= h.with_slab(k, s).with_pending(k, ps).slabs);
    assert(n == h.with_slab(k, s).with_pending(k, ps));
    crate::slab::laws::lemma_used(s.arena, r);
    assert(n.arena->0.used(r));
    let ir = s.arena.page_of(r);
    assert(!h.pending(r)) by {
        if h.pending(r) {
            let m = choose|m: int| #[trigger] h.stacked(m, r);
            lemma_stacked(h, m, r);
        }
    }
    assert forall|p: int| #[trigger] n.pending(p) <==> h.pending(p) by {
        if h.pending(p) {
            let m = choose|m: int| #[trigger] h.stacked(m, p);
            assert(n.stacked(m, p));
        }
        if n.pending(p) {
            let m = choose|m: int| #[trigger] n.stacked(m, p);
            assert(h.stacked(m, p));
        }
    }
    assert(a.page_of(r) == ir);
    assert(h.page_ok(ir) && n.page_ok(ir));
    assert(FIRST_PAGE <= ir < n.arena->0.next);
    assert(h.block(r) is None) by {
        if a.pages[ir].class == 0xFF {
            assert(!h.in_pool(r));
            if h.runs.sizes.dom().contains(r) {
                assert(h.run_ok(r));
                assert(a.pages[ir].class == 0xFF);
                assert(ir < a.next);
                assert(s.arena.pages[ir].class == a.pages[ir].class);
            }
        }
    }
    assert forall|p: int| p != r implies #[trigger] n.block(p) == h.block(p) by {
        assert(n.arena->0.page_of(p) == a.page_of(p));
        let i = a.page_of(p);
        assert(0 <= i < PAGES_PER_ARENA);
        assert(n.arena->0.used(p) <==> a.used(p));
        if h.in_arena(p) && i != 0 && a.pages[i].class != s.arena.pages[i].class {
            assert(i == a.next);
            assert(a.pages[i].class == 0xFF);
            crate::slab::laws::lemma_used(a, p);
            if h.runs.sizes.dom().contains(p) {
                assert(h.run_ok(p));
            }
        }
    }
}

/// A page in a list after a slot was handed out was there before.
proof fn lemma_served_lists(sk: SlabState, class: int, c: int, i: int)
    requires
        0 <= class < NUM_SIZE_CLASSES,
        sk.lists.len() == NUM_SIZE_CLASSES,
        sk.lists[class].len() > 0,
        SlabAllocator::member(sk.served(class).lists, c, i),
    ensures
        SlabAllocator::listed(sk.lists, sk.served(class).lists[c][i]),
{
    let s = sk.served(class);
    if c == class && s.lists[c] != sk.lists[c] {
        assert(s.lists[c][i] == sk.lists[c][i + 1]);
        assert(SlabAllocator::member(sk.lists, c, i + 1));
    } else {
        assert(SlabAllocator::member(sk.lists, c, i));
    }
}

/// A slot given back to its page through slab allocator `k`.
pub proof fn lemma_returned(h: HeapState, k: int, p: int)
    requires
        h.wf(),
        h.arena is Some,
        0 <= k <= MAX_THREADS,
        h.slabs[k] is Some,
        h.in_arena(p),
        h.class_at(p) != 0xFF,
        h.block(p) is Some,
        k < MAX_THREADS ==> h.arena->0.pages[h.arena->0.page_of(p)].owner == k,
    ensures
        h.with_slab(k, h.slab(k).returned(p)).wf(),
        h.with_slab(k, h.slab(k).returned(p)).block(p) is None,
        forall|q: int|
            q != p ==> #[trigger] h.with_slab(k, h.slab(k).returned(p)).block(q) == h.block(q),
{
    let a = h.arena->0;
    let st = h.slab(k);
    assert(h.slab_ok(k));
    let s = st.returned(p);
    let n = h.with_slab(k, s);
    let ps = h.slabs[k]->0.pending;
    crate::slab::laws::lemma_used(a, p);
    assert(h.page_ok(a.page_of(p)));
    crate::slab::laws::returned_slot(st, p);
    assert forall|m: int, q: int| #[trigger] h.stacked(m, q) implies s.arena.used(q) by {
        lemma_stacked(h, m, q);
        assert(h.pending(q));
    }
    assert forall|i: int| #![trigger ps[i]] 0 <= i < ps.len() implies s.arena.used(ps[i])
        && s.arena.pages[s.arena.page_of(ps[i])].owner == k by {
        assert(ps.contains(ps[i]));
        assert(h.stacked(k, ps[i]));
        let j = a.page_of(ps[i]);
        assert(s.arena.pages[j].owner == a.pages[j].owner) by {
            crate::slab::laws::lemma_used(a, ps[i]);
        }
    }
    assert forall|j: int|
        #![trigger s.arena.pages[j]]
        a.next <= j < PAGES_PER_ARENA && s.arena.pages[j].class != 0xFF implies j < s.arena.next
        && s.arena.pages[j].owner == k && k < MAX_THREADS by {
        assert(h.page_ok(j));
    }
    if k < MAX_THREADS {
        assert forall|j: int| #[trigger] SlabAllocator::listed(s.lists, j) implies s.arena.pages[j].owner
            == k by {
            let (c, i) = choose|c: int, i: int| #[trigger]
                SlabAllocator::member(s.lists, c, i) && s.lists[c][i] == j;
            assert(s.arena.pages[j].owner == a.pages[j].owner);
        }
    }
    lemma_slab_step(h, k, s, ps);
    assert(n.slabs =~= h.with_slab(k, s).with_pending(k, ps).slabs);
    assert(n == h.with_slab(k, s).with_pending(k, ps));
    assert forall|q: int| #[trigger] n.pending(q) <==> h.pending(q) by {
        if h.pending(q) {
            let m = choose|m: int| #[trigger] h.stacked(m, q);
            assert(n.stacked(m, q));
        }
        if n.pending(q) {
            let m = choose|m: int| #[trigger] n.stacked(m, q);
            assert(h.stacked(m, q));
        }
    }
    assert forall|q: int| q != p implies #[trigger] n.block(q) == h.block(q) by {
        assert(n.arena->0.page_of(q) == a.page_of(q));
        let i = a.page_of(q);
        assert(0 <= i < PAGES_PER_ARENA);
        assert(s.arena.pages[i].class == a.pages[i].class);
        assert(s.arena.used(q) <==> a.used(q));
    }
    assert(!s.arena.used(p));
}

/// A slot pushed onto the stack of its owner.
pub proof fn lemma_pushed(h: HeapState, p: int)
    requires
        h.wf(),
        h.arena is Some,
        h.in_arena(p),
        h.class_at(p) != 0xFF,
        h.block(p) is Some,
    ensures
        ({
            let k = h.arena->0.pages[h.arena->0.page_of(p)].owner;
            let n = h.with_pending(k, seq![p] + h.slabs[k]->0.pending);
            &&& 0 <= k < MAX_THREADS
            &&& h.slabs[k] is Some
            &&& n.wf()
            &&& n.block(p) is None
            &&& forall|q: int| q != p ==> #[trigger] n.block(q) == h.block(q)
        }),
{
    let a = h.arena->0;
    crate::slab::laws::lemma_used(a, p);
    assert(h.page_ok(a.page_of(p)));
    let k = a.pages[a.page_of(p)].owner;
    let ps = h.slabs[k]->0.pending;
    let qs = seq![p] + ps;
    let n = h.with_pending(k, qs);
    assert(h.slab_ok(k));
    let st = h.slab(k);
    assert forall|m: int, q: int| #[trigger] h.stacked(m, q) implies a.used(q) by {
        lemma_stacked(h, m, q);
    }
    assert(!ps.contains(p)) by {
        if ps.contains(p) {
            assert(h.stacked(k, p));
            assert(h.pending(p));
        }
    }
    assert forall|i: int| #![trigger qs[i]] 0 <= i < qs.len() implies a.used(qs[i])
        && a.pages[a.page_of(qs[i])].owner == k by {
        if i > 0 {
            assert(qs[i] == ps[i - 1]);
        }
    }
    assert forall|x: int, y: int| 0 <= x < qs.len() && 0 <= y < qs.len() && x != y implies qs[x] != qs[y] by {
        if x > 0 {
            assert(ps.contains(qs[x]));
        }
        if y > 0 {
            assert(ps.contains(qs[y]));
        }
    }
    assert forall|j: int|
        #![trigger st.arena.pages[j]]
        a.next <= j < PAGES_PER_ARENA && st.arena.pages[j].class != 0xFF implies j < st.arena.next
        && st.arena.pages[j].owner == k && k < MAX_THREADS by {
        assert(h.page_ok(j));
    }
    lemma_slab_step(h, k, st, qs);
    assert(n.slabs =~= h.with_slab(k, st).with_pending(k, qs).slabs);
    assert(n == h.with_slab(k, st).with_pending(k, qs));
    assert(qs[0] == p);
    assert(n.stacked(k, p));
    assert(n.pending(p));
    assert forall|q: int| q != p implies #[trigger] n.block(q) == h.block(q) by {
        if h.pending(q) {
            let m = choose|m: int| #[trigger] h.stacked(m, q);
            if m == k {
                let i = ps.index_of(q);
                assert(qs[i + 1] == q);
            }
            assert(n.stacked(m, q));
        }
        if n.pending(q) {
            let m = choose|m: int| #[trigger] n.stacked(m, q);
            if m == k {
                let i = qs.index_of(q);
                assert(qs[i] == q);
                assert(ps[i - 1] == q);
            }
            assert(h.stacked(m, q));
        }
    }
}

/// The steps that leave pages and slab allocators alone keep those in order.
proof fn lemma_slabs_kept(h: HeapState, n: HeapState)
    requires
        h.wf(),
        h.arena is Some,
        n.arena is Some,
        n.slabs == h.slabs,
        n.arena->0.base == h.arena->0.base,
        n.arena->0.slots_wf(),
        h.arena->0.next <= n.arena->0.next,
        forall|j: int|
            #![trigger n.arena->0.pages[j]]
            0 <= j < PAGES_PER_ARENA ==> n.arena->0.pages[j] == h.arena->0.pages[j] || (h.arena->0.next
                <= j && n.arena->0.pages[j].class == 0xFF),
    ensures
        n.arena_wf(),
        n.slabs_wf(),
        forall|p: int| #[trigger] n.pending(p) <==> h.pending(p),
        forall|p: int| #[trigger] n.arena->0.used(p) <==> h.arena->0.used(p),
        forall|p: int| #[trigger] n.class_at(p) == h.class_at(p),
{
    let a = h.arena->0;
    let b = n.arena->0;
    assert forall|i: int| 0 <= i < PAGES_PER_ARENA implies #[trigger] n.page_ok(i) by {
        assert(h.page_ok(i));
        let m = b.pages[i];
    }
    assert forall|p: int| #[trigger] n.class_at(p) == h.class_at(p) by {
        let i = a.page_of(p);
        assert(b.page_of(p) == i);
        assert(0 <= i < PAGES_PER_ARENA);
        assert(h.page_ok(i));
        let m = b.pages[i];
    }
    assert forall|p: int| #[trigger] b.used(p) <==> a.used(p) by {
        crate::slab::laws::lemma_used(a, p);
        crate::slab::laws::lemma_used(b, p);
        let i = a.page_of(p);
        assert(b.page_of(p) == i);
        assert(0 <= i < PAGES_PER_ARENA);
        assert(h.page_ok(i));
        let m = b.pages[i];
    }
    assert forall|m: int|
        #![trigger n.slab_ok(m)]
        0 <= m <= MAX_THREADS && n.slabs[m] is Some implies n.slab_ok(m) by {
        assert(h.slab_ok(m));
        let l = h.slabs[m]->0.lists;
        assert forall|c: int, i: int| #[trigger] SlabAllocator::member(l, c, i) implies {
            let j = l[c][i];
            &&& META_PAGES <= j < b.next
            &&& b.pages[j].class == c
            &&& b.pages[j].free.len() > 0
        } by {
            let m = b.pages[l[c][i]];
        }
        lemma_own_kept(h, m, b);
        let qs = h.slabs[m]->0.pending;
        assert forall|i: int| #![trigger qs[i]] 0 <= i < qs.len() implies b.used(qs[i])
            && b.pages[b.page_of(qs[i])].owner == m by {
            crate::slab::laws::lemma_used(a, qs[i]);
            let j = a.page_of(qs[i]);
            assert(h.page_ok(j));
            let m = b.pages[j];
        }
    }
    assert forall|i: int, j: int|
        #![trigger n.lists_apart(i, j)]
        0 <= i <= MAX_THREADS && 0 <= j <= MAX_THREADS && i != j && n.slabs[i] is Some
            && n.slabs[j] is Some implies n.lists_apart(i, j) by {
        assert(h.lists_apart(i, j));
    }
    assert forall|p: int| #[trigger] n.pending(p) <==> h.pending(p) by {
        if h.pending(p) {
            let m = choose|m: int| #[trigger] h.stacked(m, p);
            assert(n.stacked(m, p));
        }
        if n.pending(p) {
            let m = choose|m: int| #[trigger] n.stacked(m, p);
            assert(h.stacked(m, p));
        }
    }
}

/// An address in the pool lies in pages of the arena that are not split.
pub proof fn lemma_pool_page(h: HeapState, p: int)
    requires
        h.wf(),
        h.arena is Some,
        h.in_pool(p),
    ensures
        h.in_arena(p),
        META_PAGES <= h.arena->0.page_of(p) < FIRST_PAGE,
        h.class_at(p) == 0xFF,
{
    assert(h.page_ok(h.arena->0.page_of(p)));
}

/// A block of the pool lies in the pool.
pub proof fn lemma_pool_block(h: HeapState, b: int)
    requires
        h.wf(),
        h.arena is Some,
        h.tlsf.has(b),
        h.tlsf.blocks[b].size > 0,
    ensures
        h.in_pool(b),
        h.in_pool(b + 16),
        b + 16 + h.tlsf.blocks[b].size <= h.tlsf.end,
{
}

/// The pool with other blocks, all of them within it.
proof fn lemma_pool_step(h: HeapState, t: TlsfState)
    requires
        h.wf(),
        h.arena is Some,
        t.wf(),
        t.start == h.tlsf.start,
        t.end == h.tlsf.end,
        forall|b: int| #[trigger] t.has(b) ==> t.start <= b && b + 16 + t.blocks[b].size <= t.end,
    ensures
        (HeapState { tlsf: t, ..h }).wf(),
        forall|p: int|
            !h.in_pool(p) ==> #[trigger] (HeapState { tlsf: t, ..h }).block(p) == h.block(p),
        forall|p: int|
            h.in_pool(p) ==> #[trigger] (HeapState { tlsf: t, ..h }).block(p) == (if t.live(p) {
                Some(t.blocks[p - 16].size)
            } else {
                None
            }),
{
    let n = HeapState { tlsf: t, ..h };
    lemma_slabs_kept(h, n);
    assert forall|p: int| #[trigger] n.runs.sizes.dom().contains(p) implies n.run_ok(p) by {
        assert(h.run_ok(p));
    }
    assert(n.huge_wf()) by {
        assert forall|p: int| #[trigger] n.huge.dom().contains(p) implies h.huge.dom().contains(p) by {};
    }
    assert forall|p: int| !h.in_pool(p) implies #[trigger] n.block(p) == h.block(p) by {
        assert(n.class_at(p) == h.class_at(p));
        assert(n.pending(p) <==> h.pending(p));
    }
    assert forall|p: int| h.in_pool(p) implies #[trigger] n.block(p) == (if t.live(p) {
        Some(t.blocks[p - 16].size)
    } else {
        None
    }) by {
        lemma_pool_page(h, p);
        assert(n.class_at(p) == h.class_at(p));
    }
}

/// A block handed out by the pool: new, large enough, aligned, and no other
/// change.
pub proof fn lemma_pool_alloc(h: HeapState, size: int)
    requires
        h.wf(),
        h.arena is Some,
        size > 0,
        h.tlsf.fit(size) is Some,
    ensures
        ({
            let r = h.tlsf.fit(size)->0 + 16;
            let n = HeapState { tlsf: h.tlsf.allocated(size), ..h };
            &&& n.wf()
            &&& r > 0
            &&& r % 16 == 0
            &&& h.in_pool(r)
            &&& h.block(r) is None
            &&& n.block(r) is Some
            &&& n.block(r)->0 >= size
            &&& forall|p: int| p != r ==> #[trigger] n.block(p) == h.block(p)
        }),
{
    let t = h.tlsf.allocated(size);
    let b = h.tlsf.fit(size)->0;
    crate::tlsf::laws::fit_is_large_enough(h.tlsf, size);
    crate::tlsf::laws::allocated_block(h.tlsf, size);
    let c = h.tlsf.next(b);
    assert(h.tlsf.has(c));
    assert forall|x: int| #[trigger] t.has(x) implies t.start <= x && x + 16 + t.blocks[x].size
        <= t.end by {
        assert(h.tlsf.has(b));
        if x != b && x != c && h.tlsf.has(x) {
            assert(t.blocks[x].size == h.tlsf.blocks[x].size);
        }
        assert(h.tlsf.has(c));
    }
    lemma_pool_step(h, t);
    let n = HeapState { tlsf: t, ..h };
    lemma_pool_block(h, b);
    lemma_pool_page(h, b + 16);
    assert forall|p: int| p != b + 16 implies #[trigger] n.block(p) == h.block(p) by {
        if h.in_pool(p) {
            lemma_pool_page(h, p);
            assert(h.tlsf.live(p) ==> t.live(p));
            assert(t.live(p) ==> h.tlsf.live(p));
        }
    }
}

/// A block given back to the pool.
pub proof fn lemma_pool_free(h: HeapState, p: int)
    requires
        h.wf(),
        h.arena is Some,
        h.in_pool(p),
        h.tlsf.live(p),
    ensures
        ({
            let n = HeapState { tlsf: h.tlsf.freed(p), ..h };
            &&& n.wf()
            &&& n.block(p) is None
            &&& forall|q: int| q != p ==> #[trigger] n.block(q) == h.block(q)
        }),
{
    let t = h.tlsf.freed(p);
    crate::tlsf::laws::freed_block(h.tlsf, p);
    lemma_freed_within(h.tlsf, p);
    lemma_pool_step(h, t);
    let n = HeapState { tlsf: t, ..h };
    assert forall|q: int| q != p implies #[trigger] n.block(q) == h.block(q) by {
        if h.in_pool(q) {
            lemma_pool_page(h, q);
            assert(h.tlsf.live(q) ==> t.live(q));
            assert(t.live(q) ==> h.tlsf.live(q));
        }
    }
}

/// Giving a block back makes no block that reaches beyond those that were
/// there.
proof fn lemma_freed_within(t: TlsfState, p: int)
    requires
        t.wf(),
        t.live(p),
        forall|b: int| #[trigger] t.has(b) ==> t.start <= b && b + 16 + t.blocks[b].size <= t.end,
    ensures
        t.freed(p).start == t.start,
        t.freed(p).end == t.end,
        forall|b: int| #[trigger]
            t.freed(p).has(b) ==> t.start <= b && b + 16 + t.freed(p).blocks[b].size <= t.end,
{
    let a = p - 16;
    let s1 = t.with_free(a, true);
    let s2 = s1.merged_next(a);
    let s3 = s2.merged_prev(a);
    crate::tlsf::model::lemma_released(t, a);
    crate::tlsf::model::lemma_merged_next(s1, a);
    crate::tlsf::model::lemma_merged_prev(s2, a);
    let n = s1.next(a);
    assert(s1.has(n));
    assert(t.has(n));
    assert forall|b: int| #[trigger] s1.has(b) implies t.start <= b && b + 16 + s1.blocks[b].size
        <= t.end by {
        assert(t.has(b));
    }
    if s1.blocks[n].free {
        assert(s1.has(s1.next(n)));
    }
    assert forall|b: int| #[trigger] s2.has(b) implies t.start <= b && b + 16 + s2.blocks[b].size
        <= t.end by {
        assert(s1.has(b));
        assert(s1.has(n));
    }
    if s2.prev_free(a) {
        let q = s2.blocks[a].prev->0;
        assert(s2.has(q));
        assert(s2.next(q) == a);
        assert(s2.has(s2.next(a)));
    }
    assert forall|b: int| #[trigger] s3.has(b) implies t.start <= b && b + 16 + s3.blocks[b].size
        <= t.end by {
        assert(s2.has(b));
        assert(s2.has(a));
    }
    assert forall|b: int| #[trigger] t.freed(p).has(b) implies s3.has(b) && t.freed(p).blocks[b]
        == s3.blocks[b] by {};
}

/// Whole pages handed out: a new block behind all others in the arena.
pub proof fn lemma_run_added(h: HeapState, size: int)
    requires
        h.wf(),
        h.arena is Some,
        size > 0,
        h.arena->0.next + (size + 4095) / 4096 <= PAGES_PER_ARENA,
    ensures
        ({
            let a = h.arena->0;
            let m = (size + 4095) / 4096;
            let r = a.page(a.next);
            let n = HeapState {
                arena: Some(a.pages_taken(m)),
                runs: h.runs.grown(r, m * 4096),
                ..h
            };
            &&& n.wf()
            &&& r > 0
            &&& r % 4096 == 0
            &&& h.block(r) is None
            &&& n.block(r) == Some(m * 4096)
            &&& m * 4096 >= size
            &&& forall|p: int| p != r ==> #[trigger] n.block(p) == h.block(p)
        }),
{
    let a = h.arena->0;
    let m = (size + 4095) / 4096;
    let r = a.page(a.next);
    let b = a.pages_taken(m);
    let n = HeapState { arena: Some(b), runs: h.runs.grown(r, m * 4096), ..h };
    assert(b.slots_wf()) by {
        assert forall|i: int| #![trigger b.pages[i]] 0 <= i < PAGES_PER_ARENA implies b.pages[i] == a.pages[i]
            || (b.pages[i].class == 0xFF && b.pages[i].free.len() == 0) by {};
    }
    lemma_slabs_kept(h, n);
    crate::arena::address_names_page(a, a.next, r);
    assert(h.page_ok(a.next));
    assert(!h.runs.sizes.dom().contains(r)) by {
        if h.runs.sizes.dom().contains(r) {
            assert(h.run_ok(r));
        }
    }
    assert forall|p: int| #[trigger] n.runs.sizes.dom().contains(p) implies n.run_ok(p) by {
        if p == r {
            assert(n.runs.sizes[r] / 4096 == m);
        } else {
            assert(h.runs.sizes.dom().contains(p));
            assert(h.run_ok(p));
            let i = a.page_of(p);
            let k = h.runs.sizes[p] / 4096;
            assert forall|j: int| #![trigger b.pages[j]] i <= j < i + k implies b.pages[j].class == 0xFF by {
                assert(a.pages[j].class == 0xFF);
            }
        }
    }
    assert forall|p: int, q: int|
        #![trigger n.runs.sizes.dom().contains(p), n.runs.sizes.dom().contains(q)]
        n.runs.sizes.dom().contains(p) && n.runs.sizes.dom().contains(q) && p < q implies p + n.runs.sizes[p] <= q by {
        if q == r {
            assert(h.runs.sizes.dom().contains(p));
            assert(h.run_ok(p));
        } else if p == r {
            assert(h.runs.sizes.dom().contains(q));
            assert(h.run_ok(q));
        } else {
            assert(h.runs.sizes.dom().contains(p) && h.runs.sizes.dom().contains(q));
        }
    }
    assert(n.pool_wf()) by {
        assert forall|x: int| #[trigger] n.tlsf.has(x) implies n.tlsf.start <= x && x + 16
            + n.tlsf.blocks[x].size <= n.tlsf.end by {
            assert(h.tlsf.has(x));
        }
    }
    assert(n.huge_wf()) by {
        assert forall|p: int| #[trigger] n.huge.dom().contains(p) implies h.huge.dom().contains(p) by {};
    }
    assert(n.class_at(r) == 0xFF && !n.in_pool(r));
    assert forall|p: int| p != r implies #[trigger] n.block(p) == h.block(p) by {
        assert(n.class_at(p) == h.class_at(p));
        assert(n.pending(p) <==> h.pending(p));
        assert(b.used(p) <==> a.used(p));
    }
}

/// Steps that change which runs of pages are spare, and nothing else.
proof fn lemma_run_step(h: HeapState, n: HeapState, p: int)
    requires
        h.wf(),
        h.arena is Some,
        n == (HeapState { runs: n.runs, ..h }),
        n.runs.sizes == h.runs.sizes,
        n.runs.wf(),
        forall|q: int| q != p ==> #[trigger] n.runs.held(q) == h.runs.held(q),
    ensures
        n.wf(),
        forall|q: int| q != p ==> #[trigger] n.block(q) == h.block(q),
{
    lemma_slabs_kept(h, n);
    assert forall|q: int| #[trigger] n.runs.sizes.dom().contains(q) implies n.run_ok(q) by {
        assert(h.runs.sizes.dom().contains(q));
        assert(h.run_ok(q));
    }
    assert forall|x: int, y: int|
        #![trigger n.runs.sizes.dom().contains(x), n.runs.sizes.dom().contains(y)]
        n.runs.sizes.dom().contains(x) && n.runs.sizes.dom().contains(y) && x < y implies x
        + n.runs.sizes[x] <= y by {
        assert(h.runs.sizes.dom().contains(x) && h.runs.sizes.dom().contains(y));
    }
    assert(n.pool_wf()) by {
        assert forall|x: int| #[trigger] n.tlsf.has(x) implies n.tlsf.start <= x && x + 16
            + n.tlsf.blocks[x].size <= n.tlsf.end by {
            assert(h.tlsf.has(x));
        }
    }
    assert(n.huge_wf()) by {
        assert forall|q: int| #[trigger] n.huge.dom().contains(q) implies h.huge.dom().contains(q) by {};
    }
    assert forall|q: int| q != p implies #[trigger] n.block(q) == h.block(q) by {
        assert(n.class_at(q) == h.class_at(q));
        assert(n.pending(q) <==> h.pending(q));
    }
}

/// Where a run of whole pages lies.
pub proof fn lemma_run_place(h: HeapState, p: int)
    requires
        h.wf(),
        h.arena is Some,
        h.runs.sizes.dom().contains(p),
    ensures
        h.in_arena(p),
        h.class_at(p) == 0xFF,
        !h.in_pool(p),
        p > 0,
        p % 4096 == 0,
        h.run_ok(p),
{
    assert(h.run_ok(p));
    let a = h.arena->0;
    let i = a.page_of(p);
    assert(a.pages[i].class == 0xFF);
}

/// A spare run of pages handed out: a block that nobody held.
pub proof fn lemma_run_taken(h: HeapState, i: int)
    requires
        h.wf(),
        h.arena is Some,
        0 <= i < h.runs.spare.len(),
    ensures
        ({
            let r = h.runs.spare[i];
            let n = HeapState { runs: h.runs.taken(i), ..h };
            &&& n.wf()
            &&& r > 0
            &&& r % 4096 == 0
            &&& h.block(r) is None
            &&& n.block(r) == Some(h.runs.sizes[r])
            &&& forall|p: int| p != r ==> #[trigger] n.block(p) == h.block(p)
        }),
{
    let r = h.runs.spare[i];
    let n = HeapState { runs: h.runs.taken(i), ..h };
    crate::api::runs::lemma_taken(h.runs, i);
    lemma_run_step(h, n, r);
    assert(h.runs.sizes.dom().contains(r));
    lemma_run_place(h, r);
    assert(n.class_at(r) == h.class_at(r));
    assert(h.runs.spare.contains(r));
}

/// A block of whole pages given back.
pub proof fn lemma_run_given_back(h: HeapState, p: int)
    requires
        h.wf(),
        h.arena is Some,
        h.in_arena(p),
        h.class_at(p) == 0xFF,
        !h.in_pool(p),
    ensures
        ({
            let n = HeapState { runs: h.runs.given_back(p), ..h };
            &&& n.wf()
            &&& n.block(p) is None
            &&& forall|q: int| q != p ==> #[trigger] n.block(q) == h.block(q)
        }),
{
    let n = HeapState { runs: h.runs.given_back(p), ..h };
    crate::api::runs::lemma_given_back(h.runs, p);
    lemma_run_step(h, n, p);
    assert(n.class_at(p) == h.class_at(p));
}

/// A huge block gained.
pub proof fn lemma_huge_gained(h: HeapState, base: int, len: int)
    requires
        h.wf(),
        base > 0,
        base % 4096 == 0,
        len >= 0,
        base + 4096 + len <= usize::MAX,
        h.arena is Some ==> base + 4096 + len <= h.arena->0.base || h.arena->0.base
            + crate::platform::DEFAULT_ARENA_SIZE <= base,
        forall|p: int| #[trigger]
            h.huge.dom().contains(p) ==> base + 4096 + len <= p - 4096 || p + h.huge[p] <= base,
    ensures
        ({
            let r = base + 4096;
            let n = HeapState { huge: h.huge.insert(r, len), ..h };
            &&& n.wf()
            &&& h.block(r) is None || h.in_arena(r)
            &&& len > 0 ==> n.block(r) == Some(len)
            &&& !h.in_arena(r) ==> n.block(r) == Some(len)
            &&& len > 0 ==> !h.in_arena(r)
            &&& forall|p: int| p != r ==> #[trigger] n.block(p) == h.block(p)
        }),
{
    let r = base + 4096;
    let n = HeapState { huge: h.huge.insert(r, len), ..h };
    if h.huge.dom().contains(r) {
        assert(false);
    }
    assert forall|p: int| #[trigger] n.huge.dom().contains(p) implies p == r || h.huge.dom().contains(p) by {};
    assert(n.huge_wf()) by {
        assert forall|p: int, q: int|
            #![trigger n.huge.dom().contains(p), n.huge.dom().contains(q)]
            n.huge.dom().contains(p) && n.huge.dom().contains(q) && p < q implies p + n.huge[p] <= q
            - 4096 by {
            if p == r {
                assert(h.huge.dom().contains(q));
            } else if q == r {
                assert(h.huge.dom().contains(p));
            } else {
                assert(h.huge.dom().contains(p) && h.huge.dom().contains(q));
            }
        }
    }
    lemma_huge_step(h, n);
}

/// Steps that change the huge blocks alone.
proof fn lemma_huge_step(h: HeapState, n: HeapState)
    requires
        h.wf(),
        n == (HeapState { huge: n.huge, ..h }),
        n.huge_wf(),
    ensures
        n.wf(),
        forall|p: int|
            h.in_arena(p) || (n.huge.dom().contains(p) <==> h.huge.dom().contains(p)) && (
            h.huge.dom().contains(p) ==> n.huge[p] == h.huge[p]) ==> #[trigger] n.block(p) == h.block(p),
{
    if h.arena is Some {
        lemma_slabs_kept(h, n);
        assert forall|p: int| #[trigger] n.runs.sizes.dom().contains(p) implies n.run_ok(p) by {
            assert(h.run_ok(p));
        }
        assert forall|p: int| h.in_arena(p) implies #[trigger] n.block(p) == h.block(p) by {
            assert(n.class_at(p) == h.class_at(p));
            assert(n.pending(p) <==> h.pending(p));
        }
    }
}

/// A huge block given back.
pub proof fn lemma_huge_lost(h: HeapState, p: int)
    requires
        h.wf(),
        !h.in_arena(p),
    ensures
        ({
            let n = HeapState { huge: h.huge.remove(p), ..h };
            &&& n.wf()
            &&& n.block(p) is None
            &&& forall|q: int| q != p ==> #[trigger] n.block(q) == h.block(q)
        }),
{
    let n = HeapState { huge: h.huge.remove(p), ..h };
    assert forall|q: int| #[trigger] n.huge.dom().contains(q) implies h.huge.dom().contains(q) by {};
    assert(n.huge_wf()) by {
        assert forall|p: int, q: int|
            #![trigger n.huge.dom().contains(p), n.huge.dom().contains(q)]
            n.huge.dom().contains(p) && n.huge.dom().contains(q) && p < q implies p + n.huge[p] <= q
            - 4096 by {
            assert(h.huge.dom().contains(p) && h.huge.dom().contains(q));
        }
    }
    lemma_huge_step(h, n);
}

/// A new cache.
pub proof fn lemma_joined(h: HeapState, handle: int, page: bool)
    requires
        h.wf(),
        h.knows(handle),
    ensures
        ({
            let j = h.joined(handle, page);
            &&& j.heap.wf()
            &&& j.heap.knows(j.handle)
            &&& j.heap.arena == h.arena
            &&& j.heap.tlsf == h.tlsf
            &&& j.heap.huge == h.huge
            &&& 0 <= j.ptr <= MAX_THREADS
            &&& j.ptr != 0 ==> j.heap.slabs[j.ptr - 1] is Some && j.heap.arena is Some
            &&& forall|p: int| #[trigger] j.heap.block(p) == h.block(p)
            &&& forall|p: int| #[trigger] j.heap.pending(p) <==> h.pending(p)
        }),
{
    let j = h.joined(handle, page);
    let n = j.heap;
    if h.arena is Some {
        let a = h.arena->0;
        assert(h.slabs[MAX_THREADS as int] is Some);
        let k = h.next_id;
        if n.slabs != h.slabs {
            assert(n.slabs == h.slabs.update(k, Some(CacheState::empty())));
            assert(h.slabs[k] is None);
        }
        assert forall|m: int| #![trigger n.slabs[m]] 0 <= m <= MAX_THREADS && n.slabs[m] != h.slabs[m] implies m
            == k && n.slabs[m] == Some(CacheState::empty()) && h.slabs[m] is None by {};
        assert forall|p: int| #[trigger] n.pending(p) <==> h.pending(p) by {
            if h.pending(p) {
                let m = choose|m: int| #[trigger] h.stacked(m, p);
                assert(n.slabs[m] == h.slabs[m]);
                assert(n.stacked(m, p));
            }
            if n.pending(p) {
                let m = choose|m: int| #[trigger] n.stacked(m, p);
                assert(n.slabs[m] == h.slabs[m]);
                assert(h.stacked(m, p));
            }
        }
        assert forall|i: int| 0 <= i < PAGES_PER_ARENA implies #[trigger] n.page_ok(i) by {
            assert(h.page_ok(i));
            let m = a.pages[i].owner;
            if a.pages[i].class != 0xFF {
                assert(n.slabs[m] == h.slabs[m]);
            }
        }
        assert forall|m: int|
            #![trigger n.slab_ok(m)]
            0 <= m <= MAX_THREADS && n.slabs[m] is Some implies n.slab_ok(m) by {
            if n.slabs[m] == h.slabs[m] {
                assert(h.slab_ok(m));
            } else {
                let l = n.slabs[m]->0.lists;
                assert forall|c: int, i: int| !#[trigger] SlabAllocator::member(l, c, i) by {};
                assert forall|i: int| !#[trigger] SlabAllocator::listed(l, i) by {};
            }
        }
        assert forall|x: int, y: int|
            #![trigger n.lists_apart(x, y)]
            0 <= x <= MAX_THREADS && 0 <= y <= MAX_THREADS && x != y && n.slabs[x] is Some
                && n.slabs[y] is Some implies n.lists_apart(x, y) by {
            assert forall|i: int| !#[trigger] SlabAllocator::listed(CacheState::empty().lists, i) by {
                assert forall|c: int, i: int| !#[trigger] SlabAllocator::member(
                    CacheState::empty().lists,
                    c,
                    i,
                ) by {};
            }
            if n.slabs[x] == h.slabs[x] && n.slabs[y] == h.slabs[y] {
                assert(h.lists_apart(x, y));
            }
        }
        assert forall|p: int| #[trigger] n.runs.sizes.dom().contains(p) implies n.run_ok(p) by {
            assert(h.run_ok(p));
        }
        assert(n.pool_wf()) by {
            assert forall|x: int| #[trigger] n.tlsf.has(x) implies n.tlsf.start <= x && x + 16
                + n.tlsf.blocks[x].size <= n.tlsf.end by {
                assert(h.tlsf.has(x));
            }
        }
        assert(n.huge_wf()) by {
            assert forall|p: int| #[trigger] n.huge.dom().contains(p) implies h.huge.dom().contains(p) by {};
        }
        assert forall|p: int| #[trigger] n.block(p) == h.block(p) by {
            assert(n.pending(p) <==> h.pending(p));
        }
    }
}

/// What the operating system grants for an arena is new to the heap.
pub open spec fn arena_grant_is_new(h: HeapState, grant: Option<int>) -> bool {
    grant matches Some(base) ==> {
        &&& base > 0
        &&& base % 4096 == 0
        &&& base + crate::platform::DEFAULT_ARENA_SIZE <= usize::MAX
        &&& forall|p: int| #[trigger]
            h.huge.dom().contains(p) ==> p + h.huge[p] <= base || base
                + crate::platform::DEFAULT_ARENA_SIZE <= p - 4096
    }
}

/// The pool of a new arena.
proof fn lemma_new_pool(h: HeapState, base: int)
    requires
        base > 0,
        base % 4096 == 0,
        h.arena is None,
    ensures
        ({
            let n = h.inited(Some(base));
            &&& n.pool_wf()
            &&& forall|p: int| !#[trigger] n.tlsf.live(p)
        }),
{
    let n = h.inited(Some(base));
    let a = ArenaState::fresh(base, h.next_arena).pages_taken(POOL_PAGES as int);
    let pool = a.page(META_PAGES as int);
    let e = TlsfState::empty();
    assert(e.wf());
    assert forall|x: int| !#[trigger] e.covers(x) by {};
    crate::tlsf::model::lemma_pooled(e, pool, POOL_PAGES * 4096);
    let t = e.pooled(pool, POOL_PAGES * 4096);
    assert(n.tlsf == t);
    assert forall|b: int| #[trigger] t.has(b) implies t.start <= b && b + 16 + t.blocks[b].size <= t.end by {};
}

/// The pages of a new arena.
proof fn lemma_new_pages(h: HeapState, base: int)
    requires
        h.wf(),
        h.arena is None,
        arena_grant_is_new(h, Some(base)),
    ensures
        ({
            let n = h.inited(Some(base));
            &&& n.arena_wf()
            &&& n.slabs_wf()
            &&& forall|i: int|
                0 <= i < PAGES_PER_ARENA ==> (#[trigger] n.arena->0.pages[i]).class == 0xFF
        }),
{
    let n = h.inited(Some(base));
    let a = ArenaState::fresh(base, h.next_arena).pages_taken(POOL_PAGES as int);
    assert(n.arena == Some(a));
    assert forall|i: int| 0 <= i < PAGES_PER_ARENA implies (#[trigger] a.pages[i]).class == 0xFF
        && a.pages[i].free.len() == 0 by {};
    assert(a.slots_wf());
    assert forall|i: int| 0 <= i < PAGES_PER_ARENA implies #[trigger] n.page_ok(i) by {
        assert(a.pages[i].class == 0xFF);
    }
    assert forall|m: int|
        #![trigger n.slab_ok(m)]
        0 <= m <= MAX_THREADS && n.slabs[m] is Some implies n.slab_ok(m) by {
        assert(m == MAX_THREADS);
        let l = n.slabs[m]->0.lists;
        assert forall|c: int, i: int| !#[trigger] SlabAllocator::member(l, c, i) by {};
    }
}

/// A new arena with its pool: no block changes hands.
pub proof fn lemma_inited(h: HeapState, grant: Option<int>)
    requires
        h.wf(),
        arena_grant_is_new(h, grant),
    ensures
        h.inited(grant).wf(),
        forall|p: int|
            h.inited(grant).in_arena(p) == h.in_arena(p) || h.block(p) is None ==> #[trigger] h.inited(
                grant,
            ).block(p) == h.block(p),
        forall|r: int| #[trigger] h.inited(grant).same_blocks_but(h, r),
        h.inited(grant).huge == h.huge,
        h.inited(grant).slabs.len() == h.slabs.len(),
        h.arena is Some ==> h.inited(grant) == h,
        forall|k: int| h.knows(k) ==> #[trigger] h.inited(grant).knows(k),
{
    let n = h.inited(grant);
    if h.arena is None && grant is Some {
        lemma_new_pool(h, grant->0);
        lemma_new_pages(h, grant->0);
        assert(n.huge_wf()) by {
            assert forall|p: int| #[trigger] n.huge.dom().contains(p) implies h.huge.dom().contains(p) by {};
        }
        assert forall|p: int| #[trigger] n.in_arena(p) implies n.block(p) is None by {
            let i = n.arena->0.page_of(p);
            assert(0 <= i < PAGES_PER_ARENA);
            assert(n.arena->0.pages[i].class == 0xFF);
        }
        assert forall|p: int| #[trigger]
            h.block(p) is Some && h.block(p)->0 > 0 implies !n.in_arena(p) && n.block(p) == h.block(p) by {
            assert(h.huge.dom().contains(p));
        }
        assert forall|p: int| #[trigger] n.block(p) is Some implies h.block(p) == n.block(p) by {};
    }
}

} // verus!
