//! What holds of a pool over several calls.

use vstd::prelude::*;

use crate::tlsf::bins;
use crate::tlsf::bins::{Bins, BIN_COUNT};
use crate::tlsf::model;
use crate::tlsf::model::TlsfState;

verus! {

/// The block that serves a request is a free one that is large enough.
pub proof fn fit_is_large_enough(st: TlsfState, size: int)
    requires
        st.wf(),
        size > 0,
        st.fit(size) is Some,
    ensures
        ({
            let a = st.fit(size)->0;
            &&& st.has(a)
            &&& st.blocks[a].free
            &&& st.blocks[a].size >= TlsfState::payload_for(size) >= size
        }),
{
    let need = TlsfState::payload_for(size);
    bins::lemma_bin_of(need);
    model::lemma_first_filled_is(st, Bins::at_least(need));
    let j = st.first_filled(Bins::at_least(need))->0;
    assert(st.slot(j, 0));
    let a = st.bins[j][0];
    assert(st.has(a) && st.blocks[a].free);
    model::lemma_has_bin(st, a);
    bins::lemma_at_least(need, st.blocks[a].size);
}

/// A request fails exactly where every free block is too small for the first
/// bin that is searched.
pub proof fn fit_fails_iff_none_fits(st: TlsfState, size: int)
    requires
        st.wf(),
        size > 0,
    ensures
        st.fit(size) is None <==> forall|a: int| #[trigger]
            st.has(a) && st.blocks[a].free ==> Bins::of(st.blocks[a].size) < Bins::at_least(
                TlsfState::payload_for(size),
            ),
{
    let need = TlsfState::payload_for(size);
    let from = Bins::at_least(need);
    bins::lemma_bin_of(need);
    if st.fit(size) is None {
        assert forall|a: int| #[trigger] st.has(a) && st.blocks[a].free implies Bins::of(
            st.blocks[a].size,
        ) < from by {
            model::lemma_has_bin(st, a);
            assert(st.listed(a));
            if Bins::of(st.blocks[a].size) >= from {
                lemma_not_skipped(st, from, Bins::of(st.blocks[a].size));
            }
        }
    } else {
        model::lemma_first_filled_is(st, from);
        let j = st.first_filled(from)->0;
        assert(st.slot(j, 0));
        let a = st.bins[j][0];
        assert(st.has(a) && st.blocks[a].free && Bins::of(st.blocks[a].size) == j);
    }
}

/// A filled bin is not skipped.
proof fn lemma_not_skipped(st: TlsfState, from: int, j: int)
    requires
        0 <= from <= j < BIN_COUNT,
        st.bins[j].len() > 0,
    ensures
        st.first_filled(from) is Some,
    decreases j - from,
{
    if from < j {
        lemma_not_skipped(st, from + 1, j);
    }
}

/// A request that can be served yields a payload that is aligned, large
/// enough, and disjoint from every payload handed out before. The pool stays
/// in good order, and the blocks handed out before stay as they are.
pub proof fn allocated_block(st: TlsfState, size: int)
    requires
        st.wf(),
        size > 0,
        st.fit(size) is Some,
    ensures
        ({
            let p = st.fit(size)->0 + 16;
            let ns = st.allocated(size);
            &&& ns.wf()
            &&& ns.live(p)
            &&& !st.live(p)
            &&& p % 16 == 0
            &&& ns.blocks[p - 16].size >= size
            &&& st.covers(p - 16)
            &&& forall|q: int| #[trigger]
                st.live(q) ==> ns.live(q) && ns.blocks[q - 16].size == st.blocks[q - 16].size && (q
                    + st.blocks[q - 16].size <= p || p + ns.blocks[p - 16].size <= q)
            &&& forall|q: int| #[trigger] ns.live(q) ==> q == p || st.live(q)
        }),
{
    fit_is_large_enough(st, size);
    let a = st.fit(size)->0;
    let need = TlsfState::payload_for(size);
    let u = st.unlist(a);
    let ns = st.allocated(size);
    model::lemma_taken(st, a);
    assert(u.next(a) == st.next(a));
    model::lemma_put_to_use(u, a, need);
    assert(st.covers(a)) by {
        assert(st.has(a) && a <= a < st.next(a));
    }
    assert(st.has(st.next(a)));
    assert forall|q: int| #[trigger] st.live(q) implies ns.live(q) && ns.blocks[q - 16].size
        == st.blocks[q - 16].size && (q + st.blocks[q - 16].size <= a + 16 || a + 16
        + ns.blocks[a].size <= q) by {
        assert(st.has(q - 16) && st.has(a) && st.has(st.next(a)));
    }
    assert forall|q: int| #[trigger] ns.live(q) implies q == a + 16 || st.live(q) by {
        assert(st.has(st.next(a)));
    }
}

/// Giving a block back straight after it was handed out restores the pool
/// exactly, order of the bins included.
pub proof fn free_undoes_alloc(st: TlsfState, size: int)
    requires
        st.wf(),
        size > 0,
        st.fit(size) is Some,
    ensures
        st.allocated(size).freed(st.fit(size)->0 + 16) == st,
{
    fit_is_large_enough(st, size);
    let a = st.fit(size)->0;
    let need = TlsfState::payload_for(size);
    let from = Bins::at_least(need);
    bins::lemma_bin_of(need);
    model::lemma_first_filled_is(st, from);
    let j = st.first_filled(from)->0;
    assert(st.slot(j, 0) && st.bins[j][0] == a);
    let c = st.next(a);
    assert(st.has(c));
    assert(!st.blocks[c].free);
    let u = st.unlist(a);
    assert(st.bins[j].index_of(a) == 0) by {
        let p = st.bins[j].index_of(a);
        assert(st.bins[j][0] == a);
        assert(st.slot(j, p) && st.bins[j][p] == a);
    }
    assert(st.bins[j].remove(0) == st.bins[j].skip(1));
    assert(seq![a] + st.bins[j].remove(0) =~= st.bins[j]);
    let ns = st.allocated(size);
    let fs = ns.with_free(a, true);
    model::lemma_taken(st, a);
    assert(u.blocks[a].prev == st.blocks[a].prev);
    assert(!st.prev_free(a)) by {
        if st.blocks[a].prev is Some {
            assert(st.next(st.blocks[a].prev->0) == a);
        }
    }
    if st.blocks[a].prev is Some {
        let p = st.blocks[a].prev->0;
        assert(st.has(p) && p < a);
    }
    if st.blocks[a].size - need >= 32 {
        let s = a + 16 + need;
        let k = Bins::of(st.blocks[a].size - need - 16);
        model::lemma_split_chain(u, a, need);
        let sp = u.split(a, need);
        model::lemma_has_bin(sp, s);
        assert(sp.blocks[s].size == st.blocks[a].size - need - 16);
        assert(fs.next(a) == s && fs.next(s) == c);
        assert(fs.bins[k] == seq![s] + u.bins[k]);
        assert(fs.bins[k][0] == s);
        assert(fs.bins[k].index_of(s) == 0) by {
            let p = fs.bins[k].index_of(s);
            assert(fs.bins[k].contains(s));
            if p > 0 {
                assert(u.bins[k][p - 1] == s);
                assert(u.slot(k, p - 1));
                assert(u.has(s));
            }
        }
        assert(fs.bins[k].remove(0) =~= u.bins[k]);
        assert(fs.unlist(s).bins =~= u.bins);
        let ms = fs.merged_next(a);
        assert(ms == fs.unlist(s).join(a));
        assert(ms.blocks =~= u.blocks) by {
            assert(ms.blocks[a] == u.blocks[a]);
            assert(ms.blocks[c] == u.blocks[c]);
            assert(!u.has(s));
        }
        assert(ms == u);
    } else {
        assert(fs.blocks =~= u.blocks);
        assert(fs == u);
        assert(fs.next(a) == c);
    }
    assert(u.list(a).bins =~= st.bins) by {
        model::lemma_has_bin(st, a);
    }
    assert(u.list(a) == st);
}

/// Giving a block back takes it, and no other, from the client; the pool
/// stays in good order.
pub proof fn freed_block(st: TlsfState, ptr: int)
    requires
        st.wf(),
        st.live(ptr),
    ensures
        st.freed(ptr).wf(),
        !st.freed(ptr).live(ptr),
        forall|q: int| #[trigger]
            st.live(q) && q != ptr ==> st.freed(ptr).live(q) && st.freed(ptr).blocks[q - 16].size
                == st.blocks[q - 16].size,
        forall|q: int| #[trigger] st.freed(ptr).live(q) ==> st.live(q),
{
    let a = ptr - 16;
    let s1 = st.with_free(a, true);
    let s2 = s1.merged_next(a);
    let s3 = s2.merged_prev(a);
    let b = s2.merged_start(a);
    model::lemma_released(st, a);
    model::lemma_merged_next(s1, a);
    model::lemma_merged_prev(s2, a);
    model::lemma_put_back(s3, b);
    let n = s1.next(a);
    assert(s1.has(n));
    assert(s1.has(s1.next(n)) || !s1.blocks[n].free);
    assert forall|q: int| #[trigger] s1.live(q) <==> st.live(q) && q != ptr by {};
    assert forall|q: int| #[trigger] s2.live(q) <==> s1.live(q) by {};
    assert(s2.has(s2.next(a)));
    assert forall|q: int| #[trigger] s3.live(q) <==> s2.live(q) by {
        if s2.prev_free(a) {
            let p = s2.blocks[a].prev->0;
            assert(s2.next(p) == a);
        }
    }
}

/// Once every block has been given back, each pool is a single free block
/// again.
pub proof fn all_freed_is_one_block(st: TlsfState, a: int)
    requires
        st.wf(),
        st.has(a),
        st.blocks[a].size > 0,
        forall|q: int| !#[trigger] st.live(q),
    ensures
        st.blocks[a].free,
        st.blocks[a].prev is None,
        st.blocks[st.next(a)].size == 0,
{
    assert(!st.live(a + 16));
    let n = st.next(a);
    assert(st.has(n) && !st.blocks[n].free);
    assert(!st.live(n + 16));
    if st.blocks[a].prev is Some {
        let p = st.blocks[a].prev->0;
        assert(st.next(p) == a);
        assert(!st.live(p + 16));
    }
}

/// The only pool that was ever added is one pool.
pub proof fn added_pool_is_one_pool(base: int, size: int)
    requires
        base > 0,
        base % 16 == 0,
        48 <= size < bins::SIZE_LIMIT + 32,
    ensures
        TlsfState::empty().pooled(base, size).wf(),
        TlsfState::empty().pooled(base, size).one_pool(base, size),
{
    let st = TlsfState::empty().pooled(base, size);
    let payload = (size - 32) / 16 * 16;
    let k = Bins::of(payload);
    let last = TlsfState::end_mark(base, size);
    bins::lemma_bin_of(payload);
    bins::lemma_bin_in_range(payload);
    assert(st.bins[k] == seq![base] + Seq::<int>::empty());
    assert(st.bins[k][0] == base);
    assert forall|j: int, i: int| #![trigger st.bins[j][i]] st.slot(j, i) implies j == k && i == 0 by {};
    assert(st.next(base) == last);
    assert forall|a: int| #[trigger] st.has(a) implies a == base || a == last by {};
    assert(st.chain_wf());
}

/// Serving a request keeps one pool one pool. The payload that is handed out
/// lies within the pool.
pub proof fn served_block_lies_in_pool(st: TlsfState, base: int, size: int, n: int)
    requires
        st.wf(),
        st.one_pool(base, size),
        n > 0,
        st.fit(n) is Some,
    ensures
        ({
            let p = st.fit(n)->0 + 16;
            let ns = st.allocated(n);
            &&& ns.wf()
            &&& ns.one_pool(base, size)
            &&& base + 16 <= p
            &&& p + ns.blocks[p - 16].size <= base + size
            &&& ns.blocks[p - 16].size >= n
            &&& p % 16 == 0
        }),
{
    fit_is_large_enough(st, n);
    allocated_block(st, n);
    let a = st.fit(n)->0;
    let ns = st.allocated(n);
    let c = st.next(a);
    let last = TlsfState::end_mark(base, size);
    assert(st.has(c));
    assert forall|x: int| #[trigger] ns.has(x) implies {
        &&& base <= x <= last
        &&& ns.blocks[x].pool == base
        &&& x == base <==> ns.blocks[x].prev is None
        &&& x != last ==> ns.blocks[x].size > 0
    } by {
        assert(st.has(a) && st.has(c));
        if st.has(x) {
            assert(base <= x <= last);
        }
    }
    assert(ns.has(a) && ns.has(last));
}

/// Giving a block back keeps one pool one pool.
pub proof fn one_pool_is_kept(st: TlsfState, base: int, size: int, ptr: int)
    requires
        st.wf(),
        st.one_pool(base, size),
        st.live(ptr),
    ensures
        st.freed(ptr).wf(),
        st.freed(ptr).one_pool(base, size),
{
    freed_block(st, ptr);
    let a = ptr - 16;
    let s1 = st.with_free(a, true);
    let s2 = s1.merged_next(a);
    let s3 = s2.merged_prev(a);
    model::lemma_released(st, a);
    model::lemma_merged_next(s1, a);
    assert(s1.one_pool(base, size)) by {
        assert forall|x: int| #[trigger] s1.has(x) implies st.has(x) by {};
    }
    let n = s1.next(a);
    assert(s1.has(n));
    assert(s2.one_pool(base, size)) by {
        if s1.blocks[n].free {
            lemma_merge_one_pool(s1, base, size, a, n);
        }
    }
    assert(s3.one_pool(base, size)) by {
        if s2.prev_free(a) {
            let p = s2.blocks[a].prev->0;
            assert(s2.has(p) && s2.next(p) == a);
            lemma_merge_one_pool(s2, base, size, p, p);
        }
    }
    assert forall|x: int| #[trigger] st.freed(ptr).has(x) implies s3.has(x) by {};
}

/// Taking a block out of its bin and joining two blocks keeps one pool one
/// pool.
proof fn lemma_merge_one_pool(st: TlsfState, base: int, size: int, a: int, x: int)
    requires
        st.chain_wf(),
        st.one_pool(base, size),
        st.has(a),
        st.blocks[a].size > 0,
        st.blocks[st.next(a)].size > 0,
    ensures
        st.unlist(x).join(a).one_pool(base, size),
{
    let u = st.unlist(x);
    assert forall|y: int| #[trigger] u.has(y) implies st.has(y) by {};
    assert forall|y: int| #[trigger] u.next(y) == st.next(y) by {};
    assert(u.one_pool(base, size));
    assert(u.chain_wf());
    lemma_join_one_pool(u, base, size, a);
}

/// Joining two blocks keeps one pool one pool.
proof fn lemma_join_one_pool(st: TlsfState, base: int, size: int, a: int)
    requires
        st.chain_wf(),
        st.one_pool(base, size),
        st.has(a),
        st.blocks[a].size > 0,
        st.blocks[st.next(a)].size > 0,
    ensures
        st.join(a).one_pool(base, size),
{
    model::lemma_join_chain(st, a);
    let ns = st.join(a);
    let b = st.next(a);
    let c = st.next(b);
    assert(st.has(b) && st.has(c));
    assert forall|x: int| #[trigger] ns.has(x) implies {
        &&& base <= x <= TlsfState::end_mark(base, size)
        &&& ns.blocks[x].pool == base
        &&& x == base <==> ns.blocks[x].prev is None
        &&& x != TlsfState::end_mark(base, size) ==> ns.blocks[x].size > 0
    } by {
        assert(st.has(x));
    }
    assert(ns.has(base) && ns.has(TlsfState::end_mark(base, size)));
}

/// Once every block has been given back, one pool is as it was when it was
/// added.
pub proof fn all_freed_is_as_added(st: TlsfState, base: int, size: int)
    requires
        st.wf(),
        st.one_pool(base, size),
        base > 0,
        base % 16 == 0,
        size < bins::SIZE_LIMIT + 32,
        forall|q: int| !#[trigger] st.live(q),
    ensures
        st == TlsfState::empty().pooled(base, size),
{
    let fresh = TlsfState::empty().pooled(base, size);
    let payload = (size - 32) / 16 * 16;
    let last = TlsfState::end_mark(base, size);
    let k = Bins::of(payload);
    all_freed_is_one_block(st, base);
    let n = st.next(base);
    assert(st.has(n));
    assert(n == last);
    assert forall|x: int| #[trigger] st.has(x) implies x == base || x == last by {
        assert(st.has(base) && st.has(last));
    }
    assert(st.blocks[base] == fresh.blocks[base]);
    assert(st.blocks[last] == fresh.blocks[last]);
    assert forall|x: int| #[trigger] st.blocks.dom().contains(x) <==> fresh.blocks.dom().contains(x) by {
        if st.blocks.dom().contains(x) {
            assert(st.has(x));
        }
    }
    assert(st.blocks =~= fresh.blocks);
    bins::lemma_bin_of(payload);
    bins::lemma_bin_in_range(payload);
    assert(fresh.bins[k] == seq![base] + Seq::<int>::empty());
    assert(st.listed(base));
    assert forall|j: int| 0 <= j < BIN_COUNT implies #[trigger] st.bins[j] =~= fresh.bins[j] by {
        if j == k {
            let i = st.bins[k].index_of(base);
            assert(st.slot(k, i) && st.bins[k][i] == base);
            if st.bins[k].len() > 1 {
                assert(st.slot(k, 0) && st.slot(k, 1));
                assert(st.has(st.bins[k][0]) && st.has(st.bins[k][1]));
            }
        } else if st.bins[j].len() > 0 {
            assert(st.slot(j, 0));
            assert(st.has(st.bins[j][0]));
        }
    }
    assert(st.bins =~= fresh.bins);
}

/// A call on a pool.
pub enum PoolCall {
    /// A request for so many bytes.
    Alloc(int),
    /// The payload at an address given back.
    Free(int),
}

/// The state after one call. A request that cannot be served changes nothing.
pub open spec fn after_call(st: TlsfState, call: PoolCall) -> TlsfState {
    match call {
        PoolCall::Alloc(n) => if n > 0 && st.fit(n) is Some {
            st.allocated(n)
        } else {
            st
        },
        PoolCall::Free(p) => st.freed(p),
    }
}

/// The state after a sequence of calls.
pub open spec fn after_calls(st: TlsfState, calls: Seq<PoolCall>) -> TlsfState
    decreases calls.len(),
{
    if calls.len() == 0 {
        st
    } else {
        after_call(after_calls(st, calls.drop_last()), calls.last())
    }
}

/// What is given back in a sequence of calls has been handed out and not yet
/// been given back.
pub open spec fn calls_ok(st: TlsfState, calls: Seq<PoolCall>) -> bool
    decreases calls.len(),
{
    calls.len() > 0 ==> calls_ok(st, calls.drop_last()) && (calls.last() matches PoolCall::Free(p)
        ==> after_calls(st, calls.drop_last()).live(p))
}

/// Through any calls one pool stays one pool in good order: every block lies
/// within it.
pub proof fn calls_keep_one_pool(base: int, size: int, calls: Seq<PoolCall>)
    requires
        base > 0,
        base % 16 == 0,
        48 <= size < bins::SIZE_LIMIT + 32,
        calls_ok(TlsfState::empty().pooled(base, size), calls),
    ensures
        ({
            let st = after_calls(TlsfState::empty().pooled(base, size), calls);
            &&& st.wf()
            &&& st.one_pool(base, size)
            &&& forall|a: int| #[trigger] st.has(a) ==> base <= a && st.next(a) <= base + size
        }),
    decreases calls.len(),
{
    let fresh = TlsfState::empty().pooled(base, size);
    let st = after_calls(fresh, calls);
    if calls.len() == 0 {
        added_pool_is_one_pool(base, size);
    } else {
        calls_keep_one_pool(base, size, calls.drop_last());
        let prev = after_calls(fresh, calls.drop_last());
        match calls.last() {
            PoolCall::Alloc(n) => {
                if n > 0 && prev.fit(n) is Some {
                    served_block_lies_in_pool(prev, base, size, n);
                }
            },
            PoolCall::Free(p) => {
                one_pool_is_kept(prev, base, size, p);
            },
        }
    }
    let last = TlsfState::end_mark(base, size);
    assert forall|a: int| #[trigger] st.has(a) implies base <= a && st.next(a) <= base + size by {
        assert(st.has(last));
    }
}

/// However blocks were handed out and given back, once all of them have been
/// given back the pool is as it was when it was added: it serves what it served
/// then, from the same addresses.
pub proof fn freeing_everything_restores_the_pool(base: int, size: int, calls: Seq<PoolCall>)
    requires
        base > 0,
        base % 16 == 0,
        48 <= size < bins::SIZE_LIMIT + 32,
        calls_ok(TlsfState::empty().pooled(base, size), calls),
        forall|q: int| !#[trigger] after_calls(TlsfState::empty().pooled(base, size), calls).live(q),
    ensures
        after_calls(TlsfState::empty().pooled(base, size), calls) == TlsfState::empty().pooled(base, size),
        forall|n: int| #[trigger]
            after_calls(TlsfState::empty().pooled(base, size), calls).fit(n)
                == TlsfState::empty().pooled(base, size).fit(n),
{
    calls_keep_one_pool(base, size, calls);
    all_freed_is_as_added(after_calls(TlsfState::empty().pooled(base, size), calls), base, size);
}

/// No filled bin in front of the one that is found.
proof fn lemma_first_of_all(st: TlsfState, from: int, j: int)
    requires
        0 <= from <= j < BIN_COUNT,
        st.bins[j].len() > 0,
    ensures
        st.first_filled(from) is Some,
        from <= st.first_filled(from)->0 <= j,
        st.bins[st.first_filled(from)->0].len() > 0,
    decreases j - from,
{
    if from < j && st.bins[from].len() == 0 {
        lemma_first_of_all(st, from + 1, j);
    }
}

/// A block that is handed out is larger than what was asked for by less than 32
/// bytes. The rest of the block that it was cut from stays free behind it, and
/// the others are as they were.
pub proof fn little_is_handed_out_in_excess(st: TlsfState, size: int)
    requires
        st.wf(),
        size > 0,
        st.fit(size) is Some,
    ensures
        ({
            let a = st.fit(size)->0;
            let ns = st.allocated(size);
            let n = ns.blocks[a].size;
            &&& n >= size
            &&& n >= 16
            &&& n % 16 == 0
            &&& n < size + 32
            &&& n < st.blocks[a].size ==> {
                let b = a + 16 + n;
                &&& ns.has(b)
                &&& ns.blocks[b].free
                &&& b + 16 + ns.blocks[b].size == a + 16 + st.blocks[a].size
            }
            &&& forall|x: int| #[trigger]
                st.has(x) && x != a ==> ns.has(x) && ns.blocks[x].size == st.blocks[x].size
                    && ns.blocks[x].free == st.blocks[x].free
        }),
{
    fit_is_large_enough(st, size);
    allocated_block(st, size);
    let a = st.fit(size)->0;
    assert(st.has(a) && st.has(st.next(a)));
    assert(st.blocks[a].size % 16 == 0);
}

/// A request is served whenever there is a free block that is larger than the
/// request, rounded up to 16 bytes, by a sixteenth.
pub proof fn requests_are_served_while_there_is_room(st: TlsfState, size: int, b: int, need: int)
    requires
        st.wf(),
        size > 0,
        need % 16 == 0,
        size <= need,
        st.has(b),
        st.blocks[b].free,
        16 * st.blocks[b].size >= 17 * need,
    ensures
        st.fit(size) is Some,
{
    let least = TlsfState::payload_for(size);
    assert(16 <= least <= need);
    bins::larger_blocks_are_searched(least, st.blocks[b].size);
    bins::lemma_bin_of(least);
    model::lemma_has_bin(st, b);
    assert(st.listed(b));
    lemma_first_of_all(st, bins::Bins::at_least(least), bins::Bins::of(st.blocks[b].size));
}

/// The block that serves a request is a good fit: larger than any other that
/// is sure to serve it by less than a sixteenth.
pub proof fn fit_is_good(st: TlsfState, size: int, b: int, need: int)
    requires
        st.wf(),
        size > 0,
        need % 16 == 0,
        size <= need,
        st.has(b),
        st.blocks[b].free,
        16 * st.blocks[b].size >= 17 * need,
    ensures
        st.fit(size) is Some,
        16 * st.blocks[st.fit(size)->0].size < 17 * st.blocks[b].size,
{
    let least = TlsfState::payload_for(size);
    assert(16 <= least <= need);
    let held = st.blocks[b].size;
    bins::larger_blocks_are_searched(least, held);
    bins::lemma_bin_of(least);
    model::lemma_has_bin(st, b);
    assert(st.listed(b));
    let from = Bins::at_least(least);
    lemma_first_of_all(st, from, Bins::of(held));
    let j = st.first_filled(from)->0;
    assert(st.slot(j, 0));
    let a = st.bins[j][0];
    assert(st.has(a) && Bins::of(st.blocks[a].size) == j);
    bins::lemma_bin_of(st.blocks[a].size);
    bins::bins_are_narrow(held);
    bins::lemma_floor_monotone(j + 1, Bins::of(held) + 1);
}

/// A request is served whenever there is a free block of `(16 + s) * 2^f` bytes
/// or more and the request is for no more than that. So a request for a power
/// of two is served by any block that has that size.
pub proof fn requests_up_to_a_round_size_are_served(st: TlsfState, size: int, f: nat, s: int, b: int)
    requires
        st.wf(),
        size > 0,
        0 <= s < 16,
        ((16 + s) * vstd::arithmetic::power2::pow2(f)) % 16 == 0,
        size <= (16 + s) * vstd::arithmetic::power2::pow2(f),
        st.has(b),
        st.blocks[b].free,
        st.blocks[b].size >= (16 + s) * vstd::arithmetic::power2::pow2(f),
    ensures
        st.fit(size) is Some,
{
    let round = (16 + s) * vstd::arithmetic::power2::pow2(f);
    vstd::arithmetic::power2::lemma_pow2_pos(f);
    assert(round >= 16) by (nonlinear_arith)
        requires
            round == (16 + s) * vstd::arithmetic::power2::pow2(f),
            s >= 0,
            vstd::arithmetic::power2::pow2(f) > 0,
    ;
    let least = TlsfState::payload_for(size);
    assert(16 <= least <= round);
    bins::round_sizes_fit_exactly(f, s, least, st.blocks[b].size);
    bins::lemma_bin_of(least);
    model::lemma_has_bin(st, b);
    assert(st.listed(b));
    lemma_first_of_all(st, Bins::at_least(least), Bins::of(st.blocks[b].size));
}

/// A pool that is added is one free block, but for two headers and what the
/// rounding to 16 bytes takes. Blocks elsewhere are as they were.
pub proof fn added_pool_is_free(st: TlsfState, base: int, size: int)
    requires
        size >= 48,
    ensures
        ({
            let ns = st.pooled(base, size);
            &&& forall|x: int|
                !(base <= x < base + size) ==> #[trigger] ns.has(x) == st.has(x) && ns.blocks[x]
                    == st.blocks[x]
            &&& ns.has(base)
            &&& ns.blocks[base].free
            &&& ns.blocks[base].prev is None
            &&& size - 48 < ns.blocks[base].size <= size - 32
            &&& ns.blocks[base].size % 16 == 0
            &&& ns.start == base
            &&& ns.end == base + size
            &&& ns.has(base + 16 + ns.blocks[base].size)
            &&& ns.blocks[base + 16 + ns.blocks[base].size].size == 0
        }),
{
}

/// A block that is given back becomes part of a free block, together with free
/// neighbours on both sides. Of the free blocks in its bin it is the first to be
/// handed out.
pub proof fn given_back_block_is_free(st: TlsfState, ptr: int)
    requires
        st.wf(),
        st.live(ptr),
    ensures
        ({
            let ns = st.freed(ptr);
            let b = if st.blocks[ptr - 16].prev matches Some(p) && st.blocks[p].free {
                st.blocks[ptr - 16].prev->0
            } else {
                ptr - 16
            };
            let c = ptr + st.blocks[ptr - 16].size;
            let end = if st.blocks[c].free {
                c + 16 + st.blocks[c].size
            } else {
                c
            };
            &&& ns.has(b)
            &&& ns.blocks[b].free
            &&& b + 16 + ns.blocks[b].size == end
            &&& ns.bins[Bins::of(end - b - 16)].len() > 0
            &&& ns.bins[Bins::of(end - b - 16)][0] == b
        }),
{
    let a = ptr - 16;
    let s1 = st.with_free(a, true);
    let s2 = s1.merged_next(a);
    let s3 = s2.merged_prev(a);
    model::lemma_released(st, a);
    model::lemma_merged_next(s1, a);
    model::lemma_merged_prev(s2, a);
    let c = st.next(a);
    assert(st.has(c) && s1.next(a) == c && s1.has(c));
    if st.blocks[c].free {
        assert(s1.has(s1.next(c)));
        assert(s2.next(a) == st.next(c));
    }
    if st.prev_free(a) {
        let p = st.blocks[a].prev->0;
        assert(st.has(p) && p < a);
        assert(s1.blocks[p] == st.blocks[p]);
        assert(s2.has(p) && s2.blocks[p].free);
        assert(s2.next(p) == a);
    } else if st.blocks[a].prev is Some {
        let p = st.blocks[a].prev->0;
        assert(st.has(p) && p < a);
        assert(!s2.blocks[p].free);
    }
    let b = s2.merged_start(a);
    model::lemma_has_bin(s3, b);
}

/// A block that is given back serves requests again: every one that is smaller
/// than the block by a seventeenth.
pub proof fn given_back_block_serves_again(st: TlsfState, ptr: int, size: int, need: int)
    requires
        st.wf(),
        st.live(ptr),
        size > 0,
        need % 16 == 0,
        size <= need,
        16 * st.blocks[ptr - 16].size >= 17 * need,
    ensures
        st.freed(ptr).fit(size) is Some,
{
    freed_block(st, ptr);
    given_back_block_is_free(st, ptr);
    let a = ptr - 16;
    let c = st.next(a);
    assert(st.has(c));
    let b = if st.blocks[a].prev matches Some(p) && st.blocks[p].free {
        st.blocks[a].prev->0
    } else {
        a
    };
    if b != a {
        assert(st.has(b) && b < a);
    }
    if st.blocks[c].free {
        assert(st.blocks[c].size >= 0);
    }
    requests_are_served_while_there_is_room(st.freed(ptr), size, b, need);
}

/// A pool that was just added serves every request whose search starts no
/// later than at the bin of its one block.
pub proof fn fresh_pool_serves(base: int, pool: int, size: int)
    requires
        base > 0,
        base % 16 == 0,
        48 <= pool < bins::SIZE_LIMIT + 32,
        size > 0,
        Bins::at_least(TlsfState::payload_for(size)) <= Bins::of((pool - 32) / 16 * 16),
    ensures
        TlsfState::empty().pooled(base, pool).fit(size) == Some(base),
{
    let st = TlsfState::empty().pooled(base, pool);
    let payload = (pool - 32) / 16 * 16;
    let k = Bins::of(payload);
    bins::lemma_bin_of(payload);
    bins::lemma_bin_in_range(payload);
    let need = TlsfState::payload_for(size);
    bins::lemma_bin_of(need);
    assert(st.bins[k] == seq![base] + Seq::<int>::empty());
    assert forall|i: int| Bins::at_least(need) <= i < k implies #[trigger] st.bins[i].len() == 0 by {};
    model::lemma_first_filled(st, Bins::at_least(need), k);
}

/// A block that was given back straight after it was handed out is handed out
/// again for a request of the same size.
pub proof fn freed_block_is_reused(st: TlsfState, size: int)
    requires
        st.wf(),
        size > 0,
        st.fit(size) is Some,
    ensures
        st.allocated(size).freed(st.fit(size)->0 + 16).fit(size) == st.fit(size),
{
    free_undoes_alloc(st, size);
}

/// The payload of a block that is in use is the client's.
pub proof fn payloads_are_the_clients(st: TlsfState, ptr: int, i: int)
    requires
        st.live(ptr),
        0 <= i < st.blocks[ptr - 16].size,
    ensures
        st.client(ptr + i),
{
    assert(st.has(ptr - 16) && ptr + i < st.next(ptr - 16));
}

/// A pool that cannot hold two headers and a payload is ignored.
pub proof fn tiny_pools_are_ignored(st: TlsfState, base: int, size: int)
    requires
        size < 16 + 16 + 16,
    ensures
        st.pooled(base, size) == st,
{
}

} // verus!
