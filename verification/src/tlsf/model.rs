//! What a TLSF pool holds, free of its layout in memory: the chain of
//! physically adjacent blocks and the bins of free ones.

use vstd::prelude::*;

use crate::tlsf::bins::{Bins, BIN_COUNT, SIZE_LIMIT};

verus! {

/// A block: its payload size, whether it is free, the block physically in
/// front of it, and the pool that it lies in. A block of size 0 marks the end
/// of a pool.
pub struct Block {
    pub size: int,
    pub free: bool,
    pub prev: Option<int>,
    pub pool: int,
}

/// The blocks, by the address of their header, and for each bin the free
/// blocks in it, in the order in which they are handed out. The most recent
/// pool lies at `start .. end`.
#[verifier::ext_equal]
pub struct TlsfState {
    pub blocks: Map<int, Block>,
    pub bins: Seq<Seq<int>>,
    pub start: int,
    pub end: int,
}

impl TlsfState {
    /// No pool.
    pub open spec fn empty() -> TlsfState {
        TlsfState {
            blocks: Map::empty(),
            bins: Seq::new(BIN_COUNT as nat, |j: int| Seq::<int>::empty()),
            start: 0,
            end: 0,
        }
    }

    pub open spec fn has(self, a: int) -> bool {
        self.blocks.dom().contains(a)
    }

    /// The address behind the block at `a`.
    pub open spec fn next(self, a: int) -> int {
        a + 16 + self.blocks[a].size
    }

    /// The block in front of the one at `a` is free.
    pub open spec fn prev_free(self, a: int) -> bool {
        self.blocks[a].prev is Some && self.blocks[self.blocks[a].prev->0].free
    }

    /// The size of the block in front of the one at `a`; 0 for the first one.
    pub open spec fn prev_size(self, a: int) -> int {
        if self.blocks[a].prev is Some {
            self.blocks[self.blocks[a].prev->0].size
        } else {
            0
        }
    }

    /// `ptr` is the payload address of a block that is in use.
    pub open spec fn live(self, ptr: int) -> bool {
        &&& self.has(ptr - 16)
        &&& !self.blocks[ptr - 16].free
        &&& self.blocks[ptr - 16].size > 0
    }

    /// `x` lies in the header or the payload of some block.
    pub open spec fn covers(self, x: int) -> bool {
        exists|a: int| #[trigger] self.has(a) && a <= x < self.next(a)
    }

    /// `x` lies in the payload of a block that is in use.
    pub open spec fn in_use(self, x: int) -> bool {
        exists|a: int| #[trigger]
            self.has(a) && !self.blocks[a].free && a + 16 <= x < self.next(a)
    }

    /// `x` is none of the allocator's: it lies outside all blocks or in the
    /// payload of one that is in use.
    pub open spec fn client(self, x: int) -> bool {
        !self.covers(x) || self.in_use(x)
    }

    /// Blocks are aligned, chained without gaps up to the end mark, and
    /// disjoint.
    pub open spec fn chain_wf(self) -> bool {
        &&& forall|a: int| #[trigger]
            self.has(a) ==> {
                &&& a > 0
                &&& a % 16 == 0
                &&& self.blocks[a].size % 16 == 0
                &&& 0 <= self.blocks[a].size < SIZE_LIMIT
                &&& self.blocks[a].size == 0 ==> !self.blocks[a].free
                &&& self.blocks[a].pool <= a
            }
        &&& forall|a: int|
            #![trigger self.next(a)]
            self.has(a) && self.blocks[a].size > 0 ==> {
                let n = self.next(a);
                &&& self.has(n)
                &&& self.blocks[n].prev == Some(a)
                &&& self.blocks[n].pool == self.blocks[a].pool
                &&& n < self.blocks[a].pool + 16 + SIZE_LIMIT
            }
        &&& forall|a: int|
            #![trigger self.blocks[a].prev]
            self.has(a) && self.blocks[a].prev is Some ==> {
                let p = self.blocks[a].prev->0;
                self.has(p) && self.blocks[p].size > 0 && p + 16 + self.blocks[p].size == a
            }
        &&& forall|a: int, b: int|
            #![trigger self.has(a), self.has(b)]
            self.has(a) && self.has(b) && a < b ==> a + 16 + self.blocks[a].size <= b
    }

    /// No two free blocks are adjacent.
    pub open spec fn coalesced(self) -> bool {
        forall|a: int|
            #![trigger self.next(a)]
            self.has(a) && self.blocks[a].free ==> !self.blocks[self.next(a)].free
    }

    /// No two free blocks are adjacent, but for the one at `x`.
    pub open spec fn coalesced_but(self, x: int) -> bool {
        forall|a: int|
            #![trigger self.next(a)]
            self.has(a) && self.blocks[a].free && a != x && self.next(a) != x
                ==> !self.blocks[self.next(a)].free
    }

    /// Bin `j` has an `i`-th member.
    pub open spec fn slot(self, j: int, i: int) -> bool {
        0 <= j < BIN_COUNT && 0 <= i < self.bins[j].len()
    }

    /// The bins hold free blocks of their size, none twice.
    pub open spec fn members_wf(self) -> bool {
        &&& self.bins.len() == BIN_COUNT
        &&& forall|j: int, i: int|
            #![trigger self.bins[j][i]]
            self.slot(j, i) ==> self.has(self.bins[j][i]) && self.blocks[self.bins[j][i]].free
                && Bins::of(self.blocks[self.bins[j][i]].size) == j
        &&& forall|j: int, i: int, k: int|
            #![trigger self.bins[j][i], self.bins[j][k]]
            self.slot(j, i) && self.slot(j, k) && i != k ==> self.bins[j][i] != self.bins[j][k]
    }

    /// The block at `a` is in no bin.
    pub open spec fn out(self, a: int) -> bool {
        forall|j: int, i: int| #![trigger self.bins[j][i]] self.slot(j, i) ==> self.bins[j][i] != a
    }

    /// The block at `a` is in its bin.
    pub open spec fn listed(self, a: int) -> bool {
        self.bins[Bins::of(self.blocks[a].size)].contains(a)
    }

    /// A pool in good order: every free block is in its bin, and no two free
    /// blocks are adjacent.
    pub open spec fn wf(self) -> bool {
        &&& self.chain_wf()
        &&& self.coalesced()
        &&& self.members_wf()
        &&& forall|a: int| #[trigger] self.has(a) && self.blocks[a].free ==> self.listed(a)
    }

    /// In good order but for the block at `x`, which is free, in no bin, and
    /// may have free neighbours.
    pub open spec fn wf_but(self, x: int) -> bool {
        &&& self.chain_wf()
        &&& self.coalesced_but(x)
        &&& self.members_wf()
        &&& self.has(x) && self.blocks[x].free
        &&& self.out(x)
        &&& forall|a: int| #[trigger]
            self.has(a) && self.blocks[a].free && a != x ==> self.listed(a)
    }

    /// Where the end mark of a pool of `size` bytes at `base` lies.
    pub open spec fn end_mark(base: int, size: int) -> int {
        base + 16 + (size - 32) / 16 * 16
    }

    /// There is one pool, of `size` bytes at `base`: the blocks lie between its
    /// base and its end mark, and each but the first has one in front of it.
    pub open spec fn one_pool(self, base: int, size: int) -> bool {
        let last = Self::end_mark(base, size);
        &&& size >= 48
        &&& self.start == base
        &&& self.end == base + size
        &&& self.has(base)
        &&& self.has(last)
        &&& self.blocks[last].size == 0
        &&& forall|a: int| #[trigger]
            self.has(a) ==> {
                &&& base <= a <= last
                &&& self.blocks[a].pool == base
                &&& a == base <==> self.blocks[a].prev is None
                &&& a != last ==> self.blocks[a].size > 0
            }
    }

    /// Takes the block at `a` out of its bin.
    pub open spec fn unlist(self, a: int) -> TlsfState {
        let j = Bins::of(self.blocks[a].size);
        TlsfState {
            bins: self.bins.update(j, self.bins[j].remove(self.bins[j].index_of(a))),
            ..self
        }
    }

    /// Puts the block at `a` in front of its bin.
    pub open spec fn list(self, a: int) -> TlsfState {
        let j = Bins::of(self.blocks[a].size);
        TlsfState { bins: self.bins.update(j, seq![a] + self.bins[j]), ..self }
    }

    /// The first bin from `j` on that holds a block.
    pub open spec fn first_filled(self, j: int) -> Option<int>
        decreases BIN_COUNT - j,
    {
        if j < 0 || j >= BIN_COUNT {
            None
        } else if self.bins[j].len() > 0 {
            Some(j)
        } else {
            self.first_filled(j + 1)
        }
    }

    /// Two adjacent blocks become one.
    pub open spec fn join(self, a: int) -> TlsfState {
        let b = self.next(a);
        let c = self.next(b);
        TlsfState {
            blocks: self.blocks.remove(b).insert(
                a,
                Block { size: self.blocks[a].size + 16 + self.blocks[b].size, ..self.blocks[a] },
            ).insert(c, Block { prev: Some(a), ..self.blocks[c] }),
            ..self
        }
    }

    /// The block at `a` becomes one of `size` bytes; the rest of it becomes a
    /// free block behind it.
    pub open spec fn split(self, a: int, size: int) -> TlsfState {
        let s = a + 16 + size;
        let c = self.next(a);
        TlsfState {
            blocks: self.blocks.insert(a, Block { size, ..self.blocks[a] }).insert(
                s,
                Block { size: c - s - 16, free: true, prev: Some(a), pool: self.blocks[a].pool },
            ).insert(c, Block { prev: Some(s), ..self.blocks[c] }),
            ..self
        }
    }

    pub open spec fn with_free(self, a: int, free: bool) -> TlsfState {
        TlsfState { blocks: self.blocks.insert(a, Block { free, ..self.blocks[a] }), ..self }
    }

    /// A free block that is in no bin is put to use for `size` bytes: what is
    /// left over becomes a free block if it can hold a header and a payload.
    pub open spec fn put_to_use(self, a: int, size: int) -> TlsfState {
        if self.blocks[a].size - size >= 32 {
            self.split(a, size).list(a + 16 + size).with_free(a, false)
        } else {
            self.with_free(a, false)
        }
    }

    /// The payload size that a request for `size` bytes takes.
    pub open spec fn payload_for(size: int) -> int {
        if size <= 16 {
            16
        } else {
            (size + 15) / 16 * 16
        }
    }

    /// The block that a request for `size` bytes is served from.
    pub open spec fn fit(self, size: int) -> Option<int> {
        match self.first_filled(Bins::at_least(Self::payload_for(size))) {
            Some(j) => Some(self.bins[j][0]),
            None => None,
        }
    }

    /// A request for `size` bytes has been served.
    pub open spec fn allocated(self, size: int) -> TlsfState {
        let a = self.fit(size)->0;
        self.unlist(a).put_to_use(a, Self::payload_for(size))
    }

    /// The block at `a` has swallowed a free block behind it.
    pub open spec fn merged_next(self, a: int) -> TlsfState {
        let n = self.next(a);
        if self.blocks[n].free {
            self.unlist(n).join(a)
        } else {
            self
        }
    }

    /// The block at `a` has been swallowed by a free block in front of it.
    pub open spec fn merged_prev(self, a: int) -> TlsfState {
        if self.prev_free(a) {
            let p = self.blocks[a].prev->0;
            self.unlist(p).join(p)
        } else {
            self
        }
    }

    /// Where the block at `a` starts once a free block in front of it has
    /// swallowed it.
    pub open spec fn merged_start(self, a: int) -> int {
        if self.prev_free(a) {
            self.blocks[a].prev->0
        } else {
            a
        }
    }

    /// The block with payload address `ptr` has been given back.
    pub open spec fn freed(self, ptr: int) -> TlsfState {
        let a = ptr - 16;
        let m = self.with_free(a, true).merged_next(a);
        m.merged_prev(a).list(m.merged_start(a))
    }

    /// A pool of `size` bytes at `base` has been added.
    pub open spec fn pooled(self, base: int, size: int) -> TlsfState {
        if size < 48 {
            self
        } else {
            let payload = (size - 32) / 16 * 16;
            TlsfState {
                blocks: self.blocks.insert(base, Block { size: payload, free: true, prev: None, pool: base }).insert(
                    base + 16 + payload,
                    Block { size: 0, free: false, prev: Some(base), pool: base },
                ),
                start: base,
                end: base + size,
                ..self
            }.list(base)
        }
    }
}

/// The bin that `first_filled` finds.
pub proof fn lemma_first_filled(st: TlsfState, from: int, j: int)
    requires
        0 <= from <= j < BIN_COUNT,
        st.bins[j].len() > 0,
        forall|k: int| from <= k < j ==> #[trigger] st.bins[k].len() == 0,
    ensures
        st.first_filled(from) == Some(j),
    decreases j - from,
{
    if from < j {
        lemma_first_filled(st, from + 1, j);
    }
}

/// `first_filled` finds none where all bins are empty.
pub proof fn lemma_none_filled(st: TlsfState, from: int)
    requires
        0 <= from,
        forall|k: int| from <= k < BIN_COUNT ==> #[trigger] st.bins[k].len() == 0,
    ensures
        st.first_filled(from) is None,
    decreases BIN_COUNT - from,
{
    if from < BIN_COUNT {
        lemma_none_filled(st, from + 1);
    }
}

/// What `first_filled` finds is a filled bin from there on.
pub proof fn lemma_first_filled_is(st: TlsfState, from: int)
    requires
        0 <= from,
    ensures
        st.first_filled(from) matches Some(j) ==> from <= j < BIN_COUNT && st.bins[j].len() > 0,
    decreases BIN_COUNT - from,
{
    if from < BIN_COUNT {
        lemma_first_filled_is(st, from + 1);
    }
}

/// A free block has a bin.
pub proof fn lemma_has_bin(st: TlsfState, a: int)
    requires
        st.chain_wf(),
        st.has(a),
        st.blocks[a].size > 0,
    ensures
        16 <= st.blocks[a].size < SIZE_LIMIT,
        0 <= Bins::of(st.blocks[a].size) < BIN_COUNT,
{
    crate::tlsf::bins::lemma_bin_of(st.blocks[a].size);
    crate::tlsf::bins::lemma_bin_in_range(st.blocks[a].size);
}

/// Taking a block out of its bin leaves the others where they are.
pub proof fn lemma_unlist(st: TlsfState, a: int)
    requires
        st.members_wf(),
        st.has(a),
        0 <= Bins::of(st.blocks[a].size) < BIN_COUNT,
        st.listed(a),
    ensures
        st.unlist(a).members_wf(),
        st.unlist(a).out(a),
        forall|b: int| st.out(b) ==> #[trigger] st.unlist(a).out(b),
        forall|b: int| #[trigger]
            st.has(b) && b != a && 0 <= Bins::of(st.blocks[b].size) < BIN_COUNT && st.listed(b)
                ==> st.unlist(a).listed(b),
{
    let ns = st.unlist(a);
    let j = Bins::of(st.blocks[a].size);
    let l = st.bins[j];
    let p = l.index_of(a);
    assert(st.slot(j, p) && st.bins[j][p] == a);
    assert forall|k: int, i: int| #![trigger ns.bins[k][i]] ns.slot(k, i) implies {
        &&& k != j ==> ns.bins[k][i] == st.bins[k][i] && st.slot(k, i)
        &&& k == j && i < p ==> ns.bins[k][i] == st.bins[k][i] && st.slot(k, i)
        &&& k == j && i >= p ==> ns.bins[k][i] == st.bins[k][i + 1] && st.slot(k, i + 1)
    } by {};
    assert forall|b: int| #[trigger]
        st.has(b) && b != a && 0 <= Bins::of(st.blocks[b].size) < BIN_COUNT && st.listed(
            b,
        ) implies ns.listed(b) by {
        let k = Bins::of(st.blocks[b].size);
        let i = st.bins[k].index_of(b);
        assert(st.slot(k, i) && st.bins[k][i] == b);
        if k != j || i < p {
            assert(ns.bins[k][i] == b);
        } else {
            assert(ns.bins[k][i - 1] == b);
        }
    }
}

/// Putting a block into its bin leaves the others where they are.
pub proof fn lemma_list(st: TlsfState, a: int)
    requires
        st.members_wf(),
        st.has(a),
        st.blocks[a].free,
        0 <= Bins::of(st.blocks[a].size) < BIN_COUNT,
        st.out(a),
    ensures
        st.list(a).members_wf(),
        st.list(a).listed(a),
        forall|b: int| #[trigger]
            st.has(b) && 0 <= Bins::of(st.blocks[b].size) < BIN_COUNT && st.listed(b) ==> st.list(
                a,
            ).listed(b),
{
    let ns = st.list(a);
    let j = Bins::of(st.blocks[a].size);
    assert(ns.bins[j][0] == a);
    assert forall|k: int, i: int| #![trigger ns.bins[k][i]] ns.slot(k, i) implies {
        &&& k != j ==> ns.bins[k][i] == st.bins[k][i] && st.slot(k, i)
        &&& k == j && i == 0 ==> ns.bins[k][i] == a
        &&& k == j && i > 0 ==> ns.bins[k][i] == st.bins[k][i - 1] && st.slot(k, i - 1)
    } by {};
    assert forall|b: int| #[trigger]
        st.has(b) && 0 <= Bins::of(st.blocks[b].size) < BIN_COUNT && st.listed(
            b,
        ) implies ns.listed(b) by {
        let k = Bins::of(st.blocks[b].size);
        let i = st.bins[k].index_of(b);
        assert(st.slot(k, i) && st.bins[k][i] == b);
        if k != j {
            assert(ns.bins[k][i] == b);
        } else {
            assert(ns.bins[k][i + 1] == b);
        }
    }
}

/// Joining two blocks keeps the chain.
pub proof fn lemma_join_chain(st: TlsfState, a: int)
    requires
        st.chain_wf(),
        st.has(a),
        st.blocks[a].size > 0,
        st.blocks[st.next(a)].size > 0,
    ensures
        st.join(a).chain_wf(),
        st.join(a).next(a) == st.next(st.next(a)),
        st.has(st.next(a)),
        st.has(st.next(st.next(a))),
        a < st.next(a) < st.next(st.next(a)),
        forall|x: int| #[trigger] st.join(a).has(x) <==> st.has(x) && x != st.next(a),
{
    let b = st.next(a);
    let c = st.next(b);
    let ns = st.join(a);
    assert(st.has(b));
    assert(st.has(c));
    assert(ns.next(a) == c);
    assert forall|x: int| #[trigger] ns.has(x) implies {
        &&& x > 0
        &&& x % 16 == 0
        &&& ns.blocks[x].size % 16 == 0
        &&& 0 <= ns.blocks[x].size < SIZE_LIMIT
        &&& ns.blocks[x].size == 0 ==> !ns.blocks[x].free
        &&& ns.blocks[x].pool <= x
    } by {
        assert(st.has(x));
    }
    assert forall|x: int| #![trigger ns.next(x)] ns.has(x) && ns.blocks[x].size > 0 implies {
        let n = ns.next(x);
        &&& ns.has(n)
        &&& ns.blocks[n].prev == Some(x)
        &&& ns.blocks[n].pool == ns.blocks[x].pool
        &&& n < ns.blocks[x].pool + 16 + SIZE_LIMIT
    } by {
        assert(st.has(x));
        assert(st.has(st.next(x)));
    }
    assert forall|x: int| #![trigger ns.blocks[x].prev] ns.has(x) && ns.blocks[x].prev is Some implies {
        let p = ns.blocks[x].prev->0;
        ns.has(p) && ns.blocks[p].size > 0 && p + 16 + ns.blocks[p].size == x
    } by {
        assert(st.has(x));
    }
    assert forall|x: int, y: int|
        #![trigger ns.has(x), ns.has(y)]
        ns.has(x) && ns.has(y) && x < y implies x + 16 + ns.blocks[x].size <= y by {
        assert(st.has(x) && st.has(y));
    }
}

/// Splitting a block keeps the chain.
pub proof fn lemma_split_chain(st: TlsfState, a: int, size: int)
    requires
        st.chain_wf(),
        st.has(a),
        size > 0,
        size % 16 == 0,
        st.blocks[a].size - size >= 32,
    ensures
        st.split(a, size).chain_wf(),
        st.has(st.next(a)),
        a < a + 16 + size < st.next(a),
        !st.has(a + 16 + size),
        forall|x: int| #[trigger]
            st.split(a, size).has(x) <==> st.has(x) || x == a + 16 + size,
{
    let s = a + 16 + size;
    let c = st.next(a);
    let ns = st.split(a, size);
    assert(st.has(c));
    assert(ns.next(a) == s && ns.next(s) == c);
    assert forall|x: int| #[trigger] ns.has(x) implies {
        &&& x > 0
        &&& x % 16 == 0
        &&& ns.blocks[x].size % 16 == 0
        &&& 0 <= ns.blocks[x].size < SIZE_LIMIT
        &&& ns.blocks[x].size == 0 ==> !ns.blocks[x].free
        &&& ns.blocks[x].pool <= x
    } by {
        assert(x != s ==> st.has(x));
    }
    assert forall|x: int| #![trigger ns.next(x)] ns.has(x) && ns.blocks[x].size > 0 implies {
        let n = ns.next(x);
        &&& ns.has(n)
        &&& ns.blocks[n].prev == Some(x)
        &&& ns.blocks[n].pool == ns.blocks[x].pool
        &&& n < ns.blocks[x].pool + 16 + SIZE_LIMIT
    } by {
        assert(x != s ==> st.has(x) && st.has(st.next(x)));
    }
    assert forall|x: int| #![trigger ns.blocks[x].prev] ns.has(x) && ns.blocks[x].prev is Some implies {
        let p = ns.blocks[x].prev->0;
        ns.has(p) && ns.blocks[p].size > 0 && p + 16 + ns.blocks[p].size == x
    } by {
        assert(x != s ==> st.has(x));
    }
    assert forall|x: int, y: int|
        #![trigger ns.has(x), ns.has(y)]
        ns.has(x) && ns.has(y) && x < y implies x + 16 + ns.blocks[x].size <= y by {
        assert(x != s ==> st.has(x));
        assert(y != s ==> st.has(y));
    }
}

/// Joining two blocks that are in no bin leaves the bins in order.
pub proof fn lemma_join_members(st: TlsfState, a: int)
    requires
        st.chain_wf(),
        st.members_wf(),
        st.has(a),
        st.blocks[a].size > 0,
        st.blocks[st.next(a)].size > 0,
        st.out(a),
        st.out(st.next(a)),
    ensures
        st.join(a).members_wf(),
        forall|x: int| st.out(x) ==> #[trigger] st.join(a).out(x),
        forall|x: int| #[trigger]
            st.join(a).has(x) && x != a && st.listed(x) ==> st.join(a).listed(x),
{
    lemma_join_chain(st, a);
    let ns = st.join(a);
    assert forall|j: int, i: int| #![trigger ns.bins[j][i]] ns.slot(j, i) implies ns.has(
        ns.bins[j][i],
    ) && ns.blocks[ns.bins[j][i]].free && Bins::of(ns.blocks[ns.bins[j][i]].size) == j by {
        assert(st.slot(j, i) && st.bins[j][i] == ns.bins[j][i]);
    }
}

/// Joining two free blocks leaves the client's bytes to the client.
pub proof fn lemma_join_client(st: TlsfState, a: int, x: int)
    requires
        st.chain_wf(),
        st.has(a),
        st.blocks[a].free,
        st.blocks[st.next(a)].free,
        st.client(x),
    ensures
        st.join(a).client(x),
{
    let b = st.next(a);
    let c = st.next(b);
    let ns = st.join(a);
    assert(st.has(b) && st.has(c));
    lemma_join_chain(st, a);
    if st.covers(x) {
        let y = choose|y: int| #[trigger] st.has(y) && !st.blocks[y].free && y + 16 <= x < st.next(y);
        assert(ns.has(y) && ns.blocks[y].size == st.blocks[y].size);
        assert(ns.next(y) == st.next(y));
        assert(ns.in_use(x));
    } else {
        assert forall|y: int| #[trigger] ns.has(y) implies !(y <= x < ns.next(y)) by {
            assert(st.has(y));
            assert(!(y <= x < st.next(y)));
            assert(!(b <= x < st.next(b)));
        }
    }
}

/// A free block taken out of its bin.
pub proof fn lemma_taken(st: TlsfState, a: int)
    requires
        st.wf(),
        st.has(a),
        st.blocks[a].free,
    ensures
        st.unlist(a).wf_but(a),
        !st.unlist(a).blocks[st.next(a)].free,
        !st.unlist(a).prev_free(a),
{
    let ns = st.unlist(a);
    lemma_has_bin(st, a);
    lemma_unlist(st, a);
    assert(ns.chain_wf()) by {
        assert forall|x: int| #[trigger] ns.has(x) implies st.has(x) by {};
        assert forall|x: int| #[trigger] ns.next(x) == st.next(x) by {};
    }
    assert(ns.coalesced_but(a)) by {
        assert forall|x: int| #[trigger] ns.next(x) == st.next(x) by {};
    }
    assert forall|b: int| #[trigger] ns.has(b) && ns.blocks[b].free && b != a implies ns.listed(b) by {
        assert(st.has(b));
        lemma_has_bin(st, b);
    }
    if st.blocks[a].prev is Some {
        let p = st.blocks[a].prev->0;
        assert(st.next(p) == a);
    }
}

/// A used block that is to be given back.
pub proof fn lemma_released(st: TlsfState, a: int)
    requires
        st.wf(),
        st.has(a),
        !st.blocks[a].free,
        st.blocks[a].size > 0,
    ensures
        st.with_free(a, true).wf_but(a),
{
    let ns = st.with_free(a, true);
    assert forall|x: int| #[trigger] ns.has(x) <==> st.has(x) by {};
    assert forall|x: int| #[trigger] ns.next(x) == st.next(x) by {};
    assert forall|j: int, i: int| #![trigger ns.bins[j][i]] ns.slot(j, i) implies st.slot(j, i)
        && st.bins[j][i] == ns.bins[j][i] by {};
    assert(ns.chain_wf()) by {
        assert forall|x: int|
            #![trigger ns.blocks[x].prev]
            ns.has(x) && ns.blocks[x].prev is Some implies {
            let p = ns.blocks[x].prev->0;
            ns.has(p) && ns.blocks[p].size > 0 && p + 16 + ns.blocks[p].size == x
        } by {
            assert(st.has(x) && st.blocks[x].prev == ns.blocks[x].prev);
        }
    }
    assert(ns.members_wf());
    assert(ns.out(a));
    assert forall|b: int| #[trigger] ns.has(b) && ns.blocks[b].free && b != a implies ns.listed(b) by {
        assert(st.has(b));
    }
}

/// The rest of a block that is split goes into its bin.
pub proof fn lemma_cut(st: TlsfState, a: int, size: int)
    requires
        st.wf_but(a),
        16 <= size,
        size % 16 == 0,
        st.blocks[a].size - size >= 32,
    ensures
        ({
            let s = a + 16 + size;
            let ls = st.split(a, size).list(s);
            &&& ls.chain_wf()
            &&& ls.members_wf()
            &&& ls.out(a)
            &&& ls.listed(s)
            &&& ls.next(a) == s
            &&& ls.next(s) == st.next(a)
            &&& forall|x: int| #[trigger] ls.has(x) <==> st.has(x) || x == s
            &&& forall|x: int| #[trigger] ls.has(x) && ls.blocks[x].free && x != a ==> ls.listed(x)
        }),
{
    let s = a + 16 + size;
    let sp = st.split(a, size);
    let ls = sp.list(s);
    lemma_split_chain(st, a, size);
    lemma_has_bin(sp, s);
    assert forall|j: int, i: int| #![trigger sp.bins[j][i]] sp.slot(j, i) implies st.slot(j, i)
        && st.bins[j][i] == sp.bins[j][i] && st.has(st.bins[j][i]) by {};
    assert(sp.members_wf());
    assert(sp.out(s));
    assert(sp.out(a));
    lemma_list(sp, s);
    assert forall|x: int| #[trigger] ls.has(x) <==> sp.has(x) by {};
    assert forall|x: int| #[trigger] ls.next(x) == sp.next(x) by {};
    assert(ls.chain_wf());
    assert forall|b: int| #[trigger] ls.has(b) && ls.blocks[b].free && b != a implies ls.listed(b) by {
        if b != s {
            assert(st.has(b) && st.listed(b));
            lemma_has_bin(st, b);
            assert(sp.has(b) && sp.listed(b));
        }
    }
}

/// A free block that is in no bin and has no free neighbour, put to use.
pub proof fn lemma_put_to_use(st: TlsfState, a: int, size: int)
    requires
        st.wf_but(a),
        !st.blocks[st.next(a)].free,
        16 <= size <= st.blocks[a].size,
        size % 16 == 0,
    ensures
        st.put_to_use(a, size).wf(),
{
    let ns = st.put_to_use(a, size);
    let c = st.next(a);
    assert(st.has(c));
    if st.blocks[a].size - size >= 32 {
        let s = a + 16 + size;
        let ls = st.split(a, size).list(s);
        lemma_cut(st, a, size);
        assert forall|x: int| #[trigger] ns.has(x) <==> ls.has(x) by {};
        assert forall|x: int| #[trigger] ns.next(x) == ls.next(x) by {};
        assert(ns.chain_wf()) by {
            assert forall|x: int|
                #![trigger ns.blocks[x].prev]
                ns.has(x) && ns.blocks[x].prev is Some implies {
                let p = ns.blocks[x].prev->0;
                ns.has(p) && ns.blocks[p].size > 0 && p + 16 + ns.blocks[p].size == x
            } by {
                assert(ls.has(x) && ls.blocks[x].prev == ns.blocks[x].prev);
            }
        }
        assert forall|x: int|
            #![trigger ns.next(x)]
            ns.has(x) && ns.blocks[x].free implies !ns.blocks[ns.next(x)].free by {
            if x == s {
                assert(ns.next(s) == c);
            } else {
                assert(st.has(x) && st.has(st.next(x)));
                assert(ns.next(x) == st.next(x));
            }
        }
        assert(ns.members_wf());
        assert forall|b: int| #[trigger] ns.has(b) && ns.blocks[b].free implies ns.listed(b) by {
            assert(ls.has(b) && ls.listed(b));
        }
    } else {
        assert forall|x: int| #[trigger] ns.has(x) <==> st.has(x) by {};
        assert forall|x: int| #[trigger] ns.next(x) == st.next(x) by {};
        assert(ns.chain_wf()) by {
            assert forall|x: int|
                #![trigger ns.blocks[x].prev]
                ns.has(x) && ns.blocks[x].prev is Some implies {
                let p = ns.blocks[x].prev->0;
                ns.has(p) && ns.blocks[p].size > 0 && p + 16 + ns.blocks[p].size == x
            } by {
                assert(st.has(x) && st.blocks[x].prev == ns.blocks[x].prev);
            }
        }
        assert forall|j: int, i: int| #![trigger ns.bins[j][i]] ns.slot(j, i) implies st.slot(j, i)
            && st.bins[j][i] == ns.bins[j][i] by {};
        assert(ns.members_wf());
        assert forall|b: int| #[trigger] ns.has(b) && ns.blocks[b].free implies ns.listed(b) by {
            assert(st.has(b) && st.listed(b));
        }
    }
}

/// A free block behind, swallowed.
pub proof fn lemma_merged_next(st: TlsfState, a: int)
    requires
        st.wf_but(a),
    ensures
        st.merged_next(a).wf_but(a),
        !st.merged_next(a).blocks[st.merged_next(a).next(a)].free,
        st.merged_next(a).blocks[a].prev == st.blocks[a].prev,
        st.merged_next(a).prev_free(a) == st.prev_free(a),
{
    let n = st.next(a);
    assert(st.has(n));
    let ns = st.merged_next(a);
    if st.blocks[n].free {
        let u = st.unlist(n);
        let c = st.next(n);
        assert(st.has(c) && !st.blocks[c].free);
        lemma_has_bin(st, n);
        lemma_unlist(st, n);
        assert forall|x: int| #[trigger] u.has(x) <==> st.has(x) by {};
        assert forall|x: int| #[trigger] u.next(x) == st.next(x) by {};
        assert(u.chain_wf());
        assert(u.out(a) && u.out(n));
        lemma_join_chain(u, a);
        lemma_join_members(u, a);
        assert(ns == u.join(a));
        assert(ns.next(a) == c);
        assert forall|x: int|
            #![trigger ns.next(x)]
            ns.has(x) && ns.blocks[x].free && x != a && ns.next(x) != a implies !ns.blocks[ns.next(
            x,
        )].free by {
            assert(st.has(x) && ns.next(x) == st.next(x));
            assert(st.has(st.next(x)));
        }
        assert forall|b: int| #[trigger] ns.has(b) && ns.blocks[b].free && b != a implies ns.listed(
            b,
        ) by {
            assert(st.has(b) && st.listed(b));
            lemma_has_bin(st, b);
            assert(u.listed(b));
        }
    }
}

/// A free block in front, which swallows this one.
pub proof fn lemma_merged_prev(st: TlsfState, a: int)
    requires
        st.wf_but(a),
        !st.blocks[st.next(a)].free,
    ensures
        st.merged_prev(a).wf_but(st.merged_start(a)),
        !st.merged_prev(a).blocks[st.merged_prev(a).next(st.merged_start(a))].free,
        !st.merged_prev(a).prev_free(st.merged_start(a)),
{
    let c = st.next(a);
    assert(st.has(c));
    let ns = st.merged_prev(a);
    if st.prev_free(a) {
        let p = st.blocks[a].prev->0;
        assert(st.next(p) == a);
        let u = st.unlist(p);
        lemma_has_bin(st, p);
        lemma_unlist(st, p);
        assert forall|x: int| #[trigger] u.has(x) <==> st.has(x) by {};
        assert forall|x: int| #[trigger] u.next(x) == st.next(x) by {};
        assert(u.chain_wf());
        assert(u.out(a) && u.out(p));
        lemma_join_chain(u, p);
        lemma_join_members(u, p);
        assert(ns == u.join(p));
        assert(ns.next(p) == c);
        assert forall|x: int|
            #![trigger ns.next(x)]
            ns.has(x) && ns.blocks[x].free && x != p && ns.next(x) != p implies !ns.blocks[ns.next(
            x,
        )].free by {
            assert(st.has(x) && ns.next(x) == st.next(x));
            assert(st.has(st.next(x)));
        }
        assert forall|b: int| #[trigger] ns.has(b) && ns.blocks[b].free && b != p implies ns.listed(
            b,
        ) by {
            assert(st.has(b) && st.listed(b));
            lemma_has_bin(st, b);
            assert(u.listed(b));
        }
        if ns.blocks[p].prev is Some {
            let q = st.blocks[p].prev->0;
            assert(st.next(q) == p);
        }
    }
}

/// A free block without free neighbours, put into its bin.
pub proof fn lemma_put_back(st: TlsfState, a: int)
    requires
        st.wf_but(a),
        !st.blocks[st.next(a)].free,
        !st.prev_free(a),
    ensures
        st.list(a).wf(),
{
    let ns = st.list(a);
    lemma_has_bin(st, a);
    lemma_list(st, a);
    assert forall|x: int| #[trigger] ns.has(x) <==> st.has(x) by {};
    assert forall|x: int| #[trigger] ns.next(x) == st.next(x) by {};
    assert(ns.chain_wf());
    assert forall|x: int| #![trigger ns.next(x)] ns.has(x) && ns.blocks[x].free implies !ns.blocks[ns.next(
        x,
    )].free by {
        if st.next(x) == a {
            assert(st.has(x) && st.blocks[a].prev == Some(x));
        }
    }
    assert forall|b: int| #[trigger] ns.has(b) && ns.blocks[b].free implies ns.listed(b) by {
        assert(st.has(b));
        if b != a {
            lemma_has_bin(st, b);
        }
    }
}

/// A pool added where no block lies.
pub proof fn lemma_pooled(st: TlsfState, base: int, size: int)
    requires
        st.wf(),
        base > 0,
        base % 16 == 0,
        48 <= size < SIZE_LIMIT + 32,
        forall|x: int| base <= x < base + size ==> !st.covers(x),
    ensures
        st.pooled(base, size).wf(),
{
    let payload = (size - 32) / 16 * 16;
    let e = base + 16 + payload;
    let m = TlsfState {
        blocks: st.blocks.insert(
            base,
            Block { size: payload, free: true, prev: None, pool: base },
        ).insert(e, Block { size: 0, free: false, prev: Some(base), pool: base }),
        start: base,
        end: base + size,
        ..st
    };
    assert(st.pooled(base, size) == m.list(base));
    assert forall|x: int| #[trigger] st.has(x) implies st.next(x) <= base || base + size <= x by {
        assert(!st.covers(base));
        if base <= x < base + size {
            assert(st.covers(x));
        }
        if x < base && base < st.next(x) {
            assert(st.covers(base));
        }
    }
    assert forall|x: int| #[trigger] m.has(x) <==> st.has(x) || x == base || x == e by {};
    assert(m.chain_wf()) by {
        assert forall|x: int| #![trigger m.next(x)] m.has(x) && m.blocks[x].size > 0 implies {
            let n = m.next(x);
            &&& m.has(n)
            &&& m.blocks[n].prev == Some(x)
            &&& m.blocks[n].pool == m.blocks[x].pool
            &&& n < m.blocks[x].pool + 16 + SIZE_LIMIT
        } by {
            if x != base {
                assert(st.has(x) && st.has(st.next(x)));
            }
        }
        assert forall|x: int| #![trigger m.blocks[x].prev] m.has(x) && m.blocks[x].prev is Some implies {
            let p = m.blocks[x].prev->0;
            m.has(p) && m.blocks[p].size > 0 && p + 16 + m.blocks[p].size == x
        } by {
            if x != e && x != base {
                assert(st.has(x) && st.blocks[x].prev == m.blocks[x].prev);
            }
        }
    }
    assert forall|j: int, i: int| #![trigger m.bins[j][i]] m.slot(j, i) implies st.slot(j, i)
        && st.bins[j][i] == m.bins[j][i] && st.has(st.bins[j][i]) by {};
    assert(m.members_wf());
    assert(m.out(base));
    assert forall|x: int|
        #![trigger m.next(x)]
        m.has(x) && m.blocks[x].free && x != base && m.next(x) != base implies !m.blocks[m.next(x)].free by {
        assert(st.has(x) && m.next(x) == st.next(x));
        assert(st.has(st.next(x)));
    }
    assert forall|b: int| #[trigger] m.has(b) && m.blocks[b].free && b != base implies m.listed(b) by {
        assert(st.has(b));
    }
    assert(m.next(base) == e);
    lemma_put_back(m, base);
}

} // verus!
