//! Runs of whole pages, and which of them the client has given back.

use std::collections::HashMap;

use vstd::prelude::*;

verus! {

/// Runs of whole pages. Those that have been given back are spare, and are
/// handed out again.
#[verifier::ext_equal]
pub struct RunState {
    /// All runs by their addresses, with their sizes in bytes.
    pub sizes: Map<int, int>,
    /// The spare ones, in the order in which they were given back.
    pub spare: Seq<int>,
}

impl RunState {
    /// No runs.
    pub open spec fn empty() -> RunState {
        RunState { sizes: Map::empty(), spare: Seq::empty() }
    }

    /// The spare runs are runs, none of them twice.
    pub open spec fn wf(self) -> bool {
        &&& self.spare.no_duplicates()
        &&& forall|i: int|
            #![trigger self.spare[i]]
            0 <= i < self.spare.len() ==> self.sizes.dom().contains(self.spare[i])
    }

    /// The client holds the run at `p`.
    pub open spec fn held(self, p: int) -> bool {
        self.sizes.dom().contains(p) && !self.spare.contains(p)
    }

    /// The first spare run from position `i` on that has `size` bytes.
    pub open spec fn fit_from(self, i: int, size: int) -> Option<int>
        decreases self.spare.len() - i,
    {
        if i < 0 || i >= self.spare.len() {
            None
        } else if self.sizes[self.spare[i]] >= size {
            Some(i)
        } else {
            self.fit_from(i + 1, size)
        }
    }

    /// The first spare run that has `size` bytes.
    pub open spec fn fit(self, size: int) -> Option<int> {
        self.fit_from(0, size)
    }

    /// With a new run, which the client holds.
    pub open spec fn grown(self, p: int, size: int) -> RunState {
        RunState { sizes: self.sizes.insert(p, size), ..self }
    }

    /// With the spare run at position `i` handed out.
    pub open spec fn taken(self, i: int) -> RunState {
        RunState { spare: self.spare.remove(i), ..self }
    }

    /// With the run at `p` given back; nothing changes if the client does not
    /// hold it.
    pub open spec fn given_back(self, p: int) -> RunState {
        if self.held(p) {
            RunState { spare: self.spare.push(p), ..self }
        } else {
            self
        }
    }
}

/// A fit is spare and large enough; without one, no spare run is.
pub proof fn lemma_fit(st: RunState, i: int, size: int)
    requires
        0 <= i <= st.spare.len(),
    ensures
        match st.fit_from(i, size) {
            Some(j) => i <= j < st.spare.len() && st.sizes[st.spare[j]] >= size,
            None => forall|j: int|
                i <= j < st.spare.len() ==> st.sizes[#[trigger] st.spare[j]] < size,
        },
    decreases st.spare.len() - i,
{
    if i < st.spare.len() && st.sizes[st.spare[i]] < size {
        lemma_fit(st, i + 1, size);
    }
}

/// Runs serve in the order in which they were given back: the one that fits is
/// the first that is long enough.
pub proof fn spare_runs_serve_in_order(st: RunState, i: int, size: int)
    requires
        0 <= i < st.spare.len(),
        st.sizes[st.spare[i]] >= size,
        forall|j: int| 0 <= j < i ==> st.sizes[#[trigger] st.spare[j]] < size,
    ensures
        st.fit(size) == Some(i),
{
    lemma_passed_over(st, 0, i, size);
}

proof fn lemma_passed_over(st: RunState, from: int, i: int, size: int)
    requires
        0 <= from <= i < st.spare.len(),
        st.sizes[st.spare[i]] >= size,
        forall|j: int| from <= j < i ==> st.sizes[#[trigger] st.spare[j]] < size,
    ensures
        st.fit_from(from, size) == Some(i),
    decreases i - from,
{
    if from < i {
        assert(st.sizes[st.spare[from]] < size);
        lemma_passed_over(st, from + 1, i, size);
    }
}

/// Handing out a spare run makes it the client's, and no other.
pub proof fn lemma_taken(st: RunState, i: int)
    requires
        st.wf(),
        0 <= i < st.spare.len(),
    ensures
        st.taken(i).wf(),
        st.taken(i).held(st.spare[i]),
        forall|p: int| p != st.spare[i] ==> #[trigger] st.taken(i).held(p) == st.held(p),
{
    let n = st.taken(i);
    let q = st.spare[i];
    assert forall|j: int| #![trigger n.spare[j]] 0 <= j < n.spare.len() implies n.spare[j] == st.spare[if j < i {
        j
    } else {
        j + 1
    }] by {};
    if n.spare.contains(q) {
        let j = n.spare.index_of(q);
        assert(n.spare[j] == q);
    }
    assert forall|p: int| p != q implies #[trigger] n.held(p) == st.held(p) by {
        if st.spare.contains(p) {
            let j = st.spare.index_of(p);
            assert(st.spare[j] == p);
            assert(n.spare[if j < i {
                j
            } else {
                j - 1
            }] == p);
        }
        if n.spare.contains(p) {
            let j = n.spare.index_of(p);
            assert(n.spare[j] == p);
        }
    }
}

/// Giving a run back takes it from the client, and no other.
pub proof fn lemma_given_back(st: RunState, p: int)
    requires
        st.wf(),
    ensures
        st.given_back(p).wf(),
        !st.given_back(p).held(p),
        forall|q: int| q != p ==> #[trigger] st.given_back(p).held(q) == st.held(q),
{
    if st.held(p) {
        let n = st.given_back(p);
        assert(n.spare[st.spare.len() as int] == p);
        assert forall|q: int| q != p implies #[trigger] n.held(q) == st.held(q) by {
            if st.spare.contains(q) {
                let j = st.spare.index_of(q);
                assert(n.spare[j] == q);
            }
            if n.spare.contains(q) {
                let j = n.spare.index_of(q);
                assert(st.spare[j] == q);
            }
        }
    }
}

/// A run that has been given back fits what it fitted before.
pub proof fn lemma_spare_fits(st: RunState, p: int, size: int)
    requires
        st.wf(),
        st.spare.contains(p),
        st.sizes[p] >= size,
    ensures
        st.fit(size) is Some,
{
    lemma_fit(st, 0, size);
    let j = st.spare.index_of(p);
    assert(st.spare[j] == p);
}

/// The size of a run, and whether the client holds it.
#[derive(Clone, Copy)]
pub struct PageRun {
    pub size: usize,
    pub held: bool,
}

/// The runs of an arena.
pub struct PageRuns {
    runs: HashMap<usize, PageRun>,
    spare: Vec<usize>,
}

impl View for PageRuns {
    type V = RunState;

    closed spec fn view(&self) -> RunState {
        RunState {
            sizes: Map::new(
                |p: int| 0 <= p <= usize::MAX && self.runs@.dom().contains(p as usize),
                |p: int| self.runs@[p as usize].size as int,
            ),
            spare: self.spare@.map_values(|p: usize| p as int),
        }
    }
}

impl PageRuns {
    /// The records say which runs are spare.
    pub closed spec fn wf(self) -> bool {
        &&& self@.wf()
        &&& forall|p: usize| #[trigger]
            self.runs@.dom().contains(p) ==> self.runs@[p].held == !self.spare@.contains(p)
    }

    /// Spare runs by their addresses as numbers.
    proof fn lemma_spare(self, p: usize)
        ensures
            self@.spare.contains(p as int) == self.spare@.contains(p),
            self@.sizes.dom().contains(p as int) == self.runs@.dom().contains(p),
    {
        if self.spare@.contains(p) {
            let i = self.spare@.index_of(p);
            assert(self@.spare[i] == p);
        }
        if self@.spare.contains(p as int) {
            let i = self@.spare.index_of(p as int);
            assert(self.spare@[i] == p);
        }
    }

    /// No runs.
    pub fn new() -> (r: PageRuns)
        ensures
            r@ == RunState::empty(),
            r.wf(),
    {
        broadcast use vstd::std_specs::hash::group_hash_axioms;

        let r = PageRuns { runs: HashMap::new(), spare: Vec::new() };
        assert(r@ =~= RunState::empty());
        r
    }

    /// The size of the run at `p`, if the client holds it; 0 if not.
    pub fn size_of(&self, p: usize) -> (r: usize)
        requires
            self.wf(),
        ensures
            r == (if self@.held(p as int) {
                self@.sizes[p as int]
            } else {
                0
            }),
    {
        broadcast use vstd::std_specs::hash::group_hash_axioms;

        proof {
            self.lemma_spare(p);
        }
        match self.runs.get(&p) {
            Some(run) => if run.held {
                run.size
            } else {
                0
            },
            None => 0,
        }
    }

    /// Records a new run, which the client holds.
    pub fn grow(&mut self, p: usize, size: usize)
        requires
            old(self).wf(),
            !old(self)@.sizes.dom().contains(p as int),
        ensures
            final(self).wf(),
            final(self)@ == old(self)@.grown(p as int, size as int),
    {
        broadcast use vstd::std_specs::hash::group_hash_axioms;

        self.runs.insert(p, PageRun { size, held: true });
        proof {
            self.lemma_spare(p);
            old(self).lemma_spare(p);
            assert(self@ =~= old(self)@.grown(p as int, size as int));
            if self.spare@.contains(p) {
                let i = old(self)@.spare.index_of(p as int);
                assert(old(self)@.spare[i] == p);
            }
        }
    }

    /// Hands out the first spare run that has `size` bytes.
    pub fn take(&mut self, size: usize) -> (r: Option<usize>)
        requires
            old(self).wf(),
        ensures
            final(self).wf(),
            match old(self)@.fit(size as int) {
                Some(i) => r == Some(old(self)@.spare[i] as usize) && final(self)@ == old(self)@.taken(i)
                    && 0 <= old(self)@.spare[i] <= usize::MAX,
                None => r is None && *final(self) == *old(self),
            },
    {
        broadcast use vstd::std_specs::hash::group_hash_axioms;

        let mut i: usize = 0;
        while i < self.spare.len()
            invariant
                self.wf(),
                *self == *old(self),
                i <= self.spare@.len(),
                self@.fit(size as int) == self@.fit_from(i as int, size as int),
            decreases self.spare@.len() - i,
        {
            let p: usize = self.spare[i];
            let ghost st = self@;
            proof {
                assert(st.spare[i as int] == p);
                assert(st.sizes.dom().contains(st.spare[i as int]));
                assert(self.spare@.contains(p));
            }
            let run: PageRun = match self.runs.get(&p) {
                Some(run) => *run,
                None => PageRun { size: 0, held: false },
            };
            if run.size >= size {
                self.spare.remove(i);
                self.runs.insert(p, PageRun { size: run.size, held: true });
                proof {
                    lemma_taken(st, i as int);
                    assert(self@.spare =~= st.spare.remove(i as int));
                    assert(self@.sizes =~= st.sizes);
                    assert(self@ == st.taken(i as int));
                    assert forall|q: usize| #[trigger] self.runs@.dom().contains(q) implies self.runs@[q].held
                        == !self.spare@.contains(q) by {
                        self.lemma_spare(q);
                        old(self).lemma_spare(q);
                        if q != p {
                            assert(self@.held(q as int) == st.held(q as int));
                        } else {
                            assert(self@.held(q as int));
                        }
                    }
                }
                return Some(p);
            }
            i = i + 1;
        }
        None
    }

    /// Takes the run at `p` back from the client, if the client holds it.
    pub fn give_back(&mut self, p: usize)
        requires
            old(self).wf(),
        ensures
            final(self).wf(),
            final(self)@ == old(self)@.given_back(p as int),
    {
        broadcast use vstd::std_specs::hash::group_hash_axioms;

        proof {
            self.lemma_spare(p);
        }
        let run: PageRun = match self.runs.get(&p) {
            Some(run) => *run,
            None => PageRun { size: 0, held: false },
        };
        if run.held {
            self.spare.push(p);
            self.runs.insert(p, PageRun { size: run.size, held: false });
            proof {
                let st = old(self)@;
                lemma_given_back(st, p as int);
                assert(self@.spare =~= st.spare.push(p as int));
                assert(self@.sizes =~= st.sizes);
                assert(self@ == st.given_back(p as int));
                assert forall|q: usize| #[trigger] self.runs@.dom().contains(q) implies self.runs@[q].held
                    == !self.spare@.contains(q) by {
                    self.lemma_spare(q);
                    old(self).lemma_spare(q);
                    if q != p {
                        assert(self@.held(q as int) == st.held(q as int));
                    } else {
                        assert(!self@.held(q as int));
                    }
                }
            }
        }
    }
}

} // verus!
