//! The mathematical model of a solver: what it tracks, and how each transition changes it.
use crate::fragment::Status;
use crate::solver::Decision;
use vstd::prelude::*;

verus! {

/// Where a known fragment stands when it is not punted.
#[derive(Clone, Copy, Debug, PartialEq, Eq, Structural)]
pub enum Phase {
    /// Waiting to be examined.
    Queued,
    /// Taken for examination; its dependencies have not been reported yet.
    Examining,
    /// Handed out for evaluation; the outcome has not been reported yet.
    Evaluating,
    /// Evaluated, or assumed to be.
    Solved,
}

/// The abstract state of a solver.
pub struct SolverView {
    /// Phase of every known fragment that is not punted.
    pub phase: Map<usize, Phase>,
    /// Punted fragments, each with the number of its recorded dependencies not yet solved.
    pub punted: Map<usize, usize>,
    /// For a dependency, the fragments punted on it, once for each time they list it.
    pub pending_on: Map<usize, Seq<usize>>,
    /// The dependencies last reported for each examined fragment.
    pub recorded: Map<usize, Seq<usize>>,
    /// Every fragment that was ever handed out for evaluation.
    pub evaluated: Set<usize>,
    /// Fragments that were assumed solved rather than evaluated.
    pub assumed: Set<usize>,
    /// Fragments enqueued by the caller.
    pub roots: Set<usize>,
    /// Every pair of a fragment and a dependency ever reported for it.
    pub reported: Set<(usize, usize)>,
    /// For each solved fragment, when it was solved.
    pub rank: Map<usize, nat>,
    /// The number of fragments solved so far.
    pub clock: nat,
}

/// Number of times `x` occurs in `s`.
pub open spec fn occurrences(s: Seq<usize>, x: usize) -> nat
    decreases s.len(),
{
    if s.len() == 0 {
        0
    } else {
        occurrences(s.drop_last(), x) + if s.last() == x {
            1nat
        } else {
            0nat
        }
    }
}

/// The sequence of `n` copies of `x`.
pub open spec fn copies(x: usize, n: nat) -> Seq<usize> {
    Seq::new(n, |i: int| x)
}

impl SolverView {
    pub open spec fn has_phase(self, k: usize, p: Phase) -> bool {
        self.phase.contains_key(k) && self.phase[k] == p
    }

    pub open spec fn is_solved(self, k: usize) -> bool {
        self.has_phase(k, Phase::Solved)
    }

    /// A fragment is known once it has been enqueued, discovered or assumed.
    pub open spec fn is_known(self, k: usize) -> bool {
        self.phase.contains_key(k) || self.punted.contains_key(k)
    }

    pub open spec fn to_solve(self) -> Set<usize> {
        Set::new(|k: usize| self.has_phase(k, Phase::Queued))
    }

    pub open spec fn solved(self) -> Set<usize> {
        Set::new(|k: usize| self.is_solved(k))
    }

    pub open spec fn in_flight(self) -> Set<usize> {
        Set::new(
            |k: usize| self.has_phase(k, Phase::Examining) || self.has_phase(k, Phase::Evaluating),
        )
    }

    /// The fragments punted on `d`, with repetitions.
    pub open spec fn pending(self, d: usize) -> Seq<usize> {
        if self.pending_on.contains_key(d) {
            self.pending_on[d]
        } else {
            Seq::empty()
        }
    }

    /// The elements of `deps` that are not solved, in order.
    pub open spec fn unsolved(self, deps: Seq<usize>) -> Seq<usize>
        decreases deps.len(),
    {
        if deps.len() == 0 {
            Seq::empty()
        } else if self.is_solved(deps.last()) {
            self.unsolved(deps.drop_last())
        } else {
            self.unsolved(deps.drop_last()).push(deps.last())
        }
    }

    pub open spec fn status(self) -> Status {
        if self.to_solve().is_empty() {
            if self.punted.dom().is_empty() {
                Status::Done
            } else {
                Status::DoneWithCycles
            }
        } else {
            Status::Pending
        }
    }

    /// Nothing is left to examine and no step is in flight.
    pub open spec fn is_quiescent(self) -> bool {
        self.to_solve().is_empty() && self.in_flight().is_empty()
    }

    /// The empty solver.
    pub open spec fn initial() -> SolverView {
        SolverView {
            phase: Map::empty(),
            punted: Map::empty(),
            pending_on: Map::empty(),
            recorded: Map::empty(),
            evaluated: Set::empty(),
            assumed: Set::empty(),
            roots: Set::empty(),
            reported: Set::empty(),
            rank: Map::empty(),
            clock: 0,
        }
    }

    /// Enqueueing `k`: a fragment not known yet is queued; anything else is left as it is.
    pub open spec fn enqueue(self, k: usize) -> SolverView {
        SolverView {
            phase: if self.is_known(k) {
                self.phase
            } else {
                self.phase.insert(k, Phase::Queued)
            },
            roots: self.roots.insert(k),
            ..self
        }
    }

    /// Taking the queued fragment `k` for examination.
    pub open spec fn take(self, k: usize) -> SolverView {
        SolverView { phase: self.phase.insert(k, Phase::Examining), ..self }
    }

    /// Handing out `k`, whose dependencies `deps` are all solved, for evaluation.
    pub open spec fn hand_out(self, k: usize, deps: Seq<usize>) -> SolverView {
        SolverView {
            phase: self.phase.insert(k, Phase::Evaluating),
            recorded: self.recorded.insert(k, deps),
            reported: self.reported_with(k, deps),
            evaluated: self.evaluated.insert(k),
            ..self
        }
    }

    /// Punting `k`, whose dependencies `deps` are not all solved: it waits on each unsolved
    /// one, and those of them that are not known yet are queued.
    pub open spec fn punt(self, k: usize, deps: Seq<usize>) -> SolverView {
        let rest = self.unsolved(deps);
        SolverView {
            phase: Map::new(
                |x: usize| (self.phase.contains_key(x) && x != k) || (rest.contains(x) && !self.is_known(x)),
                |x: usize|
                    if self.phase.contains_key(x) {
                        self.phase[x]
                    } else {
                        Phase::Queued
                    },
            ),
            punted: self.punted.insert(k, rest.len() as usize),
            pending_on: Map::new(
                |x: usize| self.pending_on.contains_key(x) || rest.contains(x),
                |x: usize| self.pending(x) + copies(k, occurrences(rest, x)),
            ),
            recorded: self.recorded.insert(k, deps),
            reported: self.reported_with(k, deps),
            ..self
        }
    }

    /// The reported pairs once `deps` is reported for `k`.
    pub open spec fn reported_with(self, k: usize, deps: Seq<usize>) -> Set<(usize, usize)> {
        self.reported.union(Set::new(|e: (usize, usize)| e.0 == k && deps.contains(e.1)))
    }

    /// `p` runs from an enqueued fragment along reported dependencies.
    pub open spec fn is_discovery_path(self, p: Seq<usize>) -> bool {
        &&& p.len() > 0
        &&& self.roots.contains(p[0])
        &&& forall|i: int| 0 <= i < p.len() - 1 ==> self.reported.contains((#[trigger] p[i], p[i + 1]))
    }

    /// `x` was assumed, or was reached from an enqueued fragment along reported dependencies.
    pub open spec fn is_discovered(self, x: usize) -> bool {
        self.assumed.contains(x) || exists|p: Seq<usize>| #[trigger] self.is_discovery_path(p) && p.last() == x
    }

    /// Reporting the dependencies `deps` of `k`: a fragment taken for examination is handed
    /// out when they are all solved and punted otherwise; anything else is left as it is.
    pub open spec fn record(self, k: usize, deps: Seq<usize>) -> SolverView {
        if !self.has_phase(k, Phase::Examining) {
            self
        } else if self.unsolved(deps).len() == 0 {
            self.hand_out(k, deps)
        } else {
            self.punt(k, deps)
        }
    }

    /// What reporting the dependencies `deps` of `k` decides.
    pub open spec fn decide(self, k: usize, deps: Seq<usize>) -> Decision {
        if !self.has_phase(k, Phase::Examining) {
            Decision::Ignored
        } else if self.unsolved(deps).len() == 0 {
            Decision::Evaluate
        } else {
            Decision::Punted
        }
    }

    /// Whether the punted fragment `k` is released when `d` is solved: every one of its
    /// outstanding dependencies is an occurrence of `d`.
    pub open spec fn released_by(self, d: usize, k: usize) -> bool {
        self.punted.contains_key(k) && k != d && self.punted[k] <= occurrences(self.pending(d), k)
    }

    /// Solving `d`: it becomes solved, each fragment punted on it has its count lowered by
    /// the number of times it waits on `d`, and those whose count reaches zero are queued.
    pub open spec fn solve(self, d: usize) -> SolverView {
        if self.is_solved(d) {
            self
        } else {
            SolverView {
                phase: Map::new(
                    |x: usize| self.phase.contains_key(x) || x == d || self.released_by(d, x),
                    |x: usize|
                        if x == d {
                            Phase::Solved
                        } else if self.phase.contains_key(x) {
                            self.phase[x]
                        } else {
                            Phase::Queued
                        },
                ),
                punted: Map::new(
                    |x: usize| self.punted.contains_key(x) && x != d && !self.released_by(d, x),
                    |x: usize| (self.punted[x] - occurrences(self.pending(d), x)) as usize,
                ),
                pending_on: self.pending_on.remove(d),
                rank: self.rank.insert(d, self.clock),
                clock: self.clock + 1,
                ..self
            }
        }
    }

    /// Assuming `d` solved without evaluating it.
    pub open spec fn assume_solved(self, d: usize) -> SolverView {
        if self.is_solved(d) {
            self
        } else {
            SolverView { assumed: self.assumed.insert(d), ..self.solve(d) }
        }
    }

    /// The invariant that every reachable state keeps.
    pub open spec fn inv(self) -> bool {
        &&& self.phase.dom().finite()
        &&& self.punted.dom().finite()
        &&& self.phase.dom().disjoint(self.punted.dom())
        &&& forall|k: usize| #[trigger]
            self.punted.contains_key(k) ==> {
                &&& self.punted[k] > 0
                &&& self.recorded.contains_key(k)
                &&& self.punted[k] == self.unsolved(self.recorded[k]).len()
                &&& forall|j: int|
                    0 <= j < self.recorded[k].len() ==> self.is_known(#[trigger] self.recorded[k][j])
            }
        &&& forall|k: usize, d: usize|
            self.punted.contains_key(k) && !self.is_solved(d) ==> occurrences(
                #[trigger] self.pending(d),
                k,
            ) == occurrences(#[trigger] self.recorded[k], d)
        &&& forall|d: usize| #[trigger] self.pending_on.contains_key(d) ==> !self.is_solved(d)
        &&& forall|d: usize, j: int|
            self.pending_on.contains_key(d) && 0 <= j < self.pending_on[d].len() ==> {
                let k = #[trigger] self.pending_on[d][j];
                self.punted.contains_key(k) || self.is_solved(k)
            }
        &&& forall|k: usize| #[trigger]
            self.has_phase(k, Phase::Evaluating) ==> self.recorded.contains_key(k)
                && self.all_solved_before(self.recorded[k], self.clock)
        &&& forall|k: usize| #[trigger]
            self.is_solved(k) ==> self.rank.contains_key(k) && self.rank[k] < self.clock
        &&& forall|k: usize| #[trigger]
            self.is_solved(k) && !self.assumed.contains(k) ==> self.recorded.contains_key(k)
                && self.all_solved_before(self.recorded[k], self.rank[k])
        &&& forall|k: usize| #[trigger] self.assumed.contains(k) ==> self.is_solved(k)
        &&& forall|k: usize| #[trigger]
            self.evaluated.contains(k) ==> self.has_phase(k, Phase::Evaluating) || self.is_solved(
                k,
            )
        &&& forall|k: usize| #[trigger] self.roots.contains(k) ==> self.is_known(k)
        &&& forall|k: usize| #[trigger] self.is_known(k) ==> self.is_discovered(k)
    }

    /// Every element of `deps` was solved before time `t`.
    pub open spec fn all_solved_before(self, deps: Seq<usize>, t: nat) -> bool {
        forall|j: int|
            0 <= j < deps.len() ==> self.is_solved(#[trigger] deps[j]) && self.rank[deps[j]] < t
    }
}

impl SolverView {
    /// Two states that agree on which fragments are solved agree on what is unsolved.
    pub proof fn lemma_unsolved_frame(self, other: SolverView, deps: Seq<usize>)
        requires
            forall|x: usize| self.is_solved(x) == other.is_solved(x),
        ensures
            self.unsolved(deps) == other.unsolved(deps),
        decreases deps.len(),
    {
        if deps.len() > 0 {
            self.lemma_unsolved_frame(other, deps.drop_last());
        }
    }

    /// Discovery survives more roots, more reported pairs and more assumptions.
    pub proof fn lemma_discovered_grows(self, n: SolverView, x: usize)
        requires
            self.is_discovered(x),
            self.roots.subset_of(n.roots),
            self.reported.subset_of(n.reported),
            self.assumed.subset_of(n.assumed),
        ensures
            n.is_discovered(x),
    {
        if !n.assumed.contains(x) {
            let p = choose|p: Seq<usize>| #[trigger] self.is_discovery_path(p) && p.last() == x;
            assert forall|i: int| 0 <= i < p.len() - 1 implies n.reported.contains((#[trigger] p[i], p[i + 1])) by {
                assert(self.reported.contains((p[i], p[i + 1])));
            }
            assert(n.is_discovery_path(p));
        }
    }

    /// A reported dependency of a fragment reached from an enqueued one is reached too.
    pub proof fn lemma_discovered_extend(self, k: usize, x: usize)
        requires
            self.is_discovered(k),
            !self.assumed.contains(k),
            self.reported.contains((k, x)),
        ensures
            self.is_discovered(x),
    {
        let p = choose|p: Seq<usize>| #[trigger] self.is_discovery_path(p) && p.last() == k;
        let q = p.push(x);
        assert forall|i: int| 0 <= i < q.len() - 1 implies self.reported.contains((#[trigger] q[i], q[i + 1])) by {
            if i < p.len() - 1 {
                assert(q[i] == p[i] && q[i + 1] == p[i + 1]);
            } else {
                assert(q[i] == k && q[i + 1] == x);
            }
        }
        assert(self.is_discovery_path(q));
        assert(q.last() == x);
    }

    /// Reporting the dependencies of a fragment taken for examination keeps every known
    /// fragment discovered, when the fragments it adds are among those dependencies.
    pub proof fn lemma_report_keeps_discovery(self, n: SolverView, k: usize, deps: Seq<usize>)
        requires
            self.inv(),
            self.has_phase(k, Phase::Examining),
            n.roots == self.roots,
            n.assumed == self.assumed,
            n.reported == self.reported_with(k, deps),
            forall|x: usize| n.is_known(x) ==> self.is_known(x) || deps.contains(x),
        ensures
            forall|x: usize| #[trigger] n.is_known(x) ==> n.is_discovered(x),
    {
        assert(self.is_known(k));
        assert(!self.assumed.contains(k)) by {
            if self.assumed.contains(k) {
                assert(self.is_solved(k));
            }
        }
        self.lemma_discovered_grows(n, k);
        assert forall|x: usize| #[trigger] n.is_known(x) implies n.is_discovered(x) by {
            if self.is_known(x) {
                self.lemma_discovered_grows(n, x);
            } else {
                assert(n.reported.contains((k, x)));
                n.lemma_discovered_extend(k, x);
            }
        }
    }

    /// A change of phases that solves nothing, hands nothing out and forgets nothing keeps
    /// the invariant.
    pub proof fn lemma_reshuffle_keeps_inv(self, n: SolverView)
        requires
            self.inv(),
            n.punted == self.punted,
            n.pending_on == self.pending_on,
            n.recorded == self.recorded,
            n.evaluated == self.evaluated,
            n.assumed == self.assumed,
            n.rank == self.rank,
            n.clock == self.clock,
            n.phase.dom().finite(),
            self.phase.dom().subset_of(n.phase.dom()),
            n.phase.dom().disjoint(n.punted.dom()),
            forall|x: usize| self.is_solved(x) == n.is_solved(x),
            forall|x: usize| n.has_phase(x, Phase::Evaluating) ==> self.has_phase(x, Phase::Evaluating),
            forall|x: usize| self.evaluated.contains(x) ==> n.has_phase(x, Phase::Evaluating) || n.is_solved(x),
            forall|x: usize| n.roots.contains(x) ==> n.is_known(x),
            n.reported == self.reported,
            self.roots.subset_of(n.roots),
            forall|x: usize| n.is_known(x) && !self.is_known(x) ==> n.roots.contains(x),
        ensures
            n.inv(),
    {
        assert forall|x: usize| #[trigger] n.is_known(x) implies n.is_discovered(x) by {
            if self.is_known(x) {
                self.lemma_discovered_grows(n, x);
            } else {
                let p = seq![x];
                assert(n.is_discovery_path(p));
            }
        }
        assert forall|deps: Seq<usize>| self.unsolved(deps) == n.unsolved(deps) by {
            self.lemma_unsolved_frame(n, deps);
        }
        assert forall|k: usize| #[trigger] n.punted.contains_key(k) implies {
            &&& n.punted[k] > 0
            &&& n.recorded.contains_key(k)
            &&& n.punted[k] == n.unsolved(n.recorded[k]).len()
            &&& forall|j: int| 0 <= j < n.recorded[k].len() ==> n.is_known(#[trigger] n.recorded[k][j])
        } by {
            assert(self.unsolved(self.recorded[k]) == n.unsolved(n.recorded[k]));
            assert forall|j: int| 0 <= j < n.recorded[k].len() implies n.is_known(#[trigger] n.recorded[k][j]) by {
                assert(self.is_known(self.recorded[k][j]));
            }
        }
        assert forall|k: usize, d: usize| n.punted.contains_key(k) && !n.is_solved(d) implies occurrences(
            #[trigger] n.pending(d), k) == occurrences(#[trigger] n.recorded[k], d) by {
            assert(n.pending(d) == self.pending(d));
            assert(occurrences(self.pending(d), k) == occurrences(self.recorded[k], d));
        }
        assert forall|d: usize, j: int| n.pending_on.contains_key(d) && 0 <= j < n.pending_on[d].len() implies {
            let k = #[trigger] n.pending_on[d][j];
            n.punted.contains_key(k) || n.is_solved(k)
        } by {
            let k = self.pending_on[d][j];
            assert(self.punted.contains_key(k) || self.is_solved(k));
        }
        assert forall|k: usize| #[trigger] n.has_phase(k, Phase::Evaluating) implies n.recorded.contains_key(k)
            && n.all_solved_before(n.recorded[k], n.clock) by {
            assert(self.has_phase(k, Phase::Evaluating));
            assert forall|j: int| 0 <= j < n.recorded[k].len() implies n.is_solved(#[trigger] n.recorded[k][j])
                && n.rank[n.recorded[k][j]] < n.clock by {
                assert(self.is_solved(self.recorded[k][j]));
            }
        }
        assert forall|k: usize| #[trigger] n.is_solved(k) implies n.rank.contains_key(k) && n.rank[k] < n.clock by {
            assert(self.is_solved(k));
        }
        assert forall|k: usize| #[trigger] n.is_solved(k) && !n.assumed.contains(k) implies n.recorded.contains_key(k)
            && n.all_solved_before(n.recorded[k], n.rank[k]) by {
            assert(self.is_solved(k));
            assert forall|j: int| 0 <= j < n.recorded[k].len() implies n.is_solved(#[trigger] n.recorded[k][j])
                && n.rank[n.recorded[k][j]] < n.rank[k] by {
                assert(self.is_solved(self.recorded[k][j]));
            }
        }
        assert forall|k: usize| #[trigger] n.assumed.contains(k) implies n.is_solved(k) by {
            assert(self.is_solved(k));
        }
    }

    pub proof fn lemma_enqueue_keeps_inv(self, k: usize)
        requires
            self.inv(),
        ensures
            self.enqueue(k).inv(),
    {
        let n = self.enqueue(k);
        assert forall|x: usize| n.roots.contains(x) implies n.is_known(x) by {
            if x != k {
                assert(self.roots.contains(x));
            }
        }
        self.lemma_reshuffle_keeps_inv(n);
    }

    pub proof fn lemma_take_keeps_inv(self, k: usize)
        requires
            self.inv(),
            self.has_phase(k, Phase::Queued),
        ensures
            self.take(k).inv(),
    {
        let n = self.take(k);
        assert forall|x: usize| n.roots.contains(x) implies n.is_known(x) by {
            assert(self.roots.contains(x));
        }
        self.lemma_reshuffle_keeps_inv(n);
    }
}

/// Counting the occurrences in a prefix one element longer.
pub proof fn lemma_occurrences_take(s: Seq<usize>, i: int, x: usize)
    requires
        0 <= i < s.len(),
    ensures
        occurrences(s.take(i + 1), x) == occurrences(s.take(i), x) + if s[i] == x {
            1nat
        } else {
            0nat
        },
{
    assert(s.take(i + 1).drop_last() =~= s.take(i));
}

/// An element that does not occur is at no index.
pub proof fn lemma_occurrences_zero(s: Seq<usize>, x: usize)
    requires
        occurrences(s, x) == 0,
    ensures
        forall|j: int| 0 <= j < s.len() ==> s[j] != x,
    decreases s.len(),
{
    if s.len() > 0 {
        lemma_occurrences_zero(s.drop_last(), x);
        assert forall|j: int| 0 <= j < s.len() implies s[j] != x by {
            if j < s.len() - 1 {
                assert(s.drop_last()[j] == s[j]);
            }
        }
    }
}

/// An element at some index occurs.
pub proof fn lemma_occurrences_positive(s: Seq<usize>, j: int)
    requires
        0 <= j < s.len(),
    ensures
        occurrences(s, s[j]) > 0,
{
    if occurrences(s, s[j]) == 0 {
        lemma_occurrences_zero(s, s[j]);
    }
}

/// The occurrences of `n` copies of `k`.
pub proof fn lemma_occurrences_copies(k: usize, n: nat, x: usize)
    ensures
        occurrences(copies(k, n), x) == if x == k {
            n
        } else {
            0
        },
    decreases n,
{
    if n > 0 {
        assert(copies(k, n).drop_last() =~= copies(k, (n - 1) as nat));
        lemma_occurrences_copies(k, (n - 1) as nat, x);
    }
}

/// Occurrences add up over a concatenation.
pub proof fn lemma_occurrences_add(a: Seq<usize>, b: Seq<usize>, x: usize)
    ensures
        occurrences(a + b, x) == occurrences(a, x) + occurrences(b, x),
    decreases b.len(),
{
    if b.len() == 0 {
        assert(a + b =~= a);
    } else {
        assert((a + b).drop_last() =~= a + b.drop_last());
        lemma_occurrences_add(a, b.drop_last(), x);
    }
}

impl SolverView {
    /// Solving `d` removes from the unsolved part of `s` exactly the occurrences of `d`.
    pub proof fn lemma_unsolved_after_solving(self, other: SolverView, s: Seq<usize>, d: usize)
        requires
            !self.is_solved(d),
            forall|x: usize| other.is_solved(x) == (self.is_solved(x) || x == d),
        ensures
            self.unsolved(s).len() == other.unsolved(s).len() + occurrences(s, d),
        decreases s.len(),
    {
        if s.len() > 0 {
            self.lemma_unsolved_after_solving(other, s.drop_last(), d);
        }
    }

    /// Two distinct unsolved fragments together occur no more often in `s` than its
    /// unsolved elements.
    pub proof fn lemma_two_unsolved(self, s: Seq<usize>, d: usize, e: usize)
        requires
            !self.is_solved(d),
            !self.is_solved(e),
            d != e,
        ensures
            occurrences(s, d) + occurrences(s, e) <= self.unsolved(s).len(),
        decreases s.len(),
    {
        if s.len() > 0 {
            self.lemma_two_unsolved(s.drop_last(), d, e);
        }
    }

    /// Every element of the unsolved part of `s` is an unsolved element of `s`.
    pub proof fn lemma_unsolved_elements(self, s: Seq<usize>)
        ensures
            forall|j: int|
                0 <= j < self.unsolved(s).len() ==> s.contains(#[trigger] self.unsolved(s)[j])
                    && !self.is_solved(self.unsolved(s)[j]),
            forall|x: usize| s.contains(x) && !self.is_solved(x) ==> self.unsolved(s).contains(x),
            self.unsolved(s).len() <= s.len(),
        decreases s.len(),
    {
        if s.len() > 0 {
            let p = s.drop_last();
            self.lemma_unsolved_elements(p);
            let u = self.unsolved(s);
            assert forall|j: int| 0 <= j < u.len() implies s.contains(#[trigger] u[j]) && !self.is_solved(u[j]) by {
                if j < self.unsolved(p).len() {
                    assert(u[j] == self.unsolved(p)[j]);
                    let i = choose|i: int| 0 <= i < p.len() && p[i] == u[j];
                    assert(s[i] == u[j]);
                } else {
                    assert(u[j] == s.last());
                    assert(s[s.len() - 1] == u[j]);
                }
            }
            assert forall|x: usize| s.contains(x) && !self.is_solved(x) implies u.contains(x) by {
                let i = choose|i: int| 0 <= i < s.len() && s[i] == x;
                if i < s.len() - 1 {
                    assert(p[i] == x);
                    let j = choose|j: int| 0 <= j < self.unsolved(p).len() && self.unsolved(p)[j] == x;
                    assert(u[j] == x);
                } else {
                    assert(u[u.len() - 1] == x);
                }
            }
        }
    }

    /// Solving `d` keeps the invariant, when `d` is handed out for evaluation or assumed.
    pub proof fn lemma_solve_keeps_inv(self, d: usize, assumed: Set<usize>)
        requires
            self.inv(),
            !self.is_solved(d),
            assumed == self.assumed || assumed == self.assumed.insert(d),
            assumed.contains(d) || self.has_phase(d, Phase::Evaluating),
        ensures
            (SolverView { assumed, ..self.solve(d) }).inv(),
    {
        let n = SolverView { assumed, ..self.solve(d) };
        assert forall|x: usize| n.is_solved(x) == (self.is_solved(x) || x == d) by {}
        let big = self.phase.dom().insert(d).union(self.punted.dom());
        assert(n.phase.dom() =~= big.intersect(n.phase.dom()));
        assert(n.punted.dom() =~= self.punted.dom().intersect(n.punted.dom()));
        assert forall|k: usize| #[trigger] n.punted.contains_key(k) implies {
            &&& n.punted[k] > 0
            &&& n.recorded.contains_key(k)
            &&& n.punted[k] == n.unsolved(n.recorded[k]).len()
            &&& forall|j: int| 0 <= j < n.recorded[k].len() ==> n.is_known(#[trigger] n.recorded[k][j])
        } by {
            assert(occurrences(self.pending(d), k) == occurrences(self.recorded[k], d));
            self.lemma_unsolved_after_solving(n, self.recorded[k], d);
            assert forall|j: int| 0 <= j < n.recorded[k].len() implies n.is_known(#[trigger] n.recorded[k][j]) by {
                assert(self.is_known(self.recorded[k][j]));
            }
        }
        assert forall|k: usize, e: usize| n.punted.contains_key(k) && !n.is_solved(e) implies occurrences(
            #[trigger] n.pending(e), k) == occurrences(#[trigger] n.recorded[k], e) by {
            assert(n.pending(e) == self.pending(e));
            assert(occurrences(self.pending(e), k) == occurrences(self.recorded[k], e));
        }
        assert forall|e: usize, j: int| n.pending_on.contains_key(e) && 0 <= j < n.pending_on[e].len() implies {
            let k = #[trigger] n.pending_on[e][j];
            n.punted.contains_key(k) || n.is_solved(k)
        } by {
            let k = self.pending_on[e][j];
            assert(self.punted.contains_key(k) || self.is_solved(k));
            if self.punted.contains_key(k) && k != d && self.released_by(d, k) {
                // every outstanding dependency of `k` is `d`, so `k` waits on nothing else
                assert(occurrences(self.pending(d), k) == occurrences(self.recorded[k], d));
                self.lemma_two_unsolved(self.recorded[k], d, e);
                assert(occurrences(self.pending(e), k) == occurrences(self.recorded[k], e));
                assert(self.pending(e) == self.pending_on[e]);
                lemma_occurrences_positive(self.pending_on[e], j);
            }
        }
        assert forall|k: usize| #[trigger] n.has_phase(k, Phase::Evaluating) implies n.recorded.contains_key(k)
            && n.all_solved_before(n.recorded[k], n.clock) by {
            assert(self.has_phase(k, Phase::Evaluating));
            assert forall|j: int| 0 <= j < n.recorded[k].len() implies n.is_solved(#[trigger] n.recorded[k][j])
                && n.rank[n.recorded[k][j]] < n.clock by {
                assert(self.is_solved(self.recorded[k][j]));
            }
        }
        assert forall|k: usize| #[trigger] n.is_solved(k) implies n.rank.contains_key(k) && n.rank[k] < n.clock by {
            if k != d {
                assert(self.is_solved(k));
            }
        }
        assert forall|k: usize| #[trigger] n.is_solved(k) && !n.assumed.contains(k) implies n.recorded.contains_key(k)
            && n.all_solved_before(n.recorded[k], n.rank[k]) by {
            if k == d {
                assert(self.has_phase(d, Phase::Evaluating));
                assert forall|j: int| 0 <= j < n.recorded[k].len() implies n.is_solved(#[trigger] n.recorded[k][j])
                    && n.rank[n.recorded[k][j]] < n.rank[k] by {
                    assert(self.is_solved(self.recorded[k][j]));
                }
            } else {
                assert(self.is_solved(k));
                assert forall|j: int| 0 <= j < n.recorded[k].len() implies n.is_solved(#[trigger] n.recorded[k][j])
                    && n.rank[n.recorded[k][j]] < n.rank[k] by {
                    assert(self.is_solved(self.recorded[k][j]));
                }
            }
        }
        assert forall|k: usize| #[trigger] n.assumed.contains(k) implies n.is_solved(k) by {
            if k != d {
                assert(self.is_solved(k));
            }
        }
        assert forall|k: usize| #[trigger] n.evaluated.contains(k) implies n.has_phase(k, Phase::Evaluating)
            || n.is_solved(k) by {
            assert(self.has_phase(k, Phase::Evaluating) || self.is_solved(k));
        }
        assert forall|k: usize| #[trigger] n.roots.contains(k) implies n.is_known(k) by {
            assert(self.is_known(k));
        }
        assert forall|x: usize| #[trigger] n.is_known(x) implies n.is_discovered(x) by {
            if self.is_known(x) {
                self.lemma_discovered_grows(n, x);
            }
        }
    }
}

/// An element at no index does not occur.
pub proof fn lemma_occurrences_absent(s: Seq<usize>, x: usize)
    requires
        forall|j: int| 0 <= j < s.len() ==> s[j] != x,
    ensures
        occurrences(s, x) == 0,
    decreases s.len(),
{
    if s.len() > 0 {
        assert forall|j: int| 0 <= j < s.drop_last().len() implies s.drop_last()[j] != x by {
            assert(s.drop_last()[j] == s[j]);
        }
        lemma_occurrences_absent(s.drop_last(), x);
    }
}

impl SolverView {
    /// An unsolved fragment occurs as often in the unsolved part of `s` as in `s`.
    pub proof fn lemma_unsolved_occurrences(self, s: Seq<usize>, e: usize)
        requires
            !self.is_solved(e),
        ensures
            occurrences(self.unsolved(s), e) == occurrences(s, e),
        decreases s.len(),
    {
        if s.len() > 0 {
            self.lemma_unsolved_occurrences(s.drop_last(), e);
            let u = self.unsolved(s.drop_last());
            assert(u.push(s.last()).drop_last() =~= u);
        }
    }

    /// Handing out a fragment whose dependencies are all solved keeps the invariant.
    pub proof fn lemma_hand_out_keeps_inv(self, k: usize, deps: Seq<usize>)
        requires
            self.inv(),
            self.has_phase(k, Phase::Examining),
            self.unsolved(deps).len() == 0,
        ensures
            self.hand_out(k, deps).inv(),
    {
        let n = self.hand_out(k, deps);
        assert forall|x: usize| self.is_solved(x) == n.is_solved(x) by {}
        assert forall|s: Seq<usize>| self.unsolved(s) == n.unsolved(s) by {
            self.lemma_unsolved_frame(n, s);
        }
        self.lemma_unsolved_elements(deps);
        assert forall|k2: usize| #[trigger] n.punted.contains_key(k2) implies {
            &&& n.punted[k2] > 0
            &&& n.recorded.contains_key(k2)
            &&& n.punted[k2] == n.unsolved(n.recorded[k2]).len()
            &&& forall|j: int| 0 <= j < n.recorded[k2].len() ==> n.is_known(#[trigger] n.recorded[k2][j])
        } by {
            assert(self.unsolved(self.recorded[k2]) == n.unsolved(n.recorded[k2]));
            assert forall|j: int| 0 <= j < n.recorded[k2].len() implies n.is_known(#[trigger] n.recorded[k2][j]) by {
                assert(self.is_known(self.recorded[k2][j]));
            }
        }
        assert forall|k2: usize, e: usize| n.punted.contains_key(k2) && !n.is_solved(e) implies occurrences(
            #[trigger] n.pending(e), k2) == occurrences(#[trigger] n.recorded[k2], e) by {
            assert(n.pending(e) == self.pending(e));
            assert(occurrences(self.pending(e), k2) == occurrences(self.recorded[k2], e));
        }
        assert forall|e: usize, j: int| n.pending_on.contains_key(e) && 0 <= j < n.pending_on[e].len() implies {
            let k2 = #[trigger] n.pending_on[e][j];
            n.punted.contains_key(k2) || n.is_solved(k2)
        } by {
            let k2 = self.pending_on[e][j];
            assert(self.punted.contains_key(k2) || self.is_solved(k2));
        }
        assert forall|k2: usize| #[trigger] n.has_phase(k2, Phase::Evaluating) implies n.recorded.contains_key(k2)
            && n.all_solved_before(n.recorded[k2], n.clock) by {
            if k2 == k {
                assert forall|j: int| 0 <= j < deps.len() implies n.is_solved(#[trigger] deps[j])
                    && n.rank[deps[j]] < n.clock by {
                    assert(deps.contains(deps[j]));
                    if !self.is_solved(deps[j]) {
                        assert(self.unsolved(deps).contains(deps[j]));
                    }
                }
            } else {
                assert(self.has_phase(k2, Phase::Evaluating));
                assert forall|j: int| 0 <= j < n.recorded[k2].len() implies n.is_solved(#[trigger] n.recorded[k2][j])
                    && n.rank[n.recorded[k2][j]] < n.clock by {
                    assert(self.is_solved(self.recorded[k2][j]));
                }
            }
        }
        assert forall|k2: usize| #[trigger] n.is_solved(k2) implies n.rank.contains_key(k2) && n.rank[k2] < n.clock by {
            assert(self.is_solved(k2));
        }
        assert forall|k2: usize| #[trigger] n.is_solved(k2) && !n.assumed.contains(k2) implies n.recorded.contains_key(k2)
            && n.all_solved_before(n.recorded[k2], n.rank[k2]) by {
            assert(self.is_solved(k2));
            assert forall|j: int| 0 <= j < n.recorded[k2].len() implies n.is_solved(#[trigger] n.recorded[k2][j])
                && n.rank[n.recorded[k2][j]] < n.rank[k2] by {
                assert(self.is_solved(self.recorded[k2][j]));
            }
        }
        assert forall|k2: usize| #[trigger] n.assumed.contains(k2) implies n.is_solved(k2) by {
            assert(self.is_solved(k2));
        }
        assert forall|k2: usize| #[trigger] n.evaluated.contains(k2) implies n.has_phase(k2, Phase::Evaluating)
            || n.is_solved(k2) by {
            if k2 != k {
                assert(self.has_phase(k2, Phase::Evaluating) || self.is_solved(k2));
            }
        }
        assert forall|k2: usize| #[trigger] n.roots.contains(k2) implies n.is_known(k2) by {
            assert(self.is_known(k2));
        }
        self.lemma_report_keeps_discovery(n, k, deps);
    }

    /// Punting a fragment that has an unsolved dependency keeps the invariant.
    pub proof fn lemma_punt_keeps_inv(self, k: usize, deps: Seq<usize>)
        requires
            self.inv(),
            self.has_phase(k, Phase::Examining),
            self.unsolved(deps).len() > 0,
            deps.len() <= usize::MAX,
        ensures
            self.punt(k, deps).inv(),
    {
        let n = self.punt(k, deps);
        let rest = self.unsolved(deps);
        assert forall|x: usize| self.is_solved(x) == n.is_solved(x) by {}
        assert forall|s: Seq<usize>| self.unsolved(s) == n.unsolved(s) by {
            self.lemma_unsolved_frame(n, s);
        }
        assert forall|x: usize| #[trigger] self.is_known(x) implies n.is_known(x) by {}
        self.lemma_unsolved_elements(deps);
        vstd::seq_lib::seq_to_set_is_finite(rest);
        let big = self.phase.dom().union(rest.to_set());
        assert(n.phase.dom() =~= big.intersect(n.phase.dom()));
        // `k` waits on nothing yet
        assert forall|e: usize| occurrences(#[trigger] self.pending(e), k) == 0 by {
            assert forall|j: int| 0 <= j < self.pending(e).len() implies self.pending(e)[j] != k by {
                let x = self.pending_on[e][j];
                assert(self.punted.contains_key(x) || self.is_solved(x));
            }
            lemma_occurrences_absent(self.pending(e), k);
        }
        assert forall|k2: usize| #[trigger] n.punted.contains_key(k2) implies {
            &&& n.punted[k2] > 0
            &&& n.recorded.contains_key(k2)
            &&& n.punted[k2] == n.unsolved(n.recorded[k2]).len()
            &&& forall|j: int| 0 <= j < n.recorded[k2].len() ==> n.is_known(#[trigger] n.recorded[k2][j])
        } by {
            if k2 == k {
                assert forall|j: int| 0 <= j < deps.len() implies n.is_known(#[trigger] deps[j]) by {
                    assert(deps.contains(deps[j]));
                    if !self.is_solved(deps[j]) {
                        assert(rest.contains(deps[j]));
                    }
                }
            } else {
                assert(self.unsolved(self.recorded[k2]) == n.unsolved(n.recorded[k2]));
                assert forall|j: int| 0 <= j < n.recorded[k2].len() implies n.is_known(#[trigger] n.recorded[k2][j]) by {
                    assert(self.is_known(self.recorded[k2][j]));
                }
            }
        }
        assert forall|k2: usize, e: usize| n.punted.contains_key(k2) && !n.is_solved(e) implies occurrences(
            #[trigger] n.pending(e), k2) == occurrences(#[trigger] n.recorded[k2], e) by {
            lemma_occurrences_copies(k, occurrences(rest, e), k2);
            if self.pending_on.contains_key(e) || rest.contains(e) {
                lemma_occurrences_add(self.pending(e), copies(k, occurrences(rest, e)), k2);
            } else {
                assert(occurrences(rest, e) == 0) by {
                    assert forall|j: int| 0 <= j < rest.len() implies rest[j] != e by {
                        assert(rest.contains(rest[j]));
                    }
                    lemma_occurrences_absent(rest, e);
                }
            }
            if k2 == k {
                self.lemma_unsolved_occurrences(deps, e);
            } else {
                assert(occurrences(self.pending(e), k2) == occurrences(self.recorded[k2], e));
            }
        }
        assert forall|e: usize| #[trigger] n.pending_on.contains_key(e) implies !n.is_solved(e) by {
            if !self.pending_on.contains_key(e) {
                let j = choose|j: int| 0 <= j < rest.len() && rest[j] == e;
                assert(!self.is_solved(rest[j]));
            }
        }
        assert forall|e: usize, j: int| n.pending_on.contains_key(e) && 0 <= j < n.pending_on[e].len() implies {
            let k2 = #[trigger] n.pending_on[e][j];
            n.punted.contains_key(k2) || n.is_solved(k2)
        } by {
            let a = self.pending(e);
            if j < a.len() {
                assert(n.pending_on[e][j] == a[j]);
                let x = self.pending_on[e][j];
                assert(self.punted.contains_key(x) || self.is_solved(x));
            } else {
                assert(n.pending_on[e][j] == k);
            }
        }
        assert forall|k2: usize| #[trigger] n.has_phase(k2, Phase::Evaluating) implies n.recorded.contains_key(k2)
            && n.all_solved_before(n.recorded[k2], n.clock) by {
            assert(self.has_phase(k2, Phase::Evaluating));
            assert forall|j: int| 0 <= j < n.recorded[k2].len() implies n.is_solved(#[trigger] n.recorded[k2][j])
                && n.rank[n.recorded[k2][j]] < n.clock by {
                assert(self.is_solved(self.recorded[k2][j]));
            }
        }
        assert forall|k2: usize| #[trigger] n.is_solved(k2) implies n.rank.contains_key(k2) && n.rank[k2] < n.clock by {
            assert(self.is_solved(k2));
        }
        assert forall|k2: usize| #[trigger] n.is_solved(k2) && !n.assumed.contains(k2) implies n.recorded.contains_key(k2)
            && n.all_solved_before(n.recorded[k2], n.rank[k2]) by {
            assert(self.is_solved(k2));
            assert forall|j: int| 0 <= j < n.recorded[k2].len() implies n.is_solved(#[trigger] n.recorded[k2][j])
                && n.rank[n.recorded[k2][j]] < n.rank[k2] by {
                assert(self.is_solved(self.recorded[k2][j]));
            }
        }
        assert forall|k2: usize| #[trigger] n.assumed.contains(k2) implies n.is_solved(k2) by {
            assert(self.is_solved(k2));
        }
        assert forall|k2: usize| #[trigger] n.evaluated.contains(k2) implies n.has_phase(k2, Phase::Evaluating)
            || n.is_solved(k2) by {
            assert(self.has_phase(k2, Phase::Evaluating) || self.is_solved(k2));
        }
        assert forall|k2: usize| #[trigger] n.roots.contains(k2) implies n.is_known(k2) by {
            assert(self.is_known(k2));
        }
        self.lemma_unsolved_elements(deps);
        self.lemma_report_keeps_discovery(n, k, deps);
    }
}

} // verus!
