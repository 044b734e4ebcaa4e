//! The solver's bookkeeping and its transitions.
use crate::fragment::{FragmentId, Status};
use crate::model::{copies, lemma_occurrences_take, occurrences, Phase, SolverView};
use std::collections::HashMap;
use vstd::prelude::*;
use vstd::std_specs::iter::IteratorSpec;

verus! {

/// What became of a fragment whose dependencies were reported.
#[derive(Clone, Copy, Debug, PartialEq, Eq, Structural)]
pub enum Decision {
    /// All of its dependencies are solved: evaluate it, then report the outcome.
    Evaluate,
    /// Some dependency is not solved yet: the fragment waits on it.
    Punted,
    /// The fragment was not waiting for its dependencies (it was never taken, or was
    /// assumed solved meanwhile): nothing changed.
    Ignored,
}

/// The bookkeeping of a hybrid push-pull solver.
///
/// A step of the solver is three calls: [`Solver::take_fragment`] picks a queued fragment,
/// [`Solver::record_dependencies`] receives its direct dependencies and decides whether it
/// is evaluated or punted, and [`Solver::record_evaluation`] receives the news that an
/// evaluation succeeded. Steps of different fragments may interleave freely.
pub struct Solver {
    phase: HashMap<usize, Phase>,
    to_solve: Vec<usize>,
    punted: HashMap<usize, usize>,
    pending_on: HashMap<usize, Vec<usize>>,
    recorded: Ghost<Map<usize, Seq<usize>>>,
    evaluated: Ghost<Set<usize>>,
    assumed: Ghost<Set<usize>>,
    roots: Ghost<Set<usize>>,
    reported: Ghost<Set<(usize, usize)>>,
    rank: Ghost<Map<usize, nat>>,
    clock: Ghost<nat>,
}

impl View for Solver {
    type V = SolverView;

    closed spec fn view(&self) -> SolverView {
        SolverView {
            phase: self.phase@,
            punted: self.punted@,
            pending_on: Map::new(
                |d: usize| self.pending_on@.contains_key(d),
                |d: usize| self.pending_on@[d]@,
            ),
            recorded: self.recorded@,
            evaluated: self.evaluated@,
            assumed: self.assumed@,
            roots: self.roots@,
            reported: self.reported@,
            rank: self.rank@,
            clock: self.clock@,
        }
    }
}

/// Pushing an element that is absent keeps a sequence free of duplicates.
proof fn lemma_push_fresh(s: Seq<usize>, x: usize)
    requires
        s.no_duplicates(),
        !s.contains(x),
    ensures
        s.push(x).no_duplicates(),
        forall|y: usize| s.push(x).contains(y) <==> (s.contains(y) || y == x),
{
    assert forall|y: usize| s.push(x).contains(y) implies (s.contains(y) || y == x) by {
        let j = choose|j: int| 0 <= j < s.push(x).len() && s.push(x)[j] == y;
        if j < s.len() {
            assert(s[j] == y);
        }
    }
    assert forall|y: usize| (s.contains(y) || y == x) implies s.push(x).contains(y) by {
        if y == x {
            assert(s.push(x)[s.len() as int] == y);
        } else {
            let j = choose|j: int| 0 <= j < s.len() && s[j] == y;
            assert(s.push(x)[j] == y);
        }
    }
}

/// Removes `x` from a sequence without duplicates.
fn remove_from_queue(q: &mut Vec<usize>, x: usize)
    requires
        old(q)@.no_duplicates(),
    ensures
        final(q)@.no_duplicates(),
        forall|y: usize| final(q)@.contains(y) <==> (old(q)@.contains(y) && y != x),
{
    let mut i: usize = 0;
    while i < q.len()
        invariant
            q@ == old(q)@,
            q@.no_duplicates(),
            0 <= i <= q.len(),
            forall|j: int| 0 <= j < i ==> q@[j] != x,
        decreases q.len() - i,
    {
        if q[i] == x {
            let ghost s = q@;
            q.remove(i);
            proof {
                assert(q@ == s.remove(i as int));
                assert(s[i as int] == x);
                assert forall|y: usize| q@.contains(y) <==> (s.contains(y) && y != x) by {
                    if q@.contains(y) {
                        let j = choose|j: int| 0 <= j < q@.len() && q@[j] == y;
                        if j < i {
                            assert(s[j] == y);
                            assert(s[j] != x);
                            assert(s.contains(y));
                        } else {
                            assert(s[j + 1] == y);
                            assert(j + 1 != i);
                            assert(s[j + 1] != s[i as int]);
                            assert(s.contains(y));
                        }
                    }
                    if s.contains(y) && y != x {
                        let j = choose|j: int| 0 <= j < s.len() && s[j] == y;
                        if j < i {
                            assert(q@[j] == y);
                        } else {
                            assert(j != i);
                            assert(q@[j - 1] == y);
                        }
                    }
                }
                assert forall|a: int, b: int| 0 <= a < q@.len() && 0 <= b < q@.len() && a != b implies q@[a] != q@[b] by {
                    let a2 = if a < i { a } else { a + 1 };
                    let b2 = if b < i { b } else { b + 1 };
                    assert(q@[a] == s[a2] && q@[b] == s[b2]);
                    assert(a2 != b2);
                }
            }
            return;
        }
        i = i + 1;
    }
    assert forall|y: usize| q@.contains(y) implies y != x by {
        let j = choose|j: int| 0 <= j < q@.len() && q@[j] == y;
    }
}

impl Solver {
    /// The queue holds each queued fragment once, and nothing else.
    pub closed spec fn queue_matches(&self) -> bool {
        &&& self.to_solve@.no_duplicates()
        &&& forall|k: usize| self.to_solve@.contains(k) <==> self@.has_phase(k, Phase::Queued)
    }

    /// The solver's state is consistent.
    pub open spec fn wf(&self) -> bool {
        self.queue_matches() && self@.inv()
    }

    /// A solver that tracks no fragment.
    pub fn new() -> (s: Solver)
        ensures
            s.wf(),
            s@ == SolverView::initial(),
    {
        let s = Solver {
            phase: HashMap::new(),
            to_solve: Vec::new(),
            punted: HashMap::new(),
            pending_on: HashMap::new(),
            recorded: Ghost(Map::empty()),
            evaluated: Ghost(Set::empty()),
            assumed: Ghost(Set::empty()),
            roots: Ghost(Set::empty()),
            reported: Ghost(Set::empty()),
            rank: Ghost(Map::empty()),
            clock: Ghost(0),
        };
        assert(s@.pending_on =~= Map::empty());
        s
    }

    /// `Done` when nothing is queued or punted, `DoneWithCycles` when nothing is queued but
    /// some fragment is punted, `Pending` otherwise.
    pub fn status(&self) -> (r: Status)
        requires
            self.wf(),
        ensures
            r == self@.status(),
    {
        if self.to_solve.len() == 0 {
            assert(self@.to_solve() =~= Set::empty()) by {
                assert forall|k: usize| !self@.to_solve().contains(k) by {
                    if self@.has_phase(k, Phase::Queued) {
                        assert(self.to_solve@.contains(k));
                    }
                }
            }
            if self.punted.is_empty() {
                Status::Done
            } else {
                Status::DoneWithCycles
            }
        } else {
            assert(self@.to_solve().contains(self.to_solve@[0]));
            Status::Pending
        }
    }

    /// Ask for `id` to be solved. A fragment that is already known (queued, in flight,
    /// punted or solved) is left as it is, so enqueueing twice is enqueueing once.
    pub fn enqueue_fragment(&mut self, id: FragmentId)
        requires
            old(self).wf(),
        ensures
            final(self).wf(),
            final(self)@ == old(self)@.enqueue(id.0),
    {
        let k = id.0;
        if !self.phase.contains_key(&k) && !self.punted.contains_key(&k) {
            assert(!self.to_solve@.contains(k));
            self.phase.insert(k, Phase::Queued);
            self.to_solve.push(k);
            proof {
                lemma_push_fresh(old(self).to_solve@, k);
                assert forall|x: usize| self.to_solve@.contains(x) <==> self@.has_phase(x, Phase::Queued) by {
                    if x != k {
                        assert(old(self).to_solve@.contains(x) <==> old(self)@.has_phase(x, Phase::Queued));
                    }
                }
            }
        }
        self.roots = Ghost(self.roots@.insert(k));
        assert(self@.pending_on =~= old(self)@.pending_on);
        assert(self@.phase =~= old(self)@.enqueue(k).phase);
        proof {
            old(self)@.lemma_enqueue_keeps_inv(k);
        }
    }

    /// The fragments that are punted now, each once.
    pub fn punted_iter(&self) -> (r: Vec<FragmentId>)
        requires
            self.wf(),
        ensures
            r@.map_values(|f: FragmentId| f.0).to_set() == self@.punted.dom(),
            r@.map_values(|f: FragmentId| f.0).no_duplicates(),
    {
        let mut r: Vec<FragmentId> = Vec::new();
        for k in it: self.punted.keys()
            invariant
                it.seq() == vstd::std_specs::hash::spec_keys_iter(&self.punted).remaining(),
                r@.map_values(|f: FragmentId| f.0) == it.seq().unref().subrange(
                    0,
                    it.index() as int,
                ),
        {
            let ghost before = r@;
            r.push(FragmentId(*k));
            proof {
                assert(r@ == before.push(FragmentId(*k)));
                assert(r@.map_values(|f: FragmentId| f.0) =~= before.map_values(|f: FragmentId| f.0).push(*k));
                assert(it.seq().unref().subrange(0, it.index() + 1) =~= it.seq().unref().subrange(
                    0,
                    it.index() as int,
                ).push(*k));
            }
        }
        proof {
            vstd::std_specs::hash::axiom_spec_keys_iter(&self.punted);
            assert(r@.map_values(|f: FragmentId| f.0) =~= vstd::std_specs::hash::spec_keys_iter(
                &self.punted,
            ).remaining().unref());
        }
        r
    }

    /// Take a queued fragment for examination; `None` when nothing is queued.
    pub fn take_fragment(&mut self) -> (r: Option<FragmentId>)
        requires
            old(self).wf(),
        ensures
            final(self).wf(),
            match r {
                None => old(self)@.to_solve().is_empty() && final(self)@ == old(self)@,
                Some(id) => old(self)@.to_solve().contains(id.0) && final(self)@ == old(
                    self,
                )@.take(id.0),
            },
    {
        match self.to_solve.pop() {
            None => {
                assert(old(self)@.to_solve() =~= Set::empty()) by {
                    assert forall|k: usize| !old(self)@.to_solve().contains(k) by {
                        if old(self)@.has_phase(k, Phase::Queued) {
                            assert(old(self).to_solve@.contains(k));
                        }
                    }
                }
                None
            },
            Some(k) => {
                assert(old(self).to_solve@.last() == k);
                assert(old(self).to_solve@.contains(k));
                self.phase.insert(k, Phase::Examining);
                assert(self@.pending_on =~= old(self)@.pending_on);
                assert(self@ == old(self)@.take(k));
                proof {
                    old(self)@.lemma_take_keeps_inv(k);
                }
                assert forall|x: usize| self.to_solve@.contains(x) <==> self@.has_phase(x, Phase::Queued) by {
                    assert(old(self).to_solve@ == self.to_solve@.push(k));
                    if self.to_solve@.contains(x) {
                        assert(old(self).to_solve@.contains(x));
                    }
                    if x != k && self@.has_phase(x, Phase::Queued) {
                        assert(old(self).to_solve@.contains(x));
                        let j = choose|j: int| 0 <= j < old(self).to_solve@.len() && old(self).to_solve@[j] == x;
                        assert(j != old(self).to_solve@.len() - 1);
                        assert(self.to_solve@[j] == x);
                    }
                }
                Some(FragmentId(k))
            },
        }
    }

    /// Marks `d` solved and releases the fragments punted on it: each has its count lowered
    /// by the number of times it waits on `d`, and those that reach zero are queued.
    fn mark_solved(&mut self, d: usize)
        requires
            old(self).wf(),
            !old(self)@.is_solved(d),
        ensures
            final(self).queue_matches(),
            final(self)@ == (SolverView { assumed: old(self)@.assumed, ..old(self)@.solve(d) }),
    {
        let ghost s0 = self@;
        if self.phase.contains_key(&d) && *self.phase.get(&d).unwrap() == Phase::Queued {
            remove_from_queue(&mut self.to_solve, d);
        }
        self.punted.remove(&d);
        self.phase.insert(d, Phase::Solved);
        self.rank = Ghost(self.rank@.insert(d, self.clock@));
        self.clock = Ghost(self.clock@ + 1);
        let dependents = match self.pending_on.remove(&d) {
            Some(list) => list,
            None => Vec::new(),
        };
        assert(dependents@ == s0.pending(d));
        let mut i: usize = 0;
        while i < dependents.len()
            invariant
                dependents@ == s0.pending(d),
                0 <= i <= dependents.len(),
                self.pending_on@ == old(self).pending_on@.remove(d),
                self.recorded == old(self).recorded,
                self.evaluated == old(self).evaluated,
                self.assumed == old(self).assumed,
                self.roots == old(self).roots,
                self.reported == old(self).reported,
                self.rank@ == s0.rank.insert(d, s0.clock),
                self.clock@ == s0.clock + 1,
                s0 == old(self)@,
                s0.inv(),
                !s0.is_solved(d),
                forall|x: usize|
                    #[trigger] self.punted@.contains_key(x) <==> (s0.punted.contains_key(x) && x != d
                        && occurrences(dependents@.take(i as int), x) < s0.punted[x]),
                forall|x: usize|
                    #[trigger] self.punted@.contains_key(x) ==> self.punted@[x] == s0.punted[x]
                        - occurrences(dependents@.take(i as int), x),
                forall|x: usize|
                    #[trigger] self.phase@.contains_key(x) <==> (s0.phase.contains_key(x) || x == d || (
                    s0.punted.contains_key(x) && x != d && s0.punted[x] <= occurrences(
                        dependents@.take(i as int),
                        x,
                    ))),
                forall|x: usize|
                    #[trigger] self.phase@.contains_key(x) ==> self.phase@[x] == if x == d {
                        Phase::Solved
                    } else if s0.phase.contains_key(x) {
                        s0.phase[x]
                    } else {
                        Phase::Queued
                    },
                self.to_solve@.no_duplicates(),
                forall|x: usize| self.to_solve@.contains(x) <==> self@.has_phase(x, Phase::Queued),
            decreases dependents.len() - i,
        {
            let k = dependents[i];
            proof {
                lemma_occurrences_take(dependents@, i as int, k);
                assert forall|x: usize| x != k implies occurrences(dependents@.take(i + 1), x)
                    == occurrences(dependents@.take(i as int), x) by {
                    lemma_occurrences_take(dependents@, i as int, x);
                }
            }
            if self.punted.contains_key(&k) {
                let c = *self.punted.get(&k).unwrap();
                if c == 1 {
                    self.punted.remove(&k);
                    assert(!self.phase@.contains_key(k));
                    assert(!self.to_solve@.contains(k));
                    let ghost q = self.to_solve@;
                    self.phase.insert(k, Phase::Queued);
                    self.to_solve.push(k);
                    proof {
                        lemma_push_fresh(q, k);
                        assert forall|x: usize| self.to_solve@.contains(x) <==> self@.has_phase(x, Phase::Queued) by {
                            if x != k {
                                assert(q.contains(x) <==> self.phase@.contains_key(x) && self.phase@[x] == Phase::Queued);
                            }
                        }
                    }
                } else {
                    self.punted.insert(k, c - 1);
                }
            }
            i = i + 1;
        }
        assert(dependents@.take(dependents.len() as int) =~= dependents@);
        proof {
            let n = SolverView { assumed: old(self)@.assumed, ..old(self)@.solve(d) };
            assert(self@.phase =~= n.phase);
            assert(self@.punted =~= n.punted);
            assert(self@.pending_on =~= n.pending_on);
        }
    }

    /// Report that the evaluation of `id` succeeded. A fragment that was handed out for
    /// evaluation becomes solved and releases the fragments punted on it; for any other
    /// fragment nothing changes.
    pub fn record_evaluation(&mut self, id: FragmentId)
        requires
            old(self).wf(),
        ensures
            final(self).wf(),
            final(self)@ == if old(self)@.has_phase(id.0, Phase::Evaluating) {
                old(self)@.solve(id.0)
            } else {
                old(self)@
            },
    {
        let d = id.0;
        if self.phase.contains_key(&d) && *self.phase.get(&d).unwrap() == Phase::Evaluating {
            proof {
                old(self)@.lemma_solve_keeps_inv(d, old(self)@.assumed);
            }
            self.mark_solved(d);
        }
    }

    /// Assume `id` solved without evaluating it, releasing the fragments punted on it; used to
    /// break a cycle. Nothing changes for a fragment that is already solved.
    pub fn assume_evaluated(&mut self, id: FragmentId)
        requires
            old(self).wf(),
        ensures
            final(self).wf(),
            final(self)@ == old(self)@.assume_solved(id.0),
    {
        let d = id.0;
        if !(self.phase.contains_key(&d) && *self.phase.get(&d).unwrap() == Phase::Solved) {
            proof {
                old(self)@.lemma_solve_keeps_inv(d, old(self)@.assumed.insert(d));
            }
            self.mark_solved(d);
            self.assumed = Ghost(self.assumed@.insert(d));
        }
    }

    /// The dependencies in `deps` that are not solved, in order.
    fn unsolved_of(&self, deps: &Vec<FragmentId>) -> (r: Vec<usize>)
        ensures
            r@ == self@.unsolved(deps@.map_values(|f: FragmentId| f.0)),
    {
        let ghost ids = deps@.map_values(|f: FragmentId| f.0);
        let mut r: Vec<usize> = Vec::new();
        let mut i: usize = 0;
        while i < deps.len()
            invariant
                ids == deps@.map_values(|f: FragmentId| f.0),
                0 <= i <= deps.len(),
                r@ == self@.unsolved(ids.take(i as int)),
            decreases deps.len() - i,
        {
            let d = deps[i].0;
            proof {
                assert(ids.take(i + 1).drop_last() =~= ids.take(i as int));
                assert(ids.take(i + 1).last() == d);
            }
            if !(self.phase.contains_key(&d) && *self.phase.get(&d).unwrap() == Phase::Solved) {
                r.push(d);
            }
            i = i + 1;
        }
        assert(ids.take(deps.len() as int) =~= ids);
        r
    }

    /// Punts `k`: it waits on each element of `rest`, its unsolved dependencies, and those of
    /// them that are not known yet are queued.
    fn mark_punted(&mut self, k: usize, deps: &Vec<FragmentId>, rest: Vec<usize>)
        requires
            old(self).wf(),
            old(self)@.has_phase(k, Phase::Examining),
            rest@ == old(self)@.unsolved(deps@.map_values(|f: FragmentId| f.0)),
            rest.len() > 0,
        ensures
            final(self).queue_matches(),
            final(self)@ == old(self)@.punt(k, deps@.map_values(|f: FragmentId| f.0)),
    {
        let ghost s0 = self@;
        let ghost ids = deps@.map_values(|f: FragmentId| f.0);
        self.phase.remove(&k);
        self.punted.insert(k, rest.len());
        self.recorded = Ghost(self.recorded@.insert(k, ids));
        self.reported = Ghost(s0.reported_with(k, ids));
        assert(!self.to_solve@.contains(k));
        let mut j: usize = 0;
        while j < rest.len()
            invariant
                s0 == old(self)@,
                s0.inv(),
                s0.has_phase(k, Phase::Examining),
                ids == deps@.map_values(|f: FragmentId| f.0),
                rest@ == s0.unsolved(ids),
                0 <= j <= rest.len(),
                self.punted@ == s0.punted.insert(k, rest.len()),
                self.recorded@ == s0.recorded.insert(k, ids),
                self.evaluated == old(self).evaluated,
                self.assumed == old(self).assumed,
                self.roots == old(self).roots,
                self.reported@ == s0.reported_with(k, ids),
                self.rank == old(self).rank,
                self.clock == old(self).clock,
                forall|x: usize|
                    #[trigger] self.phase@.contains_key(x) <==> ((s0.phase.contains_key(x) && x != k) || (
                    rest@.take(j as int).contains(x) && !s0.is_known(x))),
                forall|x: usize|
                    #[trigger] self.phase@.contains_key(x) ==> self.phase@[x] == if s0.phase.contains_key(
                        x,
                    ) {
                        s0.phase[x]
                    } else {
                        Phase::Queued
                    },
                forall|x: usize|
                    #[trigger] self@.pending_on.contains_key(x) <==> (s0.pending_on.contains_key(x)
                        || rest@.take(j as int).contains(x)),
                forall|x: usize|
                    #[trigger] self@.pending_on.contains_key(x) ==> self@.pending_on[x] == s0.pending(x)
                        + copies(k, occurrences(rest@.take(j as int), x)),
                self.to_solve@.no_duplicates(),
                forall|x: usize| self.to_solve@.contains(x) <==> self@.has_phase(x, Phase::Queued),
            decreases rest.len() - j,
        {
            let d = rest[j];
            let ghost p = rest@.take(j as int);
            let ghost v_head = self@;
            let ghost m_head = self.pending_on@;
            assert forall|x: usize| #[trigger] v_head.pending_on.contains_key(x) implies v_head.pending_on[x]
                == s0.pending(x) + copies(k, occurrences(p, x)) by {}
            assert forall|x: usize| #[trigger] v_head.pending_on.contains_key(x) <==> (s0.pending_on.contains_key(x)
                || p.contains(x)) by {}
            proof {
                assert(rest@.take(j + 1) =~= p.push(d));
                assert(p.push(d).drop_last() =~= p);
                assert forall|x: usize| p.push(d).contains(x) <==> (p.contains(x) || x == d) by {
                    if p.push(d).contains(x) && x != d {
                        let i = choose|i: int| 0 <= i < p.push(d).len() && p.push(d)[i] == x;
                        assert(p[i] == x);
                    }
                    if p.contains(x) {
                        let i = choose|i: int| 0 <= i < p.len() && p[i] == x;
                        assert(p.push(d)[i] == x);
                    }
                    if x == d {
                        assert(p.push(d)[p.len() as int] == x);
                    }
                }
            }
            if !self.phase.contains_key(&d) && !self.punted.contains_key(&d) {
                let ghost q = self.to_solve@;
                assert(!q.contains(d));
                self.phase.insert(d, Phase::Queued);
                self.to_solve.push(d);
                proof {
                    lemma_push_fresh(q, d);
                    assert forall|x: usize| self.to_solve@.contains(x) <==> self@.has_phase(x, Phase::Queued) by {
                        if x != d {
                            assert(q.contains(x) <==> self.phase@.contains_key(x) && self.phase@[x] == Phase::Queued);
                        }
                    }
                }
            }
            let ghost v_before = self@;
            let ghost m_before = self.pending_on@;
            assert(m_before == m_head);
            assert(v_before.pending_on =~= v_head.pending_on);
            let mut list = match self.pending_on.remove(&d) {
                Some(l) => l,
                None => Vec::new(),
            };
            proof {
                if !p.contains(d) {
                    assert forall|i: int| 0 <= i < p.len() implies p[i] != d by {
                        assert(p.contains(p[i]));
                    }
                    crate::model::lemma_occurrences_absent(p, d);
                }
                assert(list@ == s0.pending(d) + copies(k, occurrences(p, d))) by {
                    if m_before.contains_key(d) {
                        assert(list@ == m_before[d]@);
                        assert(v_before.pending_on.contains_key(d));
                        assert(v_before.pending_on[d] == m_before[d]@);
                        assert(v_before.pending_on[d] == s0.pending(d) + copies(k, occurrences(p, d)));
                    } else {
                        assert(!v_before.pending_on.contains_key(d));
                        assert(!s0.pending_on.contains_key(d));
                        assert(!p.contains(d));
                        assert(occurrences(p, d) == 0);
                        assert(s0.pending(d) == Seq::<usize>::empty());
                        assert(list@ == Seq::<usize>::empty());
                        assert(s0.pending(d) + copies(k, 0) =~= Seq::<usize>::empty());
                    }
                }
                assert(self.pending_on@ == m_before.remove(d));
            }
            list.push(k);
            proof {
                assert(list@ =~= s0.pending(d) + copies(k, occurrences(p, d) + 1));
            }
            let ghost l = list@;
            self.pending_on.insert(d, list);
            proof {
                assert(self.pending_on@ == m_before.remove(d).insert(d, list));
                assert forall|x: usize| #[trigger] self@.pending_on.contains_key(x) <==> (s0.pending_on.contains_key(x)
                    || p.push(d).contains(x)) by {
                    if x != d {
                        assert(self@.pending_on.contains_key(x) == v_before.pending_on.contains_key(x));
                        assert(v_before.pending_on.contains_key(x) <==> (s0.pending_on.contains_key(x)
                            || p.contains(x)));
                    }
                }
                assert forall|x: usize| #[trigger] self@.pending_on.contains_key(x) implies self@.pending_on[x]
                    == s0.pending(x) + copies(k, occurrences(p.push(d), x)) by {
                    if x != d {
                        assert(v_before.pending_on.contains_key(x));
                        assert(self@.pending_on[x] == v_before.pending_on[x]);
                    } else {
                        assert(self@.pending_on[x] == l);
                    }
                }
            }
            j = j + 1;
        }
        proof {
            assert(rest@.take(rest.len() as int) =~= rest@);
            let n = s0.punt(k, ids);
            assert(self@.phase =~= n.phase);
            assert(self@.pending_on =~= n.pending_on);
            assert(self@.punted =~= n.punted);
        }
    }

    /// Report the direct dependencies `deps` of `id`, which was taken for examination. If all
    /// of them are solved, `id` is handed out for evaluation; otherwise it is punted, waiting
    /// on each unsolved one, and those that are not known yet are queued. A dependency equal to
    /// `id` is waited on but never queued, so a fragment on a cycle with itself stays punted.
    pub fn record_dependencies(&mut self, id: FragmentId, deps: &Vec<FragmentId>) -> (r: Decision)
        requires
            old(self).wf(),
        ensures
            final(self).wf(),
            final(self)@ == old(self)@.record(id.0, deps@.map_values(|f: FragmentId| f.0)),
            r == old(self)@.decide(id.0, deps@.map_values(|f: FragmentId| f.0)),
            r == Decision::Evaluate ==> !old(self)@.evaluated.contains(id.0)
                && final(self)@.evaluated == old(self)@.evaluated.insert(id.0),
            r == Decision::Evaluate ==> forall|j: int|
                0 <= j < deps.len() ==> old(self)@.is_solved(#[trigger] deps@[j].0),
            r != Decision::Evaluate ==> final(self)@.evaluated == old(self)@.evaluated,
    {
        let k = id.0;
        let ghost ids = deps@.map_values(|f: FragmentId| f.0);
        if !(self.phase.contains_key(&k) && *self.phase.get(&k).unwrap() == Phase::Examining) {
            return Decision::Ignored;
        }
        let rest = self.unsolved_of(deps);
        proof {
            self@.lemma_unsolved_elements(ids);
        }
        if rest.len() == 0 {
            proof {
                self@.lemma_hand_out_keeps_inv(k, ids);
                assert forall|j: int| 0 <= j < deps.len() implies old(self)@.is_solved(#[trigger] deps@[j].0) by {
                    assert(ids[j] == deps@[j].0);
                    assert(ids.contains(ids[j]));
                    if !old(self)@.is_solved(ids[j]) {
                        assert(rest@.contains(ids[j]));
                    }
                }
            }
            self.phase.insert(k, Phase::Evaluating);
            self.recorded = Ghost(self.recorded@.insert(k, ids));
            self.evaluated = Ghost(self.evaluated@.insert(k));
            self.reported = Ghost(old(self)@.reported_with(k, ids));
            assert(self@.pending_on =~= old(self)@.pending_on);
            assert(self@ == old(self)@.hand_out(k, ids));
            assert forall|x: usize| self.to_solve@.contains(x) <==> self@.has_phase(x, Phase::Queued) by {
                assert(old(self).to_solve@.contains(x) <==> old(self)@.has_phase(x, Phase::Queued));
            }
            Decision::Evaluate
        } else {
            proof {
                assert(ids.len() == deps.len());
                self@.lemma_punt_keeps_inv(k, ids);
            }
            self.mark_punted(k, deps, rest);
            Decision::Punted
        }
    }
}

} // verus!
