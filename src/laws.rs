//! What holds of every run of a solver, stated over its model.
use crate::fragment::Status;
use crate::solver::Decision;
use crate::model::SolverView;
use vstd::prelude::*;

verus! {

/// `k` can be solved within `n` rounds in the dependency graph `g`, taking the fragments of
/// `assumed` as solved: it is assumed, or each of its direct dependencies can be solved within
/// `n - 1` rounds.
pub open spec fn solvable_within(
    g: spec_fn(usize) -> Seq<usize>,
    assumed: Set<usize>,
    k: usize,
    n: nat,
) -> bool
    decreases n,
{
    assumed.contains(k) || (n > 0 && forall|j: int|
        0 <= j < g(k).len() ==> solvable_within(g, assumed, #[trigger] g(k)[j], (n - 1) as nat))
}

/// `k` can be solved in `g`: no chain of dependencies from it runs into a cycle.
pub open spec fn solvable(g: spec_fn(usize) -> Seq<usize>, assumed: Set<usize>, k: usize) -> bool {
    exists|n: nat| solvable_within(g, assumed, k, n)
}

/// `path` follows the dependencies of `g` from one of `roots`, never leaving an assumed
/// fragment (whose dependencies are not explored).
pub open spec fn is_dependency_path(
    g: spec_fn(usize) -> Seq<usize>,
    assumed: Set<usize>,
    roots: Set<usize>,
    path: Seq<usize>,
) -> bool {
    &&& path.len() > 0
    &&& roots.contains(path[0])
    &&& forall|i: int|
        0 <= i < path.len() - 1 ==> !assumed.contains(#[trigger] path[i]) && g(path[i]).contains(
            path[i + 1],
        )
}

/// Every dependency list the solver holds is the one that `g` gives.
pub open spec fn follows_graph(v: SolverView, g: spec_fn(usize) -> Seq<usize>) -> bool {
    forall|k: usize| #[trigger] v.recorded.contains_key(k) ==> v.recorded[k] == g(k)
}

/// Every dependency ever reported to the solver is one that `g` gives.
pub open spec fn reports_follow_graph(v: SolverView, g: spec_fn(usize) -> Seq<usize>) -> bool {
    forall|e: (usize, usize)| #[trigger] v.reported.contains(e) ==> g(e.0).contains(e.1)
}

/// `k` is reachable in `g` from one of `roots`.
pub open spec fn reachable(g: spec_fn(usize) -> Seq<usize>, roots: Set<usize>, k: usize) -> bool {
    exists|path: Seq<usize>| #[trigger] is_dependency_path(g, Set::empty(), roots, path) && path.last() == k
}

/// Enqueueing a fragment twice has the same effect as enqueueing it once.
pub proof fn lemma_enqueue_idempotent(v: SolverView, k: usize)
    ensures
        v.enqueue(k).enqueue(k) == v.enqueue(k),
{
    assert(v.enqueue(k).enqueue(k).roots =~= v.enqueue(k).roots);
}

/// At-most-once evaluation: a fragment that was handed out for evaluation is never handed out
/// again, whatever dependencies are reported for it later. (Every transition keeps the set of
/// handed-out fragments or adds the one it hands out.)
pub proof fn lemma_handed_out_once(v: SolverView, k: usize, deps: Seq<usize>)
    requires
        v.inv(),
        v.evaluated.contains(k),
    ensures
        v.decide(k, deps) != Decision::Evaluate,
        v.record(k, deps).evaluated == v.evaluated,
{
}

/// Dependency ordering: a fragment is handed out for evaluation only once every one of its
/// reported dependencies is solved, and solved fragments stay solved.
pub proof fn lemma_handed_out_after_dependencies(v: SolverView, k: usize, deps: Seq<usize>)
    requires
        v.inv(),
        v.decide(k, deps) == Decision::Evaluate,
    ensures
        forall|j: int| 0 <= j < deps.len() ==> v.is_solved(#[trigger] deps[j]),
        forall|x: usize| v.is_solved(x) ==> #[trigger] v.record(k, deps).is_solved(x),
{
    v.lemma_unsolved_elements(deps);
    assert forall|j: int| 0 <= j < deps.len() implies v.is_solved(#[trigger] deps[j]) by {
        assert(deps.contains(deps[j]));
        if !v.is_solved(deps[j]) {
            assert(v.unsolved(deps).contains(deps[j]));
        }
    }
}

/// A solved fragment can be solved in the graph: its dependencies were all solved before it.
proof fn lemma_solved_is_solvable(v: SolverView, g: spec_fn(usize) -> Seq<usize>, k: usize, n: nat)
    requires
        v.inv(),
        follows_graph(v, g),
        v.is_solved(k),
        v.rank[k] < n,
    ensures
        solvable_within(g, v.assumed, k, n),
    decreases n,
{
    if !v.assumed.contains(k) {
        assert(v.recorded.contains_key(k));
        assert forall|j: int| 0 <= j < g(k).len() implies solvable_within(
            g,
            v.assumed,
            #[trigger] g(k)[j],
            (n - 1) as nat,
        ) by {
            assert(v.recorded[k][j] == g(k)[j]);
            lemma_solved_is_solvable(v, g, g(k)[j], (n - 1) as nat);
        }
    }
}

/// Once quiescent, a punted fragment cannot be solved in any number of rounds: it waits on
/// a dependency that is punted too.
proof fn lemma_punted_is_unsolvable(v: SolverView, g: spec_fn(usize) -> Seq<usize>, k: usize, n: nat)
    requires
        v.inv(),
        v.is_quiescent(),
        follows_graph(v, g),
        v.punted.contains_key(k),
    ensures
        !solvable_within(g, v.assumed, k, n),
    decreases n,
{
    assert(!v.assumed.contains(k)) by {
        if v.assumed.contains(k) {
            assert(v.is_solved(k));
        }
    }
    if n > 0 {
        let deps = v.recorded[k];
        v.lemma_unsolved_elements(deps);
        let d = v.unsolved(deps)[0];
        assert(deps.contains(d) && !v.is_solved(d));
        let j = choose|j: int| 0 <= j < deps.len() && deps[j] == d;
        assert(v.is_known(deps[j]));
        assert(v.punted.contains_key(d)) by {
            if v.phase.contains_key(d) {
                assert(!v.to_solve().contains(d));
                assert(!v.in_flight().contains(d));
            }
        }
        lemma_punted_is_unsolvable(v, g, d, (n - 1) as nat);
        assert(g(k)[j] == d);
    }
}

/// Once quiescent, the outcome is fixed by the graph: among known fragments, the punted ones
/// are exactly those that cannot be solved (they reach a dependency cycle) and the solved ones
/// exactly those that can; every fragment reachable from the enqueued roots is known; and the
/// status is `DoneWithCycles` exactly when something is punted.
pub proof fn lemma_quiescent_outcome(v: SolverView, g: spec_fn(usize) -> Seq<usize>)
    requires
        v.inv(),
        v.is_quiescent(),
        follows_graph(v, g),
    ensures
        forall|k: usize|
            v.is_known(k) ==> (#[trigger] v.punted.contains_key(k) <==> !solvable(g, v.assumed, k)),
        forall|k: usize| v.is_known(k) ==> (#[trigger] v.is_solved(k) <==> solvable(g, v.assumed, k)),
        forall|path: Seq<usize>|
            #[trigger] is_dependency_path(g, v.assumed, v.roots, path) ==> v.is_known(path.last()),
        v.status() == if v.punted.dom().is_empty() {
            Status::Done
        } else {
            Status::DoneWithCycles
        },
{
    assert forall|k: usize| v.is_known(k) implies (#[trigger] v.punted.contains_key(k) <==> !solvable(
        g,
        v.assumed,
        k,
    )) && (v.is_solved(k) <==> solvable(g, v.assumed, k)) by {
        if v.punted.contains_key(k) {
            assert forall|n: nat| !solvable_within(g, v.assumed, k, n) by {
                lemma_punted_is_unsolvable(v, g, k, n);
            }
            assert(!v.phase.contains_key(k));
        } else {
            assert(v.phase.contains_key(k));
            assert(!v.to_solve().contains(k));
            assert(!v.in_flight().contains(k));
            assert(v.is_solved(k));
            lemma_solved_is_solvable(v, g, k, v.rank[k] + 1);
        }
    }
    assert forall|path: Seq<usize>| #[trigger] is_dependency_path(g, v.assumed, v.roots, path) implies v.is_known(
        path.last(),
    ) by {
        lemma_path_known(v, g, path, path.len() - 1);
    }
}

/// Once quiescent, each fragment along a dependency path from a root is known.
proof fn lemma_path_known(v: SolverView, g: spec_fn(usize) -> Seq<usize>, path: Seq<usize>, i: int)
    requires
        v.inv(),
        v.is_quiescent(),
        follows_graph(v, g),
        is_dependency_path(g, v.assumed, v.roots, path),
        0 <= i < path.len(),
    ensures
        v.is_known(path[i]),
    decreases i,
{
    if i > 0 {
        lemma_path_known(v, g, path, i - 1);
        let k = path[i - 1];
        assert(!v.assumed.contains(k) && g(k).contains(path[i]));
        let j = choose|j: int| 0 <= j < g(k).len() && #[trigger] g(k)[j] == path[i];
        if v.punted.contains_key(k) {
            assert(v.recorded[k][j] == path[i]);
        } else {
            assert(!v.to_solve().contains(k));
            assert(!v.in_flight().contains(k));
            assert(v.is_solved(k));
            assert(v.recorded[k][j] == path[i]);
        }
    }
}

/// Without assumptions, a fragment reached along reported dependencies that follow `g` is
/// reachable in `g`.
proof fn lemma_discovered_reachable(v: SolverView, g: spec_fn(usize) -> Seq<usize>)
    requires
        forall|k: usize| #[trigger] v.is_known(k) ==> v.is_discovered(k),
        v.assumed == Set::<usize>::empty(),
        reports_follow_graph(v, g),
    ensures
        forall|k: usize| v.is_known(k) ==> #[trigger] reachable(g, v.roots, k),
{
    assert forall|k: usize| v.is_known(k) implies #[trigger] reachable(g, v.roots, k) by {
        assert(v.is_discovered(k));
        let p = choose|p: Seq<usize>| #[trigger] v.is_discovery_path(p) && p.last() == k;
        assert forall|i: int| 0 <= i < p.len() - 1 implies !Set::<usize>::empty().contains(#[trigger] p[i])
            && g(p[i]).contains(p[i + 1]) by {
            assert(v.reported.contains((p[i], p[i + 1])));
        }
        assert(is_dependency_path(g, Set::empty(), v.roots, p));
    }
}

/// Cycle isolation: once a run without assumptions is quiescent, the punted fragments are
/// exactly those reachable from the enqueued roots that cannot be solved, because every chain
/// of dependencies from them runs into a cycle; the solved fragments are exactly the reachable
/// ones that can be; and the status is `DoneWithCycles` exactly when something is punted.
pub proof fn lemma_cycle_isolation(v: SolverView, g: spec_fn(usize) -> Seq<usize>)
    requires
        v.inv(),
        v.is_quiescent(),
        v.assumed == Set::<usize>::empty(),
        follows_graph(v, g),
        reports_follow_graph(v, g),
    ensures
        forall|k: usize|
            #[trigger] v.punted.contains_key(k) <==> reachable(g, v.roots, k) && !solvable(
                g,
                Set::empty(),
                k,
            ),
        forall|k: usize|
            #[trigger] v.is_solved(k) <==> reachable(g, v.roots, k) && solvable(g, Set::empty(), k),
        v.status() == if v.punted.dom().is_empty() {
            Status::Done
        } else {
            Status::DoneWithCycles
        },
{
    lemma_quiescent_outcome(v, g);
    lemma_discovered_reachable(v, g);
    assert forall|k: usize| #[trigger] reachable(g, v.roots, k) implies v.is_known(k) by {
        let p = choose|p: Seq<usize>| #[trigger] is_dependency_path(g, Set::empty(), v.roots, p) && p.last() == k;
        assert(is_dependency_path(g, v.assumed, v.roots, p));
    }
    assert forall|k: usize| #[trigger] v.punted.contains_key(k) implies v.is_known(k) by {}
    assert forall|k: usize| #[trigger] v.is_solved(k) implies v.is_known(k) by {}
}

/// The outcome does not depend on the fan-out or on how steps were interleaved: two
/// quiescent runs without assumptions over the same graph and from the same enqueued roots
/// have the same solved fragments, the same punted fragments and the same status.
pub proof fn lemma_outcome_independent_of_schedule(
    a: SolverView,
    b: SolverView,
    g: spec_fn(usize) -> Seq<usize>,
)
    requires
        a.inv(),
        b.inv(),
        a.is_quiescent(),
        b.is_quiescent(),
        a.assumed == Set::<usize>::empty(),
        b.assumed == Set::<usize>::empty(),
        follows_graph(a, g),
        follows_graph(b, g),
        reports_follow_graph(a, g),
        reports_follow_graph(b, g),
        a.roots == b.roots,
    ensures
        a.solved() == b.solved(),
        a.punted.dom() == b.punted.dom(),
        a.status() == b.status(),
{
    lemma_cycle_isolation(a, g);
    lemma_cycle_isolation(b, g);
    assert(a.solved() =~= b.solved());
    assert(a.punted.dom() =~= b.punted.dom());
}

} // verus!
