use push_pull_solver::{Decision, FragmentId, RunAction, RunDriver, Solver, Status};
use std::collections::HashSet;

/// A dependency graph given as adjacency lists: `graph[i]` lists the direct dependencies of `i`.
type Graph = Vec<Vec<usize>>;

fn deps_of(graph: &Graph, id: FragmentId) -> Vec<FragmentId> {
    graph[id.0].iter().map(|&d| FragmentId(d)).collect()
}

/// One whole step: take a fragment, report its dependencies, evaluate it if asked.
fn step(solver: &mut Solver, graph: &Graph, evaluated: &mut Vec<usize>) -> Result<bool, ()> {
    match solver.take_fragment() {
        None => Ok(false),
        Some(id) => {
            let deps = deps_of(graph, id);
            if solver.record_dependencies(id, &deps) == Decision::Evaluate {
                evaluated.push(id.0);
                solver.record_evaluation(id);
            }
            Ok(true)
        }
    }
}

/// Runs steps with up to `concurrency` in flight, polled in launch order, until the driver
/// says the run is over; returns the punted fragments.
fn run(
    solver: &mut Solver,
    graph: &Graph,
    concurrency: usize,
    evaluated: &mut Vec<usize>,
) -> Result<Vec<FragmentId>, ()> {
    let mut driver: RunDriver<()> = RunDriver::new(concurrency);
    let mut launched = concurrency;
    let mut finished = 0usize;
    loop {
        assert!(finished < launched);
        let outcome = step(solver, graph, evaluated);
        finished += 1;
        match driver.step_finished(outcome) {
            RunAction::Launch => launched += 1,
            RunAction::Wait => {}
            RunAction::Finish(r) => {
                r?;
                return Ok(solver.punted_iter());
            }
        }
    }
}

fn as_set(ids: &[usize]) -> HashSet<FragmentId> {
    ids.iter().map(|&i| FragmentId(i)).collect()
}

fn solve(graph: &Graph, roots: &[usize], concurrency: usize) -> (Solver, HashSet<FragmentId>, Vec<usize>) {
    let mut solver = Solver::new();
    for &r in roots {
        solver.enqueue_fragment(FragmentId(r));
    }
    let mut evaluated = Vec::new();
    let punted = run(&mut solver, graph, concurrency, &mut evaluated).unwrap();
    (solver, punted.into_iter().collect(), evaluated)
}

const CONCURRENCY: usize = 2;

#[test]
fn should_be_able_to_punt_a_self_cycle() {
    let graph: Graph = vec![vec![0]];
    let (solver, punted, evaluated) = solve(&graph, &[0], CONCURRENCY);
    assert_eq!(solver.status(), Status::DoneWithCycles);
    assert_eq!(punted, as_set(&[0]));
    assert_eq!(evaluated, Vec::<usize>::new());
}

#[test]
fn should_be_able_to_punt_a_two_node_cycle() {
    let graph: Graph = vec![vec![1], vec![0]];
    let (solver, punted, evaluated) = solve(&graph, &[0, 1], CONCURRENCY);
    assert_eq!(solver.status(), Status::DoneWithCycles);
    assert_eq!(punted, as_set(&[0, 1]));
    assert_eq!(evaluated, Vec::<usize>::new());
}

#[test]
fn should_be_able_to_punt_a_self_cycle_within_a_two_node_cycle() {
    let graph: Graph = vec![vec![0, 1], vec![0]];
    let (solver, punted, evaluated) = solve(&graph, &[0, 1], CONCURRENCY);
    assert_eq!(solver.status(), Status::DoneWithCycles);
    assert_eq!(punted, as_set(&[0, 1]));
    assert_eq!(evaluated, Vec::<usize>::new());
}

#[test]
fn should_be_able_to_punt_a_two_intersecting_cycles() {
    let graph: Graph = vec![vec![1], vec![2, 0], vec![1]];
    let (solver, punted, evaluated) = solve(&graph, &[0], CONCURRENCY);
    assert_eq!(solver.status(), Status::DoneWithCycles);
    assert_eq!(punted, as_set(&[0, 1, 2]));
    assert_eq!(evaluated, Vec::<usize>::new());
}

#[test]
fn empty_solver_status_should_be_done() {
    assert_eq!(Solver::new().status(), Status::Done);
}

#[test]
fn empty_solver_punted_iter_must_be_empty() {
    assert_eq!(Solver::new().punted_iter().first(), None);
}

#[test]
fn non_empty_unexecuted_solver_status_should_be_pending() {
    let mut solver = Solver::new();
    solver.enqueue_fragment(0.into());
    assert_eq!(solver.status(), Status::Pending);
}

#[test]
fn non_empty_unexecuted_solver_punted_iter_must_be_empty() {
    let mut solver = Solver::new();
    solver.enqueue_fragment(0.into());
    assert_eq!(solver.punted_iter().first(), None);
}

#[test]
fn stepping_an_empty_solver_must_return_ok_false() {
    let mut solver = Solver::new();
    let graph: Graph = Vec::new();
    let mut evaluated = Vec::new();
    assert_eq!(step(&mut solver, &graph, &mut evaluated), Ok(false));
}

#[test]
fn running_an_empty_solver_must_return_ok_wth_an_empty_iterator() {
    let mut solver = Solver::new();
    let graph: Graph = Vec::new();
    let mut evaluated = Vec::new();
    assert_eq!(run(&mut solver, &graph, CONCURRENCY, &mut evaluated).unwrap().first(), None);
}

#[test]
fn should_be_able_to_solve_for_one_fragment_with_no_dependencies() {
    let graph: Graph = vec![vec![]];
    let (solver, punted, evaluated) = solve(&graph, &[0], CONCURRENCY);
    assert_eq!(solver.status(), Status::Done);
    assert!(punted.is_empty());
    assert_eq!(evaluated, vec![0]);
}

#[test]
fn should_be_able_to_solve_for_two_fragments_with_no_dependencies() {
    let graph: Graph = vec![vec![], vec![]];
    let (solver, punted, evaluated) = solve(&graph, &[0, 1], CONCURRENCY);
    assert_eq!(solver.status(), Status::Done);
    assert!(punted.is_empty());
    assert_eq!(evaluated.into_iter().collect::<HashSet<_>>(), [0, 1].into_iter().collect());
}

#[test]
fn should_be_able_to_solve_for_one_fragment_with_one_dependency() {
    let graph: Graph = vec![vec![1], vec![]];
    let (solver, punted, evaluated) = solve(&graph, &[0], CONCURRENCY);
    assert_eq!(solver.status(), Status::Done);
    assert!(punted.is_empty());
    assert_eq!(evaluated, vec![1, 0]);
}

#[test]
fn should_be_able_to_solve_for_one_fragment_with_two_dependencies() {
    let graph: Graph = vec![vec![1, 2], vec![], vec![]];
    let (solver, punted, evaluated) = solve(&graph, &[0], CONCURRENCY);
    assert_eq!(solver.status(), Status::Done);
    assert!(punted.is_empty());
    assert!(evaluated == vec![1, 2, 0] || evaluated == vec![2, 1, 0]);
}

#[test]
fn assuming_one_fragment_breaks_a_two_node_cycle() {
    let graph: Graph = vec![vec![1], vec![0]];
    let mut solver = Solver::new();
    solver.enqueue_fragment(FragmentId(0));
    solver.enqueue_fragment(FragmentId(1));
    solver.assume_evaluated(FragmentId(1));
    let mut evaluated = Vec::new();
    let punted = run(&mut solver, &graph, CONCURRENCY, &mut evaluated).unwrap();
    assert!(punted.is_empty());
    assert_eq!(evaluated, vec![0]);
    assert_eq!(solver.status(), Status::Done);
}

#[test]
fn assuming_a_punted_fragment_releases_its_dependents() {
    let graph: Graph = vec![vec![1], vec![1]];
    let (mut solver, punted, evaluated) = solve(&graph, &[0], 1);
    assert_eq!(punted, as_set(&[0, 1]));
    assert!(evaluated.is_empty());
    solver.assume_evaluated(FragmentId(1));
    assert_eq!(solver.status(), Status::Pending);
    let mut evaluated = Vec::new();
    let punted = run(&mut solver, &graph, 1, &mut evaluated).unwrap();
    assert!(punted.is_empty());
    assert_eq!(evaluated, vec![0]);
    assert_eq!(solver.status(), Status::Done);
}

#[test]
fn assuming_a_solved_fragment_changes_nothing() {
    let graph: Graph = vec![vec![]];
    let (mut solver, _, evaluated) = solve(&graph, &[0], 1);
    assert_eq!(evaluated, vec![0]);
    solver.assume_evaluated(FragmentId(0));
    solver.enqueue_fragment(FragmentId(0));
    assert_eq!(solver.status(), Status::Done);
    assert_eq!(solver.take_fragment(), None);
}

#[test]
fn a_fragment_is_handed_out_for_evaluation_once() {
    let mut solver = Solver::new();
    solver.enqueue_fragment(FragmentId(0));
    let id = solver.take_fragment().unwrap();
    assert_eq!(id, FragmentId(0));
    assert_eq!(solver.record_dependencies(id, &vec![]), Decision::Evaluate);
    assert_eq!(solver.record_dependencies(id, &vec![]), Decision::Ignored);
    solver.enqueue_fragment(FragmentId(0));
    assert_eq!(solver.take_fragment(), None);
    solver.record_evaluation(id);
    solver.enqueue_fragment(FragmentId(0));
    assert_eq!(solver.take_fragment(), None);
    assert_eq!(solver.status(), Status::Done);
}

#[test]
fn no_fragment_is_evaluated_twice_in_a_shared_graph() {
    // 0 -> {1, 2}, 1 -> {3}, 2 -> {3, 3}, 3 -> {}
    let graph: Graph = vec![vec![1, 2], vec![3], vec![3, 3], vec![]];
    for concurrency in [1, 2, 4] {
        let (solver, punted, evaluated) = solve(&graph, &[0, 1, 2, 3], concurrency);
        assert!(punted.is_empty());
        assert_eq!(solver.status(), Status::Done);
        let mut sorted = evaluated.clone();
        sorted.sort();
        assert_eq!(sorted, vec![0, 1, 2, 3]);
    }
}

#[test]
fn dependencies_are_evaluated_first() {
    // 0 -> {1, 2}, 1 -> {3}, 2 -> {3, 4}, 4 -> {3}
    let graph: Graph = vec![vec![1, 2], vec![3], vec![3, 4], vec![], vec![3]];
    let (_, punted, evaluated) = solve(&graph, &[0], CONCURRENCY);
    assert!(punted.is_empty());
    assert_eq!(evaluated.len(), 5);
    let position = |x: usize| evaluated.iter().position(|&e| e == x).unwrap();
    for (k, deps) in graph.iter().enumerate() {
        for &d in deps {
            assert!(position(d) < position(k));
        }
    }
}

#[test]
fn only_fragments_that_reach_a_cycle_stay_punted() {
    // 0 -> {1, 3}, 1 -> {2}, 2 -> {1}, 3 -> {4}, 4 -> {}, 5 -> {0}
    let graph: Graph = vec![vec![1, 3], vec![2], vec![1], vec![4], vec![], vec![0]];
    let (solver, punted, evaluated) = solve(&graph, &[5], CONCURRENCY);
    assert_eq!(punted, as_set(&[5, 0, 1, 2]));
    assert_eq!(evaluated, vec![4, 3]);
    assert_eq!(solver.status(), Status::DoneWithCycles);
}

#[test]
fn enqueueing_twice_is_enqueueing_once() {
    let graph: Graph = vec![vec![1], vec![], vec![2]];
    let mut once = Solver::new();
    once.enqueue_fragment(FragmentId(0));
    once.enqueue_fragment(FragmentId(2));
    let mut twice = Solver::new();
    twice.enqueue_fragment(FragmentId(0));
    twice.enqueue_fragment(FragmentId(0));
    twice.enqueue_fragment(FragmentId(2));
    twice.enqueue_fragment(FragmentId(2));
    assert_eq!(once.status(), twice.status());
    let mut evaluated_once = Vec::new();
    let mut evaluated_twice = Vec::new();
    let punted_once: HashSet<_> = run(&mut once, &graph, 1, &mut evaluated_once).unwrap().into_iter().collect();
    let punted_twice: HashSet<_> = run(&mut twice, &graph, 1, &mut evaluated_twice).unwrap().into_iter().collect();
    assert_eq!(punted_once, punted_twice);
    assert_eq!(punted_once, as_set(&[2]));
    assert_eq!(evaluated_once, evaluated_twice);
    assert_eq!(once.status(), twice.status());
}

#[test]
fn outcome_is_the_same_for_every_fan_out() {
    // 0 -> {1, 2}, 1 -> {3}, 2 -> {2}, 3 -> {}, 4 -> {3, 1}
    let graph: Graph = vec![vec![1, 2], vec![3], vec![2], vec![], vec![3, 1]];
    let (first, punted, evaluated) = solve(&graph, &[0, 4], 1);
    let solved: HashSet<usize> = evaluated.into_iter().collect();
    for concurrency in [2, 3, 8] {
        let (solver, p, e) = solve(&graph, &[0, 4], concurrency);
        assert_eq!(p, punted);
        assert_eq!(e.into_iter().collect::<HashSet<_>>(), solved);
        assert_eq!(solver.status(), first.status());
    }
    assert_eq!(punted, as_set(&[0, 2]));
    assert_eq!(solved, [1, 3, 4].into_iter().collect());
}

#[test]
fn interleaved_steps_reach_the_same_outcome() {
    // Every queued fragment is taken before any dependencies are reported.
    let graph: Graph = vec![vec![1, 2], vec![3], vec![3], vec![], vec![4, 0]];
    let mut solver = Solver::new();
    solver.enqueue_fragment(FragmentId(0));
    solver.enqueue_fragment(FragmentId(4));
    let mut evaluated = Vec::new();
    loop {
        let mut taken = Vec::new();
        while let Some(id) = solver.take_fragment() {
            taken.push(id);
        }
        if taken.is_empty() {
            break;
        }
        let mut handed_out = Vec::new();
        for id in taken {
            if solver.record_dependencies(id, &deps_of(&graph, id)) == Decision::Evaluate {
                handed_out.push(id);
            }
        }
        for id in handed_out {
            evaluated.push(id.0);
            solver.record_evaluation(id);
        }
    }
    let mut sorted = evaluated.clone();
    sorted.sort();
    assert_eq!(sorted, vec![0, 1, 2, 3]);
    assert_eq!(solver.punted_iter(), vec![FragmentId(4)]);
    assert_eq!(solver.status(), Status::DoneWithCycles);
}

#[test]
fn self_dependency_is_never_queued_again() {
    let mut solver = Solver::new();
    solver.enqueue_fragment(FragmentId(7));
    let id = solver.take_fragment().unwrap();
    assert_eq!(solver.record_dependencies(id, &vec![FragmentId(7)]), Decision::Punted);
    assert_eq!(solver.take_fragment(), None);
    assert_eq!(solver.punted_iter(), vec![FragmentId(7)]);
    assert_eq!(solver.status(), Status::DoneWithCycles);
}

#[test]
fn fragment_ids_convert_both_ways() {
    let id: FragmentId = 42usize.into();
    assert_eq!(id, FragmentId(42));
    let back: usize = id.into();
    assert_eq!(back, 42);
}
