//! A generic push-pull solver for dependency graphs.
//!
//! Callers enqueue the fragments they want evaluated. The solver examines them one at a
//! time: a fragment whose direct dependencies are all solved is handed out for evaluation,
//! any other is *punted* until its last outstanding dependency is solved, and the
//! dependencies it still waits on are examined in turn. Fragments that sit on a dependency
//! cycle stay punted forever, so cycles are isolated without being searched for.
//!
//! The library holds the bookkeeping and every decision of that process, as a state
//! machine whose transitions are verified: [`Solver`] for the fragments, and
//! [`RunDriver`] for the policy that keeps a bounded number of steps in flight. The work
//! around them (asking a problem for dependencies, evaluating a fragment) belongs to the
//! caller, who feeds the results back.
pub mod driver;
pub mod fragment;
pub mod laws;
pub mod model;
pub mod solver;

pub use driver::{RunAction, RunDriver};
pub use fragment::{FragmentId, Status};
pub use model::{Phase, SolverView};
pub use solver::{Decision, Solver};
