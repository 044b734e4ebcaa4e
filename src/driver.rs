//! The policy for running solver steps with bounded fan-out.
use vstd::prelude::*;

verus! {

/// What the runner should do after a step has finished.
pub enum RunAction<E> {
    /// Launch one more step in place of the one that finished.
    Launch,
    /// Wait for another step that is still in flight.
    Wait,
    /// Every step has finished: the run ends with the first failure seen, if any.
    Finish(Result<(), E>),
}

/// Decides, step outcome by step outcome, how a run keeps up to a fixed number of steps in
/// flight until a step finds no work, then drains the steps still in flight.
///
/// A run starts `concurrency` steps. Each time one finishes, its outcome (`Ok(true)`: it
/// did work, `Ok(false)`: there was nothing to do, `Err(e)`: evaluation failed) is handed to
/// [`RunDriver::step_finished`]. While no step has come back without work and none has
/// failed, each finished step is replaced; afterwards no step is launched, and the run ends
/// once the last one in flight has finished, with the first failure if there was one.
pub struct RunDriver<E> {
    in_flight: usize,
    draining: bool,
    failure: Option<E>,
}

impl<E> RunDriver<E> {
    /// The number of steps in flight.
    pub closed spec fn in_flight(&self) -> nat {
        self.in_flight as nat
    }

    /// Whether the run has stopped launching steps.
    pub closed spec fn draining(&self) -> bool {
        self.draining
    }

    /// The first failure reported, if any.
    pub closed spec fn failure(&self) -> Option<E> {
        self.failure
    }

    /// A run that starts with `concurrency` steps in flight.
    pub fn new(concurrency: usize) -> (r: RunDriver<E>)
        requires
            concurrency >= 1,
        ensures
            r.in_flight() == concurrency,
            !r.draining(),
            r.failure() is None,
    {
        RunDriver { in_flight: concurrency, draining: false, failure: None }
    }

    /// The failure kept after `outcome`: the one seen before, else the one `outcome` reports.
    pub open spec fn first_failure(earlier: Option<E>, outcome: Result<bool, E>) -> Option<E> {
        match earlier {
            Some(e) => Some(e),
            None => match outcome {
                Err(e) => Some(e),
                Ok(_) => None,
            },
        }
    }

    /// Whether `outcome` says that the step did work.
    pub open spec fn did_work(outcome: Result<bool, E>) -> bool {
        match outcome {
            Ok(b) => b,
            Err(_) => false,
        }
    }

    /// How a run ends after the failure `failure`, if any.
    pub open spec fn ending(failure: Option<E>) -> Result<(), E> {
        match failure {
            Some(e) => Err(e),
            None => Ok(()),
        }
    }

    /// Record the outcome of a finished step and say what to do next: a step that did work
    /// before the run began draining is replaced; otherwise the run drains, keeping the first
    /// failure, and finishes when no step is left in flight.
    pub fn step_finished(&mut self, outcome: Result<bool, E>) -> (r: RunAction<E>)
        requires
            old(self).in_flight() > 0,
        ensures
            !old(self).draining() && Self::did_work(outcome) ==> r is Launch && *final(self)
                == *old(self),
            old(self).draining() || !Self::did_work(outcome) ==> {
                let failure = Self::first_failure(old(self).failure(), outcome);
                &&& final(self).draining()
                &&& final(self).in_flight() == old(self).in_flight() - 1
                &&& final(self).in_flight() > 0 ==> r is Wait && final(self).failure() == failure
                &&& final(self).in_flight() == 0 ==> r == RunAction::<E>::Finish(
                    Self::ending(failure),
                ) && final(self).failure() is None
            },
    {
        let launch = !self.draining && matches!(outcome, Ok(true));
        if launch {
            return RunAction::Launch;
        }
        self.draining = true;
        self.in_flight = self.in_flight - 1;
        if let Err(e) = outcome {
            if self.failure.is_none() {
                self.failure = Some(e);
            }
        }
        if self.in_flight > 0 {
            RunAction::Wait
        } else {
            match self.failure.take() {
                Some(e) => RunAction::Finish(Err(e)),
                None => RunAction::Finish(Ok(())),
            }
        }
    }
}

} // verus!
