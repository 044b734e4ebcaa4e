//! Fragment identifiers and the solver's status.
use vstd::prelude::*;

verus! {

/// Identifier of a fragment: an opaque integral handle chosen by the caller.
#[derive(Clone, Copy, Debug, PartialEq, Eq, Structural, PartialOrd, Ord, Hash)]
pub struct FragmentId(pub usize);

impl From<usize> for FragmentId {
    fn from(id: usize) -> (r: FragmentId)
        ensures
            r.0 == id,
    {
        FragmentId(id)
    }
}

impl vstd::std_specs::convert::FromSpecImpl<usize> for FragmentId {
    open spec fn obeys_from_spec() -> bool {
        true
    }

    open spec fn from_spec(id: usize) -> FragmentId {
        FragmentId(id)
    }
}

impl From<FragmentId> for usize {
    fn from(id: FragmentId) -> (r: usize)
        ensures
            r == id.0,
    {
        id.0
    }
}

impl vstd::std_specs::convert::FromSpecImpl<FragmentId> for usize {
    open spec fn obeys_from_spec() -> bool {
        true
    }

    open spec fn from_spec(id: FragmentId) -> usize {
        id.0
    }
}

/// Where a solver stands as a whole.
#[derive(Clone, Copy, Debug, PartialEq, Eq, Structural, Hash)]
pub enum Status {
    /// Every fragment that was asked for has been evaluated and no cycle was found.
    Done,
    /// Nothing is left to examine, but some fragments wait on a dependency cycle.
    DoneWithCycles,
    /// Some fragments are still waiting to be examined.
    Pending,
}

} // verus!
