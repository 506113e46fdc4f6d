//! The unit of work that a worker pool runs.
use vstd::prelude::*;

verus! {

/// A piece of work that yields an output, or nothing worth reporting.
pub trait Task {
    type Output: Send;

    fn run(&self) -> Option<Self::Output>;
}

} // verus!
