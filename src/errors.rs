use vstd::prelude::*;

verus! {

/// Why a step or a solve failed.
#[derive(Debug)]
pub enum SolverError<E> {
    /// The named part of the history was read before it was seeded.
    Uninitialised(String),
    /// The new state was not a number in this dimension.
    Convergence(usize),
    /// The derivative function failed; its error is passed on unchanged.
    Derivative(E),
}

} // verus!
