use vstd::prelude::*;

use crate::scalar::Scalar;

verus! {

/// The coefficients of a Runge-Kutta method with `S` stages: the coupling
/// matrix `a`, the weights `b` and the nodes `c`.
///
/// The values are fixed for the lifetime of a tableau: each accessor returns
/// the value that its spec function names.
pub trait Butcher<F: Scalar, const S: usize> {
    spec fn spec_a(&self) -> [[F; S]; S];

    spec fn spec_b(&self) -> [F; S];

    spec fn spec_c(&self) -> [F; S];

    fn a(&self) -> (r: [[F; S]; S])
        ensures
            r == self.spec_a(),
    ;

    fn b(&self) -> (r: [F; S])
        ensures
            r == self.spec_b(),
    ;

    fn c(&self) -> (r: [F; S])
        ensures
            r == self.spec_c(),
    ;
}

/// A tableau with a second weight vector for an embedded error estimate.
pub trait Adaptive<F: Scalar, const S: usize>: Butcher<F, S> {
    spec fn spec_b_star(&self) -> [F; S];

    fn b_star(&self) -> (r: [F; S])
        ensures
            r == self.spec_b_star(),
    ;
}

/// A tableau with the extra weights of a Runge-Kutta-Nystrom method.
pub trait Nystrom<F: Scalar, const S: usize>: Butcher<F, S> {
    spec fn spec_b_bar(&self) -> [F; S];

    fn b_bar(&self) -> (r: [F; S])
        ensures
            r == self.spec_b_bar(),
    ;
}

/// A tableau whose coupling matrix is strictly lower triangular, so that each
/// stage depends on earlier stages only. Only these tableaux can be stepped.
pub trait Explicit<F: Scalar, const S: usize>: Butcher<F, S> {

}

/// A tableau whose coupling matrix may be full. No stepper exists for it.
pub trait Implicit<F: Scalar, const S: usize>: Butcher<F, S> {

}

} // verus!
