use vstd::prelude::*;

use crate::butcher::{Butcher, Explicit};
use crate::scalar::Scalar;

verus! {

/// The forward Euler method: one stage, with node 0 and weight 1.
pub struct Euler {}

impl Euler {
    pub fn new() -> (r: Self) {
        Euler {  }
    }
}

impl<F: Scalar> Butcher<F, 1> for Euler {
    open spec fn spec_a(&self) -> [[F; 1]; 1] {
        [[F::spec_ratio(0, 1)]]
    }

    open spec fn spec_b(&self) -> [F; 1] {
        [F::spec_ratio(1, 1)]
    }

    open spec fn spec_c(&self) -> [F; 1] {
        [F::spec_ratio(0, 1)]
    }

    fn a(&self) -> (r: [[F; 1]; 1]) {
        [[F::ratio(0, 1)]]
    }

    fn b(&self) -> (r: [F; 1]) {
        [F::ratio(1, 1)]
    }

    fn c(&self) -> (r: [F; 1]) {
        [F::ratio(0, 1)]
    }
}

impl<F: Scalar> Explicit<F, 1> for Euler {

}

} // verus!
