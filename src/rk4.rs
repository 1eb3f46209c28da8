use vstd::prelude::*;

use crate::butcher::{Butcher, Explicit};
use crate::scalar::Scalar;

verus! {

/// The classical fourth-order Runge-Kutta method.
///
/// Its coefficients are rationals, each turned into the scalar type with
/// `Scalar::ratio`.
pub struct Rk4 {}

impl Rk4 {
    pub fn new() -> (r: Self) {
        Rk4 {  }
    }
}

/// The coupling matrix as (numerator, denominator) pairs.
pub open spec fn rk4_a_ratio(i: int, j: int) -> (i64, i64) {
    if (i == 1 && j == 0) || (i == 2 && j == 1) {
        (1, 2)
    } else if i == 3 && j == 2 {
        (1, 1)
    } else {
        (0, 1)
    }
}

/// The weights as (numerator, denominator) pairs.
pub open spec fn rk4_b_ratio(i: int) -> (i64, i64) {
    if i == 0 || i == 3 {
        (1, 6)
    } else {
        (1, 3)
    }
}

/// The nodes as (numerator, denominator) pairs.
pub open spec fn rk4_c_ratio(i: int) -> (i64, i64) {
    if i == 0 {
        (0, 1)
    } else if i == 3 {
        (1, 1)
    } else {
        (1, 2)
    }
}

pub open spec fn ratio_of<F: Scalar>(p: (i64, i64)) -> F {
    F::spec_ratio(p.0, p.1)
}

impl<F: Scalar> Butcher<F, 4> for Rk4 {
    open spec fn spec_a(&self) -> [[F; 4]; 4] {
        [
            [
                ratio_of(rk4_a_ratio(0, 0)),
                ratio_of(rk4_a_ratio(0, 1)),
                ratio_of(rk4_a_ratio(0, 2)),
                ratio_of(rk4_a_ratio(0, 3)),
            ],
            [
                ratio_of(rk4_a_ratio(1, 0)),
                ratio_of(rk4_a_ratio(1, 1)),
                ratio_of(rk4_a_ratio(1, 2)),
                ratio_of(rk4_a_ratio(1, 3)),
            ],
            [
                ratio_of(rk4_a_ratio(2, 0)),
                ratio_of(rk4_a_ratio(2, 1)),
                ratio_of(rk4_a_ratio(2, 2)),
                ratio_of(rk4_a_ratio(2, 3)),
            ],
            [
                ratio_of(rk4_a_ratio(3, 0)),
                ratio_of(rk4_a_ratio(3, 1)),
                ratio_of(rk4_a_ratio(3, 2)),
                ratio_of(rk4_a_ratio(3, 3)),
            ],
        ]
    }

    open spec fn spec_b(&self) -> [F; 4] {
        [
            ratio_of(rk4_b_ratio(0)),
            ratio_of(rk4_b_ratio(1)),
            ratio_of(rk4_b_ratio(2)),
            ratio_of(rk4_b_ratio(3)),
        ]
    }

    open spec fn spec_c(&self) -> [F; 4] {
        [
            ratio_of(rk4_c_ratio(0)),
            ratio_of(rk4_c_ratio(1)),
            ratio_of(rk4_c_ratio(2)),
            ratio_of(rk4_c_ratio(3)),
        ]
    }

    fn a(&self) -> (r: [[F; 4]; 4]) {
        let z = F::ratio(0, 1);
        let half = F::ratio(1, 2);
        let one = F::ratio(1, 1);
        [[z, z, z, z], [half, z, z, z], [z, half, z, z], [z, z, one, z]]
    }

    fn b(&self) -> (r: [F; 4]) {
        let sixth = F::ratio(1, 6);
        let third = F::ratio(1, 3);
        [sixth, third, third, sixth]
    }

    fn c(&self) -> (r: [F; 4]) {
        let z = F::ratio(0, 1);
        let half = F::ratio(1, 2);
        let one = F::ratio(1, 1);
        [z, half, half, one]
    }
}

impl<F: Scalar> Explicit<F, 4> for Rk4 {

}

} // verus!
