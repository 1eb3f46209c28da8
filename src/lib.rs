pub mod butcher;
pub mod errors;
pub mod euler;
pub mod rk4;
pub mod runge_kutta;
pub mod scalar;
pub mod solution;
pub mod theorems;

pub use butcher::{Adaptive, Butcher, Explicit, Implicit, Nystrom};
pub use errors::SolverError;
pub use euler::Euler;
pub use rk4::Rk4;
pub use runge_kutta::{RungeKutta, SolveIVP};
pub use scalar::{Checked, Fixed, Scalar, FIXED_SCALE};
pub use solution::IvpSolution;
