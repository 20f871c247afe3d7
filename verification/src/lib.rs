//! A tableau-based primal simplex solver for linear programs.
//!
//! Linear programs are stated symbolically (variables, linear expressions,
//! constraints, an objective) and solved exactly: every number the solver
//! touches is a rational with machine-integer numerator and denominator, so
//! the pivoting engine and its invariants are verified without any appeal to
//! floating-point rounding.

use vstd::prelude::*;

pub mod matrix_2d;
pub mod problem;
pub mod rational;
pub mod render;
pub mod simplex;
pub mod standard_form;
pub mod tableau;

verus! {

} // verus!
