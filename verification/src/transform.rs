//! The way from a rotation matrix to a quaternion.

pub use crate::matrix::to_matrix4;

use crate::matrix::{greater_number, number_gt, Matrix4};
use vstd::prelude::*;

verus! {

/// The formulas that take a rotation matrix to a quaternion. Each divides
/// by a number that is far from zero for the matrices it is chosen for.
#[derive(Clone, Copy, Debug, PartialEq, Eq, Structural)]
pub enum Branch {
    /// The formula built on the trace, for a matrix with a positive trace.
    Trace,
    /// The formula built on the first entry of the diagonal.
    X,
    /// The formula built on the second entry of the diagonal.
    Y,
    /// The formula built on the third entry of the diagonal.
    Z,
}

/// The formula for the matrix `m`, whose trace is positive or not: the one
/// built on the trace where it is positive, and else the one built on the
/// entry of the diagonal that is greater than the two others, with the
/// later entry taken where none is.
pub open spec fn branch_of(trace_positive: bool, m: Matrix4) -> Branch {
    if trace_positive {
        Branch::Trace
    } else if greater_number(m.at(0, 0), m.at(1, 1)) && greater_number(m.at(0, 0), m.at(2, 2)) {
        Branch::X
    } else if greater_number(m.at(1, 1), m.at(2, 2)) {
        Branch::Y
    } else {
        Branch::Z
    }
}

/// Chooses the formula that takes the rotation of `m` to a quaternion.
pub fn select_branch(trace_positive: bool, m: &Matrix4) -> (branch: Branch)
    ensures
        branch == branch_of(trace_positive, *m),
{
    if trace_positive {
        Branch::Trace
    } else if number_gt(m.m[0][0], m.m[1][1]) && number_gt(m.m[0][0], m.m[2][2]) {
        Branch::X
    } else if number_gt(m.m[1][1], m.m[2][2]) {
        Branch::Y
    } else {
        Branch::Z
    }
}

} // verus!
