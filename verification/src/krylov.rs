//! Outcome of the Krylov iterative solvers for `A x = b`

use vstd::prelude::*;

verus! {

/// How an iterative solve ended
#[derive(Clone, Copy, Debug, PartialEq, Eq, Structural)]
pub enum KrylovResult {
    /// Converged after this many iterations
    Converged(usize),
    /// Stopped after this many iterations without converging
    DidNotConverge(usize),
    /// The system has no unknowns
    ZeroUnknowns,
    /// The right-hand side is zero, so the solution is zero
    ZeroRhs,
}

} // verus!
