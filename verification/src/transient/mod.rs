//! Transient (time-domain) eddy-current solver: choice of solver and gauge

use vstd::prelude::*;

verus! {

/// Which transient solver to run
#[derive(Clone, Copy, Debug, PartialEq, Eq, Structural)]
pub enum TransientSolver {
    Dense,
    BH,
}

/// Ground nodes by identifying separated bodies and returning one node index per
/// body; the mesh is taken to be a single body, so its first node is grounded
pub fn ground_nodes() -> (grounded: Vec<usize>)
    ensures
        grounded@ == seq![0usize],
{
    let mut grounded: Vec<usize> = Vec::new();
    grounded.push(0);
    grounded
}

} // verus!
