//! Integer core of an octree-accelerated magnetostatics library: Morton-code
//! octree construction, interaction-list bookkeeping, permutations used to sort
//! sources and targets, and mesh-topology operations.

pub mod biotsavart;
pub mod krylov;
pub mod math;
pub mod mesh;
pub mod morton;
pub mod octree;
pub mod octree_lists;
pub mod sources;
pub mod transient;

use vstd::prelude::*;

verus! {

/// Determine the number of cpu threads to use, given how many the machine offers
///
/// If `nthreads_requested` is 0, then use all available threads. Otherwise, use the
/// specified value, but no more than is available.
pub fn get_nthreads(nthreads_requested: u32, nthreads_available: usize) -> (nthreads: usize)
    ensures
        nthreads == if nthreads_requested == 0 || nthreads_requested > nthreads_available {
            nthreads_available as int
        } else {
            nthreads_requested as int
        },
        nthreads <= nthreads_available,
        nthreads_available >= 1 ==> nthreads >= 1,
{
    let nthreads: usize = if nthreads_requested as usize > nthreads_available || nthreads_requested == 0 {
        nthreads_available
    } else {
        nthreads_requested as usize
    };
    nthreads
}

} // verus!
