//! Octree construction and bookkeeping over Morton-sorted sources

use vstd::prelude::*;

pub mod evaluation;
pub mod kernels;
pub mod node;
pub mod sources;
pub mod topology;

pub use kernels::MultipoleOrder;

verus! {

/// The kind of source vector the tree holds
#[derive(Clone, Copy, Debug, PartialEq, Eq, Structural)]
pub enum Source {
    CurrentDensity,
    Magnetization,
}

} // verus!
