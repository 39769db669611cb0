//! Choice of the evaluation kernels used near and far from the tree's sources

use vstd::prelude::*;
use crate::biotsavart::{IntegrationMethod, Kernel, RequestedField, select_kernel, kernel_field, kernel_source, kernel_method};
use crate::octree::Source;

verus! {

/// Order of the multipole expansion used for far-field tree nodes
#[derive(Clone, Copy, Debug)]
pub enum MultipoleOrder {
    Monopole,
    Dipole,
    Octupole,
}

impl MultipoleOrder {
    /// 1 selects a dipole expansion, 2 an octupole, anything else a monopole
    pub fn from_int(order: u32) -> (r: Self)
        ensures
            order == 1 ==> r is Dipole,
            order == 2 ==> r is Octupole,
            order != 1 && order != 2 ==> r is Monopole,
    {
        match order {
            1 => Self::Dipole,
            2 => Self::Octupole,
            _ => Self::Monopole,
        }
    }
}

/// The far-field kernels: the field of a tree node's multipole expansion
#[derive(Clone, Copy, Debug)]
pub enum FarKernel {
    ACurrentNode,
    HCurrentNode,
    AMagNode,
    HMagNode,
}

pub open spec fn far_kernel_field(k: FarKernel) -> RequestedField {
    match k {
        FarKernel::ACurrentNode | FarKernel::AMagNode => RequestedField::AField,
        FarKernel::HCurrentNode | FarKernel::HMagNode => RequestedField::HField,
    }
}

pub open spec fn far_kernel_source(k: FarKernel) -> Source {
    match k {
        FarKernel::ACurrentNode | FarKernel::HCurrentNode => Source::CurrentDensity,
        FarKernel::AMagNode | FarKernel::HMagNode => Source::Magnetization,
    }
}

/// The near-field kernel integrates single elements
pub fn select_near_kernel(field: RequestedField, source: Source, method: IntegrationMethod) -> (k: Kernel)
    ensures
        kernel_field(k) == field,
        kernel_source(k) == source,
        kernel_method(k) == method,
{
    select_kernel(field, source, method)
}

/// The far-field kernel for the requested field and source type (every multipole
/// order uses the same kernel)
pub fn select_far_kernel(field: RequestedField, source: Source, order: MultipoleOrder) -> (k: FarKernel)
    ensures
        far_kernel_field(k) == field,
        far_kernel_source(k) == source,
{
    match (field, source) {
        (RequestedField::AField, Source::CurrentDensity) => FarKernel::ACurrentNode,
        (RequestedField::HField, Source::CurrentDensity) => FarKernel::HCurrentNode,
        (RequestedField::AField, Source::Magnetization) => FarKernel::AMagNode,
        (RequestedField::HField, Source::Magnetization) => FarKernel::HMagNode,
    }
}

} // verus!
