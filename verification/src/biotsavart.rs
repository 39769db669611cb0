//! Magnetic field calculations: the choice of the kernel for each kind of request

use vstd::prelude::*;
use crate::octree::Source;

verus! {

/// Integrate over each element, or treat each element as a point source at its centroid
#[derive(Clone, Copy, Debug, PartialEq, Eq, Structural)]
pub enum IntegrationMethod {
    Element,
    Point,
}

/// The field to compute: magnetic vector potential or magnetic field strength
#[derive(Clone, Copy, Debug, PartialEq, Eq, Structural)]
pub enum RequestedField {
    AField,
    HField,
}

/// An evaluation kernel, one for each combination of requested output field, source
/// vector type, and integration method
#[derive(Clone, Copy, Debug, PartialEq, Eq, Structural)]
pub enum Kernel {
    ACurrentTet4,
    ACurrentPoint,
    AMagTet4,
    AMagPoint,
    HCurrentTet4,
    HCurrentPoint,
    HMagTet4,
    HMagPoint,
}

/// The field a kernel computes
pub open spec fn kernel_field(k: Kernel) -> RequestedField {
    match k {
        Kernel::ACurrentTet4 | Kernel::ACurrentPoint | Kernel::AMagTet4 | Kernel::AMagPoint => RequestedField::AField,
        _ => RequestedField::HField,
    }
}

/// The kind of source vector a kernel reads
pub open spec fn kernel_source(k: Kernel) -> Source {
    match k {
        Kernel::ACurrentTet4 | Kernel::ACurrentPoint | Kernel::HCurrentTet4 | Kernel::HCurrentPoint => Source::CurrentDensity,
        _ => Source::Magnetization,
    }
}

/// How a kernel integrates a source element
pub open spec fn kernel_method(k: Kernel) -> IntegrationMethod {
    match k {
        Kernel::ACurrentTet4 | Kernel::AMagTet4 | Kernel::HCurrentTet4 | Kernel::HMagTet4 => IntegrationMethod::Element,
        _ => IntegrationMethod::Point,
    }
}

/// The kernel that computes `field` from sources of kind `source` with `method`
pub fn select_kernel(field: RequestedField, source: Source, method: IntegrationMethod) -> (k: Kernel)
    ensures
        kernel_field(k) == field,
        kernel_source(k) == source,
        kernel_method(k) == method,
{
    match (field, source, method) {
        (RequestedField::AField, Source::CurrentDensity, IntegrationMethod::Element) => Kernel::ACurrentTet4,
        (RequestedField::AField, Source::CurrentDensity, IntegrationMethod::Point) => Kernel::ACurrentPoint,
        (RequestedField::AField, Source::Magnetization, IntegrationMethod::Element) => Kernel::AMagTet4,
        (RequestedField::AField, Source::Magnetization, IntegrationMethod::Point) => Kernel::AMagPoint,
        (RequestedField::HField, Source::CurrentDensity, IntegrationMethod::Element) => Kernel::HCurrentTet4,
        (RequestedField::HField, Source::CurrentDensity, IntegrationMethod::Point) => Kernel::HCurrentPoint,
        (RequestedField::HField, Source::Magnetization, IntegrationMethod::Element) => Kernel::HMagTet4,
        (RequestedField::HField, Source::Magnetization, IntegrationMethod::Point) => Kernel::HMagPoint,
    }
}

} // verus!
