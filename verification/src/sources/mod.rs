//! Source elements

pub mod tet4;
