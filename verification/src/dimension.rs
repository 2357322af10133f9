//! Type-level markers for the two supported spatial dimensions.

use vstd::prelude::*;

use crate::config::Dimensions;

verus! {

/// Implemented only by the dimension markers of this crate.
pub trait Sealed {

}

/// Type-level marker for two-dimensional generation.
#[derive(Clone, Copy, Debug, Default, Eq, Hash, PartialEq, Structural)]
pub struct D2;

/// Type-level marker for three-dimensional generation.
#[derive(Clone, Copy, Debug, Default, Eq, Hash, PartialEq, Structural)]
pub struct D3;

impl Sealed for D2 {

}

impl Sealed for D3 {

}

impl D2 {
    /// The runtime dimension this marker stands for.
    pub const RUNTIME: Dimensions = Dimensions::TwoD;
}

impl D3 {
    /// The runtime dimension this marker stands for.
    pub const RUNTIME: Dimensions = Dimensions::ThreeD;
}

} // verus!
