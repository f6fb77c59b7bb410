//! The interface of values that carry a physical dimension.
use vstd::prelude::*;

verus! {

/// A dimensioned value that names the type of the raw value it wraps, so
/// that code generic over dimensioned fields can bound that raw type.
pub trait Quantity {
    /// The type of the wrapped raw value.
    type Value;
}

} // verus!
