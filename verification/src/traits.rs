use vstd::prelude::*;

verus! {

/// Trait that ensures a value has a nil representation.
/// The nil representation of a value is used as a delete marker to
/// enable delete operations on a value: storing the nil value under a key
/// logically removes the key.
pub trait Nil {
    fn nil() -> Self where Self: core::marker::Sized;
}

} // verus!
