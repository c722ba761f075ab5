//! The bound that seals [`Primitive`](crate::Primitive).

use vstd::prelude::*;

verus! {

/// Implemented for the types that this crate gives [`Primitive`](crate::Primitive), and no other:
/// the module that holds it is private.
pub trait Sealed {

}

} // verus!
