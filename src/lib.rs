//! Canonical 32-byte encodings for the field elements and affine points of the
//! Pallas/Vesta curve cycle.

use vstd::prelude::*;

pub mod bytes;
pub mod field;
pub mod modular;
pub mod point;

verus! {

/// The single decode failure: wrong length, out-of-range integer and
/// off-curve coordinate are deliberately indistinguishable.
#[derive(Clone, Copy, Debug, PartialEq, Eq, Structural)]
pub struct InvalidEncoding;

} // verus!
