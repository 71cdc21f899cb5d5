//! The private supertrait that keeps observation sources inside this crate.

use vstd::prelude::*;

verus! {

/// Implementing `ObservationSource` requires naming this trait, which is impossible
/// outside this crate.
pub trait Sealed {}

} // verus!
