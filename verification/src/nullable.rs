//! The marker type for optional fields.

use vstd::prelude::*;

verus! {

/// Marks a field that carries a one-byte presence flag ahead of an optional
/// fixed-size payload.
pub struct Nullable {}

} // verus!
