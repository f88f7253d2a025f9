//! A hook for callers that want to step a buffer field by field themselves.

use vstd::prelude::*;

verus! {

/// Implemented by callers to handle one field of a buffer at a cursor
/// position; the result says whether the following field should be skipped.
pub trait Handler<T> {
    fn handle(&self, buffer: &mut Vec<u8>, index: &mut u8) -> Result<bool, &'static str>;
}

} // verus!
