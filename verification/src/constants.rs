use vstd::prelude::*;

verus! {

/// Payload bits carried by one encoded character: 20 free bits minus the one
/// bit pinned in the lead byte to keep the code point inside the valid range.
pub const CHAR_BIT_SPACE: usize = 19;

/// The amount of available bit space in a continuation byte.
pub const BITS_IN_CONTINUATION_BYTES: usize = 6;

/// The byte size of every generated character in this library.
pub const CHAR_SIZE: usize = 4;

/// Bits in a byte.
pub const BYTE: u8 = 8;

} // verus!
