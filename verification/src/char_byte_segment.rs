//! The cyclic four-state cursor over the bytes of one encoded character.
//!
//! Each state carries the fixed prefix mask its wire byte must satisfy and
//! the number of payload bits that byte contributes.

use vstd::prelude::*;

verus! {

/// The position of a wire byte within its 4-byte character.
#[derive(Clone, Copy, Debug, PartialEq, Eq, Structural)]
pub enum CharByteSegment {
    Start,
    FirstContinuation,
    SecondContinuation,
    ThirdContinuation,
}

/// The cursor state expected at byte offset `m` within a character.
pub open spec fn segment_at(m: int) -> CharByteSegment {
    if m == 0 {
        CharByteSegment::Start
    } else if m == 1 {
        CharByteSegment::FirstContinuation
    } else if m == 2 {
        CharByteSegment::SecondContinuation
    } else {
        CharByteSegment::ThirdContinuation
    }
}

impl CharByteSegment {
    /// The prefix mask and payload bit count of this state's wire byte.
    pub open spec fn mask_and_space(self) -> (u8, u8) {
        match self {
            CharByteSegment::Start => (0xF2u8, 1u8),
            _ => (0x80u8, 6u8),
        }
    }

    /// The state that follows this one in the four-byte cycle.
    pub open spec fn following(self) -> CharByteSegment {
        match self {
            CharByteSegment::Start => CharByteSegment::FirstContinuation,
            CharByteSegment::FirstContinuation => CharByteSegment::SecondContinuation,
            CharByteSegment::SecondContinuation => CharByteSegment::ThirdContinuation,
            CharByteSegment::ThirdContinuation => CharByteSegment::Start,
        }
    }

    /// Returns the char byte mask, and the char bit space.
    pub fn get_value(&self) -> (r: (u8, u8))
        ensures
            r == self.mask_and_space(),
    {
        match self {
            CharByteSegment::Start => (0b1111_0010, 1),
            _ => (0b1000_0000, 6),
        }
    }

    /// Returns the char byte mask and the char bit space of the current
    /// state, then steps the cursor to the next byte of the cycle.
    pub fn next(&mut self) -> (r: (u8, u8))
        ensures
            r == old(self).mask_and_space(),
            *final(self) == old(self).following(),
    {
        match self {
            CharByteSegment::Start => {
                *self = CharByteSegment::FirstContinuation;
                (0b1111_0010, 1)
            },
            CharByteSegment::FirstContinuation => {
                *self = CharByteSegment::SecondContinuation;
                (0b1000_0000, 6)
            },
            CharByteSegment::SecondContinuation => {
                *self = CharByteSegment::ThirdContinuation;
                (0b1000_0000, 6)
            },
            CharByteSegment::ThirdContinuation => {
                *self = CharByteSegment::Start;
                (0b1000_0000, 6)
            },
        }
    }
}

} // verus!
