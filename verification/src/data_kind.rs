//! Field descriptors of the tagged schema representation.

use crate::constants::BYTE;
use crate::error::StoreError;
use vstd::prelude::*;

verus! {

/// One field kind of the tagged schema representation, as produced by the
/// schema parser from a selector byte and its parameter.
#[derive(Clone, Copy, Debug, PartialEq, Eq, Structural)]
pub enum DataKind {
    /// A presence flag followed by an optional payload.
    Nullable,
    /// A field of the contained bit size.
    Normal(u8),
    /// A blob whose byte count is carried in a length prefix.
    Dynamic,
    /// A blob of the contained fixed byte length.
    Fixed(u8),
}

impl DataKind {
    /// The total bit count of a field of this kind, and the shift offset the
    /// buffer reconstructor starts its countdown from.
    pub fn get_bits_n_offset(&self) -> (r: (u8, u8))
        requires
            *self is Fixed ==> self->Fixed_0 * 8 <= u8::MAX,
        ensures
            *self is Nullable ==> r == (1u8, 0u8),
            *self is Normal ==> r == (
                self->Normal_0,
                if self->Normal_0 < 7 {
                    self->Normal_0
                } else {
                    7u8
                },
            ),
            *self is Dynamic ==> r == (8u8, 7u8),
            *self is Fixed ==> r == ((self->Fixed_0 * 8) as u8, 7u8),
    {
        match self {
            DataKind::Nullable => (1, 0),
            DataKind::Normal(bits) => (
                *bits,
                if *bits < BYTE - 1 {
                    *bits
                } else {
                    BYTE - 1
                },
            ),
            DataKind::Dynamic => (BYTE, BYTE - 1),
            DataKind::Fixed(byte_length) => (*byte_length * BYTE, BYTE - 1),
        }
    }

    /// Reads a field-kind selector byte; parameters are filled in later by
    /// the schema parser.
    pub fn from_byte(value: u8) -> (r: Result<DataKind, StoreError>)
        ensures
            value == 0 ==> r == Ok::<DataKind, StoreError>(DataKind::Nullable),
            value == 1 ==> r == Ok::<DataKind, StoreError>(DataKind::Normal(0u8)),
            value == 2 ==> r == Ok::<DataKind, StoreError>(DataKind::Fixed(0u8)),
            value == 3 ==> r == Ok::<DataKind, StoreError>(DataKind::Dynamic),
            value > 3 ==> r == Err::<DataKind, StoreError>(StoreError::UnknownFieldKind),
    {
        match value {
            0 => Ok(DataKind::Nullable),
            1 => Ok(DataKind::Normal(0)),
            2 => Ok(DataKind::Fixed(0)),
            3 => Ok(DataKind::Dynamic),
            _ => Err(StoreError::UnknownFieldKind),
        }
    }
}

} // verus!
