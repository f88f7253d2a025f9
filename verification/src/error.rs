use vstd::prelude::*;

verus! {

/// Everything that can go wrong while building a codec or running one call.
///
/// Schema errors arise when a schema is parsed or checked; `EmptyBuffer` and
/// `InvalidEncoding` are per-call errors and leave no residual state.
#[derive(Clone, Copy, Debug, PartialEq, Eq, Structural)]
pub enum StoreError {
    /// The schema describes zero payload bits.
    EmptySchema,
    /// A schema entry is outside the closed set {0, 1, 2, 4, 8}.
    UnsupportedBitCount,
    /// A field-kind selector byte is outside the closed set {0, 1, 2, 3}.
    UnknownFieldKind,
    /// A field kind that requires a parameter has none following it.
    MissingFieldParameter,
    /// The input buffer holds no bytes.
    EmptyBuffer,
    /// A wire byte lacks the fixed prefix bits its position demands.
    InvalidEncoding,
}

impl StoreError {
    /// A human-readable description of the error.
    pub fn message(&self) -> (r: &'static str)
        ensures
            *self is EmptySchema ==> r@ == "Received 0 sized schema"@,
            *self is UnsupportedBitCount ==> r@ == "Received unsupported bit count from schema"@,
            *self is UnknownFieldKind ==> r@
                == "Unknown data type received. Expected: [0(Nullable), 1(Normal), 2(Fixed), 3(Dynamic)]"@,
            *self is MissingFieldParameter ==> r@ == "Missing parameter for field kind"@,
            *self is EmptyBuffer ==> r@ == "Received empty buffer"@,
            *self is InvalidEncoding ==> r@ == "Buffer has invalid data"@,
    {
        match self {
            StoreError::EmptySchema => "Received 0 sized schema",
            StoreError::UnsupportedBitCount => "Received unsupported bit count from schema",
            StoreError::UnknownFieldKind => "Unknown data type received. Expected: [0(Nullable), 1(Normal), 2(Fixed), 3(Dynamic)]",
            StoreError::MissingFieldParameter => "Missing parameter for field kind",
            StoreError::EmptyBuffer => "Received empty buffer",
            StoreError::InvalidEncoding => "Buffer has invalid data",
        }
    }
}

} // verus!
