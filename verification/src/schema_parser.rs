//! The parser of the tagged schema representation: selector bytes from a
//! closed set, each followed by a parameter where its kind demands one.

use crate::data_kind::DataKind;
use crate::error::StoreError;
use vstd::prelude::*;

verus! {

/// Prepends an already parsed descriptor to the outcome of parsing the rest.
pub open spec fn with_parsed(k: DataKind, rest: Result<Seq<DataKind>, StoreError>) -> Result<
    Seq<DataKind>,
    StoreError,
> {
    match rest {
        Ok(tail) => Ok(seq![k] + tail),
        Err(e) => Err(e),
    }
}

/// What parsing a tagged schema yields: descriptors in order, or the first
/// error met.
pub open spec fn parse_schema_spec(s: Seq<u8>) -> Result<Seq<DataKind>, StoreError>
    decreases s.len(),
{
    if s.len() == 0 {
        Ok(Seq::empty())
    } else if s[0] == 0 {
        with_parsed(DataKind::Nullable, parse_schema_spec(s.skip(1)))
    } else if s[0] == 3 {
        with_parsed(DataKind::Dynamic, parse_schema_spec(s.skip(1)))
    } else if s[0] == 1 {
        if s.len() >= 2 {
            with_parsed(DataKind::Normal(s[1]), parse_schema_spec(s.skip(2)))
        } else {
            Err(StoreError::MissingFieldParameter)
        }
    } else if s[0] == 2 {
        if s.len() >= 2 {
            with_parsed(DataKind::Fixed(s[1]), parse_schema_spec(s.skip(2)))
        } else {
            Err(StoreError::MissingFieldParameter)
        }
    } else {
        Err(StoreError::UnknownFieldKind)
    }
}

/// Turns raw tagged schema bytes into field descriptors.
pub fn parse_schema(schema: &[u8]) -> (r: Result<Vec<DataKind>, StoreError>)
    ensures
        match r {
            Ok(kinds) => parse_schema_spec(schema@) == Ok::<Seq<DataKind>, StoreError>(kinds@),
            Err(e) => parse_schema_spec(schema@) == Err::<Seq<DataKind>, StoreError>(e),
        },
{
    let mut parsed_schema: Vec<DataKind> = Vec::new();
    let n = schema.len();
    let mut index: usize = 0;
    assert(schema@.skip(0) =~= schema@);
    while index < n
        invariant
            n == schema@.len(),
            index <= n,
            parse_schema_spec(schema@) == with_all_parsed(
                parsed_schema@,
                parse_schema_spec(schema@.skip(index as int)),
            ),
        decreases n - index,
    {
        let ghost tail = schema@.skip(index as int);
        assert(tail[0] == schema@[index as int]);
        let value = schema[index];
        index = index + 1;
        proof {
            assert(tail.skip(1) =~= schema@.skip(index as int));
        }
        let kind = match parse_kind(schema, &mut index, value) {
            Ok(kind) => kind,
            Err(e) => {
                proof {
                    lemma_with_all_parsed_err(parsed_schema@, e);
                }
                return Err(e);
            },
        };
        proof {
            if value == 1 || value == 2 {
                assert(tail.skip(2) =~= schema@.skip(index as int));
            }
            lemma_with_all_parsed_push(
                parsed_schema@,
                kind,
                parse_schema_spec(schema@.skip(index as int)),
            );
        }
        parsed_schema.push(kind);
    }
    assert(schema@.skip(n as int) =~= Seq::<u8>::empty());
    assert(parsed_schema@ + Seq::<DataKind>::empty() =~= parsed_schema@);
    Ok(parsed_schema)
}

/// Prepends a run of already parsed descriptors to the outcome of parsing
/// the rest.
pub open spec fn with_all_parsed(p: Seq<DataKind>, rest: Result<Seq<DataKind>, StoreError>)
    -> Result<Seq<DataKind>, StoreError> {
    match rest {
        Ok(tail) => Ok(p + tail),
        Err(e) => Err(e),
    }
}

proof fn lemma_with_all_parsed_err(p: Seq<DataKind>, e: StoreError)
    ensures
        with_all_parsed(p, Err(e)) == Err::<Seq<DataKind>, StoreError>(e),
{
}

proof fn lemma_with_all_parsed_push(
    p: Seq<DataKind>,
    k: DataKind,
    rest: Result<Seq<DataKind>, StoreError>,
)
    ensures
        with_all_parsed(p, with_parsed(k, rest)) == with_all_parsed(p.push(k), rest),
{
    match rest {
        Ok(tail) => {
            assert(p + (seq![k] + tail) =~= p.push(k) + tail);
        },
        Err(_) => {
        },
    }
}

/// Completes one field descriptor from its selector byte, consuming the
/// parameter entry at `index` where the kind requires one.
pub fn parse_kind(schema: &[u8], index: &mut usize, value: u8) -> (r: Result<DataKind, StoreError>)
    requires
        *old(index) <= schema@.len(),
    ensures
        match r {
            Ok(k) => (value == 0 && k == DataKind::Nullable && *final(index) == *old(index)) || (
            value == 3 && k == DataKind::Dynamic && *final(index) == *old(index)) || (value == 1
                && *old(index) < schema@.len() && k == DataKind::Normal(schema@[*old(index) as int])
                && *final(index) == *old(index) + 1) || (value == 2 && *old(index) < schema@.len()
                && k == DataKind::Fixed(schema@[*old(index) as int]) && *final(index) == *old(index)
                + 1),
            Err(e) => *final(index) == *old(index) && ((value > 3 && e
                == StoreError::UnknownFieldKind) || ((value == 1 || value == 2) && *old(index)
                == schema@.len() && e == StoreError::MissingFieldParameter)),
        },
{
    let data = DataKind::from_byte(value)?;
    match data {
        DataKind::Nullable | DataKind::Dynamic => Ok(data),
        DataKind::Normal(_) => {
            if *index < schema.len() {
                let bit_size = schema[*index];
                *index = *index + 1;
                Ok(DataKind::Normal(bit_size))
            } else {
                Err(StoreError::MissingFieldParameter)
            }
        },
        DataKind::Fixed(_) => {
            if *index < schema.len() {
                let byte_length = schema[*index];
                *index = *index + 1;
                Ok(DataKind::Fixed(byte_length))
            } else {
                Err(StoreError::MissingFieldParameter)
            }
        },
    }
}

} // verus!
