//! The data requirement calculator: a structural capacity check over a
//! schema, independent of which nullable branches a buffer later takes.

use crate::error::StoreError;
use vstd::arithmetic::div_mod::{lemma_fundamental_div_mod, lemma_fundamental_div_mod_converse};
use vstd::prelude::*;

verus! {

/// True when a schema entry belongs to the closed set {0, 1, 2, 4, 8}.
pub open spec fn entry_ok(e: u8) -> bool {
    e == 0 || e == 1 || e == 2 || e == 4 || e == 8
}

/// True when every entry of the schema belongs to the closed set.
pub open spec fn schema_ok(s: Seq<u8>) -> bool {
    forall|i: int| 0 <= i < s.len() ==> entry_ok(s[i])
}

/// The tail of a sequence, clamped to empty when fewer than `n` elements
/// remain.
pub open spec fn skip_clamped<A>(s: Seq<A>, n: int) -> Seq<A> {
    if n <= s.len() {
        s.skip(n)
    } else {
        Seq::empty()
    }
}

/// The machine-size bound under which the calculator's sums cannot overflow.
pub open spec fn schema_len_ok(s: Seq<u8>) -> bool {
    s.len() <= usize::MAX as int / 64
}

/// The total payload bits a schema demands: a nullable marker contributes one
/// presence bit and consumes its following count entry, and every other entry
/// contributes its own bit count.
pub open spec fn required_bits(s: Seq<u8>) -> nat
    decreases s.len(),
{
    if s.len() == 0 {
        0
    } else if s[0] == 0 {
        1 + required_bits(skip_clamped(s, 2))
    } else {
        s[0] as nat + required_bits(s.skip(1))
    }
}

/// The number of 4-byte characters needed to carry `required_bits`, 19 bits
/// to a character, rounded up.
pub open spec fn required_chars(s: Seq<u8>) -> nat {
    (required_bits(s) + 18) / 19
}

/// A nonempty schema always demands at least its first slot's bit.
pub proof fn lemma_required_bits_pos(s: Seq<u8>)
    ensures
        required_bits(s) == 0 <==> s.len() == 0,
{
    if s.len() > 0 && s[0] != 0 {
        assert(s[0] as nat >= 1);
    }
}

/// A schema from the closed set demands at most eight bits per entry.
pub proof fn lemma_required_bits_bound(s: Seq<u8>)
    requires
        schema_ok(s),
    ensures
        required_bits(s) <= 8 * s.len(),
    decreases s.len(),
{
    if s.len() == 0 {
    } else if s[0] == 0 {
        assert(schema_ok(skip_clamped(s, 2)));
        lemma_required_bits_bound(skip_clamped(s, 2));
    } else {
        assert(schema_ok(s.skip(1)));
        assert(entry_ok(s[0]));
        lemma_required_bits_bound(s.skip(1));
    }
}

/// Rounding up by adding the divisor less one agrees with adding one exactly
/// when the division leaves a remainder.
pub proof fn lemma_ceil_19(b: int)
    requires
        b >= 0,
    ensures
        (b + 18) / 19 == b / 19 + (if b % 19 > 0 {
            1int
        } else {
            0int
        }),
{
    let q = b / 19;
    let r = b % 19;
    lemma_fundamental_div_mod(b, 19);
    if r == 0 {
        lemma_fundamental_div_mod_converse(b + 18, 19, q, 18);
    } else {
        lemma_fundamental_div_mod_converse(b + 18, 19, q + 1, r - 1);
    }
}

/// Parses the schema bit counts to retrieve the exact bits and characters
/// needed for the serializer/deserializer.
///
/// Returns `(required_chars, required_bits)`; rejects an empty buffer, a
/// schema demanding zero bits, and any entry outside {0, 1, 2, 4, 8}.
pub fn get_data_requirement(schema: &[u8], buffer: &[u8]) -> (r: Result<
    (usize, usize),
    StoreError,
>)
    requires
        schema_len_ok(schema@),
    ensures
        match r {
            Err(e) => (buffer@.len() == 0 && e == StoreError::EmptyBuffer) || (buffer@.len() > 0
                && schema@.len() > 0 && !schema_ok(schema@) && e == StoreError::UnsupportedBitCount)
                || (buffer@.len() > 0 && schema@.len() == 0 && e == StoreError::EmptySchema),
            Ok(p) => buffer@.len() > 0 && schema@.len() > 0 && schema_ok(schema@) && p.1
                == required_bits(schema@) && p.0 == required_chars(schema@) && p.0 == p.1 / 19 + (
            if p.1 % 19 > 0 {
                1int
            } else {
                0int
            }),
        },
{
    if buffer.len() == 0 {
        return Err(StoreError::EmptyBuffer);
    }
    let n = schema.len();
    let mut i: usize = 0;
    while i < n
        invariant
            buffer@.len() > 0,
            n == schema@.len(),
            i <= n,
            forall|j: int| 0 <= j < i ==> entry_ok(schema@[j]),
        decreases n - i,
    {
        let e = schema[i];
        if !(e == 0 || e == 1 || e == 2 || e == 4 || e == 8) {
            assert(!entry_ok(schema@[i as int]));
            return Err(StoreError::UnsupportedBitCount);
        }
        i += 1;
    }
    let mut bits: usize = 0;
    let mut si: usize = 0;
    assert(schema@.skip(0) =~= schema@);
    while si < n
        invariant
            schema_ok(schema@),
            schema_len_ok(schema@),
            n == schema@.len(),
            si <= n,
            bits <= 8 * si,
            bits as nat + required_bits(schema@.skip(si as int)) == required_bits(schema@),
        decreases n - si,
    {
        let e = schema[si];
        let ghost tail = schema@.skip(si as int);
        assert(tail[0] == schema@[si as int]);
        if e == 0 {
            bits = bits + 1;
            if si + 2 <= n {
                proof {
                    assert(skip_clamped(tail, 2) =~= schema@.skip(si as int + 2));
                }
                si = si + 2;
            } else {
                proof {
                    assert(skip_clamped(tail, 2) =~= schema@.skip(n as int));
                }
                si = n;
            }
        } else {
            proof {
                assert(tail.skip(1) =~= schema@.skip(si as int + 1));
            }
            bits = bits + e as usize;
            si = si + 1;
        }
    }
    assert(schema@.skip(n as int) =~= Seq::<u8>::empty());
    proof {
        lemma_required_bits_pos(schema@);
    }
    if bits == 0 {
        return Err(StoreError::EmptySchema);
    }
    let chars = bits / 19 + (if bits % 19 > 0 {
        1
    } else {
        0
    });
    proof {
        lemma_ceil_19(bits as int);
    }
    Ok((chars, bits))
}

/// Parses the schema bit counts to retrieve the exact bits and characters
/// needed for the serializer/deserializer.
///
/// Mirrors [`get_data_requirement`] under the contract that function states.
pub fn rewrite_get_data_requirement(schema: &[u8], buffer: &[u8]) -> (r: Result<
    (usize, usize),
    StoreError,
>)
    requires
        schema_len_ok(schema@),
    ensures
        match r {
            Err(e) => (buffer@.len() == 0 && e == StoreError::EmptyBuffer) || (buffer@.len() > 0
                && schema@.len() > 0 && !schema_ok(schema@) && e == StoreError::UnsupportedBitCount)
                || (buffer@.len() > 0 && schema@.len() == 0 && e == StoreError::EmptySchema),
            Ok(p) => buffer@.len() > 0 && schema@.len() > 0 && schema_ok(schema@) && p.1
                == required_bits(schema@) && p.0 == required_chars(schema@),
        },
{
    get_data_requirement(schema, buffer)
}

} // verus!
