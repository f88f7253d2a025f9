//! The arithmetic model of bits within bytes.
//!
//! A byte is read most-significant-bit first throughout the codec, so the
//! model names single bits by their position and gives a value to a finite
//! bit sequence by place value.

use vstd::arithmetic::div_mod::{
    lemma_div_denominator, lemma_fundamental_div_mod, lemma_fundamental_div_mod_converse,
};
use vstd::prelude::*;

verus! {

/// Powers of two up to the eight bits of a byte.
pub open spec fn p2(e: int) -> nat {
    if e <= 0 {
        1
    } else if e == 1 {
        2
    } else if e == 2 {
        4
    } else if e == 3 {
        8
    } else if e == 4 {
        16
    } else if e == 5 {
        32
    } else if e == 6 {
        64
    } else if e == 7 {
        128
    } else {
        256
    }
}

/// The bit of `v` at position `i`, counting from the least significant bit.
pub open spec fn bit_of(v: u8, i: int) -> u8
    recommends
        0 <= i < 8,
    decreases i,
{
    if i <= 0 {
        (v % 2) as u8
    } else {
        bit_of(v / 2, i - 1)
    }
}

/// The bits of `v` significant for a field of `width` bits, most significant
/// first.
pub open spec fn byte_bits(v: u8, width: int) -> Seq<u8>
    recommends
        0 <= width <= 8,
{
    Seq::new(width as nat, |j: int| bit_of(v, width - 1 - j))
}

/// The value of a bit sequence read most-significant-bit first.
pub open spec fn bits_val(q: Seq<u8>) -> nat
    decreases q.len(),
{
    if q.len() == 0 {
        0
    } else {
        2 * bits_val(q.drop_last()) + q.last() as nat
    }
}

/// True when every element of `q` is a single bit.
pub open spec fn bits_bool(q: Seq<u8>) -> bool {
    forall|i: int| 0 <= i < q.len() ==> q[i] == 0 || q[i] == 1
}

/// The place value of a bit position within one byte.
pub fn pow2_u8(e: u8) -> (r: u8)
    requires
        e < 8,
    ensures
        r as nat == p2(e as int),
{
    match e {
        0 => 1,
        1 => 2,
        2 => 4,
        3 => 8,
        4 => 16,
        5 => 32,
        6 => 64,
        _ => 128,
    }
}

/// A bit is zero or one.
pub proof fn lemma_bit_of_bool(v: u8, i: int)
    ensures
        bit_of(v, i) == 0 || bit_of(v, i) == 1,
    decreases i,
{
    if i > 0 {
        lemma_bit_of_bool(v / 2, i - 1);
    }
}

/// Reading a bit by repeated halving agrees with dividing by the bit's place
/// value once.
pub proof fn lemma_bit_of_div(v: u8, i: int)
    requires
        0 <= i <= 7,
    ensures
        bit_of(v, i) as nat == (v as nat / p2(i)) % 2,
    decreases i,
{
    if i == 0 {
        assert(v as nat / 1 == v as nat);
    } else {
        lemma_bit_of_div(v / 2, i - 1);
        assert((v / 2) as nat == v as nat / 2);
        lemma_div_denominator(v as int, 2, p2(i - 1) as int);
        assert(2 * p2(i - 1) == p2(i));
    }
}

/// The significant bits of a byte recompose to the byte's value modulo the
/// field width's place value.
pub proof fn lemma_byte_bits_val(v: u8, width: int)
    requires
        0 <= width <= 8,
    ensures
        bits_val(byte_bits(v, width)) == v as nat % p2(width),
    decreases width,
{
    if width == 0 {
        assert(v as nat % 1 == 0);
    } else {
        lemma_byte_bits_val(v / 2, width - 1);
        assert(byte_bits(v, width).drop_last() =~= byte_bits(v / 2, width - 1)) by {
            assert forall|j: int| 0 <= j < width - 1 implies byte_bits(v, width).drop_last()[j]
                == byte_bits(v / 2, width - 1)[j] by {
                assert(bit_of(v, width - 1 - j) == bit_of(v / 2, width - 2 - j));
            }
        }
        assert(byte_bits(v, width).last() == bit_of(v, 0));
        let a = (v / 2) as nat / p2(width - 1);
        lemma_fundamental_div_mod(v as int / 2, p2(width - 1) as int);
        assert((v / 2) as nat == p2(width - 1) * a + (v / 2) as nat % p2(width - 1));
        assert(v as nat == 2 * ((v / 2) as nat) + (v % 2) as nat);
        let r = 2 * ((v / 2) as nat % p2(width - 1)) + (v % 2) as nat;
        assert(v as nat == a * p2(width) + r) by (nonlinear_arith)
            requires
                v as nat == 2 * ((v / 2) as nat) + (v % 2) as nat,
                (v / 2) as nat == p2(width - 1) * a + (v / 2) as nat % p2(width - 1),
                r == 2 * ((v / 2) as nat % p2(width - 1)) + (v % 2) as nat,
                p2(width) == 2 * p2(width - 1),
        ;
        assert(r < p2(width));
        lemma_fundamental_div_mod_converse(v as int, p2(width) as int, a as int, r as int);
        assert(bits_val(byte_bits(v, width)) == 2 * bits_val(byte_bits(v / 2, width - 1)) + bit_of(
            v,
            0,
        ));
    }
}

/// A byte below its field's place value recomposes to itself.
pub proof fn lemma_byte_bits_val_exact(v: u8, width: int)
    requires
        0 <= width <= 8,
        (v as nat) < p2(width),
    ensures
        bits_val(byte_bits(v, width)) == v as nat,
{
    lemma_byte_bits_val(v, width);
    assert(v as nat % p2(width) == v as nat) by (nonlinear_arith)
        requires
            (v as nat) < p2(width),
            p2(width) > 0,
    ;
}

/// The value of a bit sequence stays below its length's place value.
pub proof fn lemma_bits_val_bound(q: Seq<u8>)
    requires
        bits_bool(q),
        q.len() <= 8,
    ensures
        bits_val(q) < p2(q.len() as int),
    decreases q.len(),
{
    if q.len() > 0 {
        assert(bits_bool(q.drop_last()));
        lemma_bits_val_bound(q.drop_last());
        assert(q.last() <= 1);
    }
}

} // verus!
