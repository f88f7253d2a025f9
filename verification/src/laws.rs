//! The codec's laws: what well-formed schemas and matching buffers are, and
//! the proofs that decoding inverts encoding over them.

use crate::bit_math::{
    bit_of, bits_bool, bits_val, byte_bits, lemma_bit_of_div, lemma_byte_bits_val_exact, p2,
};
use crate::data_requirement::{lemma_ceil_19, required_bits, required_chars, skip_clamped};
use crate::deserializer::{
    byte_payload, decoded_bytes, extracted_bits, recon, required_bytes, zero_bytes,
};
use crate::serializer::{
    bit_queue, encoded_bytes, entry_ok_width, frame_cont_byte, framed_bytes, lemma_bit_queue_bool,
    qbit, wire_byte,
};
use vstd::arithmetic::div_mod::{lemma_fundamental_div_mod, lemma_fundamental_div_mod_converse};
use vstd::prelude::*;

verus! {

/// A structurally legal schema: every slot is a fixed width from
/// {1, 2, 4, 8}, or a nullable marker whose count entry is present and
/// followed by that many fixed-width payload slots.
pub open spec fn wf_schema(s: Seq<u8>) -> bool
    decreases s.len(),
{
    if s.len() == 0 {
        true
    } else if s[0] == 0 {
        &&& s.len() >= 2
        &&& 2 + s[1] as int <= s.len()
        &&& (forall|j: int| 2 <= j < 2 + s[1] as int ==> entry_ok_width(#[trigger] s[j]))
        &&& wf_schema(s.skip(2 + s[1] as int))
    } else {
        entry_ok_width(s[0]) && wf_schema(s.skip(1))
    }
}

/// A buffer laid out as its schema expects: one byte per slot that is not
/// structurally absent, each fixed-width byte inside its width, each
/// presence flag zero or one, and nothing left over.
pub open spec fn buffer_matches(s: Seq<u8>, b: Seq<u8>) -> bool
    decreases b.len(),
{
    if s.len() == 0 {
        b.len() == 0
    } else if b.len() == 0 {
        false
    } else if s[0] == 0 {
        if b[0] == 0 {
            buffer_matches(
                skip_clamped(
                    s,
                    2 + if s.len() >= 2 {
                        s[1] as int
                    } else {
                        0
                    },
                ),
                b.skip(1),
            )
        } else {
            b[0] == 1 && buffer_matches(skip_clamped(s, 2), b.skip(1))
        }
    } else {
        (b[0] as nat) < p2(s[0] as int) && buffer_matches(s.skip(1), b.skip(1))
    }
}

/// True when every nullable field of the buffer is present.
pub open spec fn all_fields_present(s: Seq<u8>, b: Seq<u8>) -> bool
    decreases b.len(),
{
    if s.len() == 0 || b.len() == 0 {
        true
    } else if s[0] == 0 {
        b[0] != 0 && all_fields_present(skip_clamped(s, 2), b.skip(1))
    } else {
        all_fields_present(s.skip(1), b.skip(1))
    }
}

/// The buffer as decoding returns it: itself, except that each absent
/// nullable payload appears as its placeholder zero bytes.
pub open spec fn null_expanded(s: Seq<u8>, b: Seq<u8>) -> Seq<u8>
    decreases b.len(),
{
    if s.len() == 0 || b.len() == 0 {
        Seq::empty()
    } else if s[0] == 0 {
        if b[0] == 0 {
            seq![0u8] + zero_bytes(
                if s.len() >= 2 {
                    s[1] as nat
                } else {
                    0
                },
            ) + null_expanded(
                skip_clamped(
                    s,
                    2 + if s.len() >= 2 {
                        s[1] as int
                    } else {
                        0
                    },
                ),
                b.skip(1),
            )
        } else {
            seq![b[0]] + null_expanded(skip_clamped(s, 2), b.skip(1))
        }
    } else {
        seq![b[0]] + null_expanded(s.skip(1), b.skip(1))
    }
}

/// A run of `k` fixed-width slots at the head of a schema.
pub open spec fn width_run(s: Seq<u8>, k: int) -> bool {
    0 <= k <= s.len() && forall|j: int| 0 <= j < k ==> entry_ok_width(#[trigger] s[j])
}

/// A schema whose head is a width run is well formed when its tail is.
proof fn lemma_wf_over_run(s: Seq<u8>, k: int)
    requires
        width_run(s, k),
        wf_schema(s.skip(k)),
    ensures
        wf_schema(s),
    decreases k,
{
    if k == 0 {
        assert(s.skip(0) =~= s);
    } else {
        assert(width_run(s.skip(1), k - 1)) by {
            assert(forall|j: int| 0 <= j < k - 1 ==> s.skip(1)[j] == s[j + 1]);
        }
        assert(s.skip(1).skip(k - 1) =~= s.skip(k));
        lemma_wf_over_run(s.skip(1), k - 1);
    }
}

/// A nullable group's payload slots form a well-formed schema on their own.
proof fn lemma_wf_skip_marker(s: Seq<u8>)
    requires
        wf_schema(s),
        s.len() > 0,
        s[0] == 0,
    ensures
        wf_schema(s.skip(2)),
{
    let count = s[1] as int;
    assert(width_run(s.skip(2), count)) by {
        assert(forall|j: int| 0 <= j < count ==> s.skip(2)[j] == s[j + 2]);
    }
    assert(s.skip(2).skip(count) =~= s.skip(2 + count));
    lemma_wf_over_run(s.skip(2), count);
}

/// A width run's slots each demand their own bits on top of the tail's.
proof fn lemma_bits_over_run(s: Seq<u8>, k: int)
    requires
        width_run(s, k),
    ensures
        required_bits(s) >= required_bits(s.skip(k)),
    decreases k,
{
    if k == 0 {
        assert(s.skip(0) =~= s);
    } else {
        assert(width_run(s.skip(1), k - 1)) by {
            assert(forall|j: int| 0 <= j < k - 1 ==> s.skip(1)[j] == s[j + 1]);
        }
        assert(s.skip(1).skip(k - 1) =~= s.skip(k));
        lemma_bits_over_run(s.skip(1), k - 1);
    }
}

/// A width run's slots each owe one output byte on top of the tail's.
proof fn lemma_bytes_over_run(s: Seq<u8>, k: int)
    requires
        width_run(s, k),
    ensures
        required_bytes(s) == k + required_bytes(s.skip(k)),
    decreases k,
{
    if k == 0 {
        assert(s.skip(0) =~= s);
    } else {
        assert(width_run(s.skip(1), k - 1)) by {
            assert(forall|j: int| 0 <= j < k - 1 ==> s.skip(1)[j] == s[j + 1]);
        }
        assert(s.skip(1).skip(k - 1) =~= s.skip(k));
        lemma_bytes_over_run(s.skip(1), k - 1);
    }
}

/// A matching buffer's expansion covers exactly the schema's required bytes.
proof fn lemma_expanded_len(s: Seq<u8>, b: Seq<u8>)
    requires
        wf_schema(s),
        buffer_matches(s, b),
    ensures
        null_expanded(s, b).len() == required_bytes(s),
    decreases b.len(),
{
    if s.len() == 0 {
    } else if s[0] == 0 {
        let count = s[1] as int;
        assert(skip_clamped(s, 2 + count) =~= s.skip(2 + count));
        assert(skip_clamped(s, 2) =~= s.skip(2));
        if b[0] == 0 {
            lemma_expanded_len(s.skip(2 + count), b.skip(1));
        } else {
            lemma_wf_skip_marker(s);
            lemma_expanded_len(s.skip(2), b.skip(1));
            assert(width_run(s.skip(2), count)) by {
                assert(forall|j: int| 0 <= j < count ==> s.skip(2)[j] == s[j + 2]);
            }
            lemma_bytes_over_run(s.skip(2), count);
            assert(s.skip(2).skip(count) =~= s.skip(2 + count));
        }
    } else {
        lemma_expanded_len(s.skip(1), b.skip(1));
    }
}

/// A matching pair's bit queue never outgrows the structural bit count.
proof fn lemma_bit_queue_len(s: Seq<u8>, b: Seq<u8>)
    requires
        wf_schema(s),
        buffer_matches(s, b),
    ensures
        bit_queue(s, b).len() <= required_bits(s),
    decreases b.len(),
{
    if s.len() == 0 || b.len() == 0 {
    } else if s[0] == 0 {
        let count = s[1] as int;
        assert(skip_clamped(s, 2 + count) =~= s.skip(2 + count));
        assert(skip_clamped(s, 2) =~= s.skip(2));
        lemma_wf_skip_marker(s);
        assert(width_run(s.skip(2), count)) by {
            assert(forall|j: int| 0 <= j < count ==> s.skip(2)[j] == s[j + 2]);
        }
        lemma_bits_over_run(s.skip(2), count);
        assert(s.skip(2).skip(count) =~= s.skip(2 + count));
        if b[0] == 0 {
            lemma_bit_queue_len(s.skip(2 + count), b.skip(1));
        } else {
            lemma_bit_queue_len(s.skip(2), b.skip(1));
        }
    } else {
        lemma_bit_queue_len(s.skip(1), b.skip(1));
        assert(s[0] as nat >= 1);
    }
}

/// The queue positions already read when wire byte `i` comes up: 19 bits per
/// whole character, then one for the lead byte and six per continuation
/// byte.
pub open spec fn bits_before(i: int) -> int {
    19 * (i / 4) + (if i % 4 == 0 {
        0int
    } else {
        1 + 6 * (i % 4 - 1)
    })
}

/// The six bits framed into one continuation byte divide back out of it.
proof fn lemma_cont_bits_bv(b0: u8, b1: u8, b2: u8, b3: u8, b4: u8, b5: u8, v: u8)
    by (bit_vector)
    requires
        b0 <= 1,
        b1 <= 1,
        b2 <= 1,
        b3 <= 1,
        b4 <= 1,
        b5 <= 1,
        v == 128 + 32 * b0 + 16 * b1 + 8 * b2 + 4 * b3 + 2 * b4 + b5,
    ensures
        (v / 32) % 2 == b0,
        (v / 16) % 2 == b1,
        (v / 8) % 2 == b2,
        (v / 4) % 2 == b3,
        (v / 2) % 2 == b4,
        v % 2 == b5,
{
}

/// Reading a framed continuation byte yields the queue bits it carries.
proof fn lemma_cont_extract(q: Seq<u8>, st: int)
    requires
        bits_bool(q),
    ensures
        forall|j: int| 0 <= j < 6 ==> bit_of(frame_cont_byte(q, st), 5 - j) == #[trigger] qbit(
            q,
            st + j,
        ),
{
    let v = frame_cont_byte(q, st);
    let b0 = qbit(q, st);
    let b1 = qbit(q, st + 1);
    let b2 = qbit(q, st + 2);
    let b3 = qbit(q, st + 3);
    let b4 = qbit(q, st + 4);
    let b5 = qbit(q, st + 5);
    assert(v == 128 + 32 * b0 + 16 * b1 + 8 * b2 + 4 * b3 + 2 * b4 + b5);
    lemma_cont_bits_bv(b0, b1, b2, b3, b4, b5, v);
    lemma_bit_of_div(v, 5);
    lemma_bit_of_div(v, 4);
    lemma_bit_of_div(v, 3);
    lemma_bit_of_div(v, 2);
    lemma_bit_of_div(v, 1);
    lemma_bit_of_div(v, 0);
}

/// One framed byte's payload is the run of queue bits at its position.
proof fn lemma_frame_byte_payload(q: Seq<u8>, i: int)
    requires
        bits_bool(q),
        i >= 0,
    ensures
        byte_payload(wire_byte(q, i), i % 4) == Seq::new(
            if i % 4 == 0 {
                1nat
            } else {
                6nat
            },
            |j: int| qbit(q, bits_before(i) + j),
        ),
{
    let k = i / 4;
    let m = i % 4;
    if m == 0 {
        let t = qbit(q, 19 * k);
        assert(t == 0 || t == 1);
        assert(bit_of(wire_byte(q, i), 0) == t);
        assert(byte_payload(wire_byte(q, i), 0) =~= Seq::new(1, |j: int| qbit(q, 19 * k + j)));
    } else {
        let st = 19 * k + 1 + 6 * (m - 1);
        lemma_cont_extract(q, st);
        assert(byte_payload(wire_byte(q, i), m) =~= Seq::new(6, |j: int| qbit(q, st + j)));
    }
}

/// The frame's payload bits, taken byte by byte, read the queue in order.
proof fn lemma_extract_take(q: Seq<u8>, n: nat, i: int)
    requires
        bits_bool(q),
        0 <= i <= 4 * n,
    ensures
        extracted_bits(framed_bytes(q, n).take(i)) == Seq::new(
            bits_before(i) as nat,
            |x: int| qbit(q, x),
        ),
    decreases i,
{
    let w = framed_bytes(q, n);
    if i == 0 {
        assert(w.take(0) =~= Seq::<u8>::empty());
        assert(Seq::new(0, |x: int| qbit(q, x)) =~= Seq::<u8>::empty());
    } else {
        lemma_extract_take(q, n, i - 1);
        assert(w.take(i).drop_last() =~= w.take(i - 1));
        assert(w.take(i).last() == w[i - 1]);
        lemma_frame_byte_payload(q, i - 1);
        let kp = (i - 1) / 4;
        let mp = (i - 1) % 4;
        lemma_fundamental_div_mod(i - 1, 4);
        if mp < 3 {
            lemma_fundamental_div_mod_converse(i, 4, kp, mp + 1);
        } else {
            lemma_fundamental_div_mod_converse(i, 4, kp + 1, 0);
        }
        let sz: nat = if mp == 0 {
            1
        } else {
            6
        };
        assert(bits_before(i) == bits_before(i - 1) + sz);
        assert(Seq::new(bits_before(i - 1) as nat, |x: int| qbit(q, x)) + Seq::new(
            sz,
            |j: int| qbit(q, bits_before(i - 1) + j),
        ) =~= Seq::new(bits_before(i) as nat, |x: int| qbit(q, x)));
    }
}

/// Extraction inverts framing: the frame's payload bits are the queue,
/// padded with zero bits to fill out the last character.
pub proof fn lemma_extract_frame(q: Seq<u8>, n: nat)
    requires
        bits_bool(q),
    ensures
        extracted_bits(framed_bytes(q, n)) == Seq::new((19 * n) as nat, |x: int| qbit(q, x)),
{
    lemma_extract_take(q, n, 4 * n as int);
    assert(framed_bytes(q, n).take(4 * n as int) =~= framed_bytes(q, n));
    lemma_fundamental_div_mod_converse(4 * n as int, 4, n as int, 0);
    assert(bits_before(4 * n as int) == 19 * n);
}

/// Reconstruction consumes a matching pair's bit queue slot by slot and
/// rebuilds the expanded buffer, whatever zero padding follows the queue.
proof fn lemma_recon_expands(s: Seq<u8>, b: Seq<u8>, tail: Seq<u8>)
    requires
        wf_schema(s),
        buffer_matches(s, b),
    ensures
        recon(s, bit_queue(s, b) + tail) == null_expanded(s, b),
    decreases b.len(),
{
    let q = bit_queue(s, b) + tail;
    if s.len() == 0 {
        assert(recon(s, q) =~= Seq::<u8>::empty());
        assert(null_expanded(s, b) =~= Seq::<u8>::empty());
    } else {
        assert(b.len() > 0);
        if s[0] == 0 {
            let count = s[1] as int;
            assert(skip_clamped(s, 2 + count) =~= s.skip(2 + count));
            assert(skip_clamped(s, 2) =~= s.skip(2));
            if b[0] == 0 {
                let bq2 = bit_queue(s.skip(2 + count), b.skip(1));
                assert(bit_queue(s, b) == seq![0u8] + bq2);
                assert(q[0] == 0);
                assert(q.skip(1) =~= bq2 + tail);
                lemma_recon_expands(s.skip(2 + count), b.skip(1), tail);
                assert(recon(s, q) == seq![0u8] + zero_bytes(count as nat) + recon(
                    s.skip(2 + count),
                    q.skip(1),
                ));
            } else {
                assert(b[0] == 1);
                let bq2 = bit_queue(s.skip(2), b.skip(1));
                assert(bit_queue(s, b) == seq![1u8] + bq2);
                assert(q[0] == 1);
                assert(q.skip(1) =~= bq2 + tail);
                lemma_wf_skip_marker(s);
                lemma_recon_expands(s.skip(2), b.skip(1), tail);
                assert(recon(s, q) == seq![q[0]] + recon(s.skip(2), q.skip(1)));
            }
        } else {
            let c = s[0] as int;
            assert(entry_ok_width(s[0]));
            let hb = byte_bits(b[0], c);
            let bq2 = bit_queue(s.skip(1), b.skip(1));
            assert(bit_queue(s, b) == hb + bq2);
            assert(hb.len() == c);
            assert(q.len() >= c);
            assert(q.take(c) =~= hb);
            lemma_byte_bits_val_exact(b[0], c);
            assert(bits_val(q.take(c)) == b[0] as nat);
            assert(q.skip(c) =~= bq2 + tail);
            lemma_recon_expands(s.skip(1), b.skip(1), tail);
            assert(recon(s, q) == seq![bits_val(q.take(c)) as u8] + recon(s.skip(1), q.skip(c)));
        }
    }
}

/// Decoding the encoding of any well-formed, matching pair yields the
/// buffer with each absent nullable payload materialised as its placeholder
/// zero bytes: for the schema `[0, 2, 8, 8]`, the buffer `[0]` comes back as
/// `[0, 0, 0]`.
pub proof fn lemma_decode_inverts_encode(s: Seq<u8>, b: Seq<u8>)
    requires
        wf_schema(s),
        buffer_matches(s, b),
    ensures
        decoded_bytes(s, extracted_bits(encoded_bytes(s, b))) == null_expanded(s, b),
{
    let q = bit_queue(s, b);
    lemma_bit_queue_bool(s, b);
    let n = required_chars(s);
    lemma_extract_frame(q, n);
    let ext = extracted_bits(framed_bytes(q, n));
    lemma_bit_queue_len(s, b);
    lemma_fundamental_div_mod(required_bits(s) as int + 18, 19);
    assert(19 * n >= required_bits(s));
    let pad = Seq::new((19 * n - q.len()) as nat, |x: int| 0u8);
    assert(ext =~= q + pad);
    lemma_recon_expands(s, b, pad);
    lemma_expanded_len(s, b);
    assert(decoded_bytes(s, ext) =~= null_expanded(s, b));
}

/// A buffer whose nullable fields are all present expands to itself.
proof fn lemma_expanded_identity(s: Seq<u8>, b: Seq<u8>)
    requires
        wf_schema(s),
        buffer_matches(s, b),
        all_fields_present(s, b),
    ensures
        null_expanded(s, b) == b,
    decreases b.len(),
{
    if s.len() == 0 {
        assert(null_expanded(s, b) =~= b);
    } else if s[0] == 0 {
        assert(skip_clamped(s, 2) =~= s.skip(2));
        assert(b[0] != 0);
        lemma_wf_skip_marker(s);
        lemma_expanded_identity(s.skip(2), b.skip(1));
        assert(seq![b[0]] + b.skip(1) =~= b);
    } else {
        lemma_expanded_identity(s.skip(1), b.skip(1));
        assert(seq![b[0]] + b.skip(1) =~= b);
    }
}

/// Round trip: decoding the encoding of a well-formed, matching pair whose
/// nullable fields are all present returns exactly the original buffer.
pub proof fn lemma_round_trip(s: Seq<u8>, b: Seq<u8>)
    requires
        wf_schema(s),
        buffer_matches(s, b),
        all_fields_present(s, b),
    ensures
        decoded_bytes(s, extracted_bits(encoded_bytes(s, b))) == b,
{
    lemma_decode_inverts_encode(s, b);
    lemma_expanded_identity(s, b);
}

/// Encoding is a pure function of schema and buffer: equal pairs give equal
/// encodings.
pub proof fn lemma_encode_deterministic(s1: Seq<u8>, b1: Seq<u8>, s2: Seq<u8>, b2: Seq<u8>)
    requires
        s1 == s2,
        b1 == b2,
    ensures
        encoded_bytes(s1, b1) == encoded_bytes(s2, b2),
{
}

/// Validity by construction: every encoding is valid UTF-8 and decodes to
/// exactly the required character count, each code point inside the 4-byte
/// range `U+10000..=U+10FFFF`.
pub proof fn lemma_encode_validity(s: Seq<u8>, b: Seq<u8>)
    ensures
        vstd::utf8::valid_utf8(encoded_bytes(s, b)),
        vstd::utf8::decode_utf8(encoded_bytes(s, b)).len() == required_chars(s),
        forall|k: int|
            0 <= k < required_chars(s) ==> 0x10000 <= #[trigger] (vstd::utf8::decode_utf8(
                encoded_bytes(s, b),
            )[k] as u32) <= 0x10FFFF,
{
    lemma_bit_queue_bool(s, b);
    crate::serializer::lemma_framed_utf8(bit_queue(s, b), required_chars(s));
}

/// The bit budget: the character count is the structural bit count divided
/// by 19 and rounded up, and the encoding is four bytes per character.
pub proof fn lemma_bit_budget(s: Seq<u8>, b: Seq<u8>)
    ensures
        required_chars(s) == (required_bits(s) + 18) / 19,
        required_chars(s) == required_bits(s) / 19 + (if required_bits(s) % 19 > 0 {
            1nat
        } else {
            0nat
        }),
        encoded_bytes(s, b).len() == 4 * required_chars(s),
{
    lemma_ceil_19(required_bits(s) as int);
}

} // verus!
