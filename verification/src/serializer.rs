//! The serializer: flattens a buffer into a bit queue under the schema's
//! guidance, then packs the queue into valid 4-byte UTF-8 characters.

use crate::bit_math::{bit_of, bits_bool, byte_bits, lemma_bit_of_bool, lemma_bit_of_div, pow2_u8};
use crate::constants::CHAR_BIT_SPACE;
use crate::data_requirement::{
    entry_ok, get_data_requirement, lemma_required_bits_bound, required_bits, required_chars,
    schema_len_ok, schema_ok, skip_clamped,
};
use crate::error::StoreError;
use vstd::arithmetic::div_mod::lemma_fundamental_div_mod_converse;
use vstd::prelude::*;
use vstd::utf8::*;

verus! {

/// True when the lockstep walk of schema and buffer consumes every buffer
/// byte without running out of schema entries, and finds the count entry
/// that a null presence flag needs.
///
/// A pair outside this walk is a caller contract violation: the serializer
/// treats it as fatal rather than recoverable.
pub open spec fn walk_ok(s: Seq<u8>, b: Seq<u8>) -> bool
    decreases b.len(),
{
    if b.len() == 0 {
        true
    } else if s.len() == 0 {
        false
    } else if s[0] == 0 {
        if b[0] == 0 {
            s.len() >= 2 && walk_ok(skip_clamped(s, 2 + s[1] as int), b.skip(1))
        } else {
            walk_ok(skip_clamped(s, 2), b.skip(1))
        }
    } else {
        walk_ok(s.skip(1), b.skip(1))
    }
}

/// The ordered bit sequence the walk emits: one presence bit per nullable
/// flag byte, and the significant bits of every fixed-width byte, most
/// significant first.
pub open spec fn bit_queue(s: Seq<u8>, b: Seq<u8>) -> Seq<u8>
    decreases b.len(),
{
    if b.len() == 0 || s.len() == 0 {
        Seq::empty()
    } else if s[0] == 0 {
        if b[0] == 0 {
            seq![0u8] + bit_queue(
                skip_clamped(
                    s,
                    2 + if s.len() >= 2 {
                        s[1] as int
                    } else {
                        0
                    },
                ),
                b.skip(1),
            )
        } else {
            seq![1u8] + bit_queue(skip_clamped(s, 2), b.skip(1))
        }
    } else {
        byte_bits(b[0], s[0] as int) + bit_queue(s.skip(1), b.skip(1))
    }
}

/// What `serialize` asks of its caller: whenever the requirement calculator
/// would accept the pair, the walk must go through.
pub open spec fn serialize_safe(s: Seq<u8>, b: Seq<u8>) -> bool {
    (s.len() > 0 && b.len() > 0 && schema_ok(s)) ==> walk_ok(s, b)
}

/// The queue bit at `i`, reading zero past the end: the queue is padded with
/// zero bits up to the rounded-up character count.
pub open spec fn qbit(q: Seq<u8>, i: int) -> u8 {
    if 0 <= i < q.len() {
        q[i]
    } else {
        0
    }
}

/// A continuation byte carrying the six queue bits from `start` on, most
/// significant first, behind the fixed `10` prefix.
pub open spec fn frame_cont_byte(q: Seq<u8>, start: int) -> u8 {
    (0x80 + 32 * qbit(q, start) + 16 * qbit(q, start + 1) + 8 * qbit(q, start + 2) + 4 * qbit(
        q,
        start + 3,
    ) + 2 * qbit(q, start + 4) + qbit(q, start + 5)) as u8
}

/// Wire byte `i` of the encoding of queue `q`: each character holds 19 queue
/// bits, one in its lead byte and six in each continuation byte.
pub open spec fn wire_byte(q: Seq<u8>, i: int) -> u8 {
    let k = i / 4;
    let m = i % 4;
    if m == 0 {
        (0xF2 + qbit(q, 19 * k)) as u8
    } else {
        frame_cont_byte(q, 19 * k + 1 + 6 * (m - 1))
    }
}

/// All elements of a bit queue are single bits.
pub proof fn lemma_bit_queue_bool(s: Seq<u8>, b: Seq<u8>)
    ensures
        bits_bool(bit_queue(s, b)),
    decreases b.len(),
{
    if b.len() == 0 || s.len() == 0 {
    } else if s[0] == 0 {
        if b[0] == 0 {
            lemma_bit_queue_bool(
                skip_clamped(
                    s,
                    2 + if s.len() >= 2 {
                        s[1] as int
                    } else {
                        0
                    },
                ),
                b.skip(1),
            );
        } else {
            lemma_bit_queue_bool(skip_clamped(s, 2), b.skip(1));
        }
    } else {
        lemma_bit_queue_bool(s.skip(1), b.skip(1));
        assert forall|i: int| 0 <= i < byte_bits(b[0], s[0] as int).len() implies byte_bits(
            b[0],
            s[0] as int,
        )[i] == 0 || byte_bits(b[0], s[0] as int)[i] == 1 by {
            lemma_bit_of_bool(b[0], s[0] - 1 - i);
        }
    }
}

/// The encoder: holds a parsed-once, immutable schema of raw bit counts and
/// turns matching byte buffers into text.
pub struct Serializer {
    schema: Vec<u8>,
}

impl View for Serializer {
    type V = Seq<u8>;

    /// A serializer is its schema.
    closed spec fn view(&self) -> Seq<u8> {
        self.schema@
    }
}

impl Serializer {
    /// Wraps a raw bit-count schema; entries are checked per call.
    pub fn new(schema: Vec<u8>) -> (r: Serializer)
        ensures
            r@ == schema@,
    {
        Serializer { schema }
    }

    /// Walks buffer and schema in lockstep and emits the ordered bit queue.
    fn collect_bit_queue(&self, buffer: Vec<u8>) -> (q: Vec<u8>)
        requires
            schema_ok(self@),
            walk_ok(self@, buffer@),
            self@.len() + 16 <= usize::MAX,
        ensures
            q@ == bit_queue(self@, buffer@),
            bits_bool(q@),
    {
        let ghost s = self@;
        let ghost b = buffer@;
        let s_len = self.schema.len();
        let mut q: Vec<u8> = Vec::new();
        let mut si: usize = 0;
        let mut bi: usize = 0;
        assert(s.skip(0) =~= s);
        assert(b.skip(0) =~= b);
        while bi < buffer.len()
            invariant
                s == self@,
                b == buffer@,
                s_len == s.len(),
                s_len + 16 <= usize::MAX,
                schema_ok(s),
                si <= s_len,
                bi <= b.len(),
                walk_ok(s.skip(si as int), b.skip(bi as int)),
                bit_queue(s, b) == q@ + bit_queue(s.skip(si as int), b.skip(bi as int)),
                bits_bool(q@),
            decreases b.len() - bi,
        {
            let ghost stail = s.skip(si as int);
            let ghost btail = b.skip(bi as int);
            assert(btail.len() > 0);
            assert(stail.len() > 0);
            assert(stail[0] == s[si as int]);
            assert(btail[0] == b[bi as int]);
            let data_segment = buffer[bi];
            let bit_count = self.schema[si];
            if bit_count == 0 {
                if data_segment == 0 {
                    assert(stail.len() >= 2);
                    assert(stail[1] == s[si as int + 1]);
                    let nullable_bytes = self.schema[si + 1];
                    let jump = 2 + nullable_bytes as usize;
                    let si_next = if si + jump <= s_len {
                        si + jump
                    } else {
                        s_len
                    };
                    proof {
                        assert(skip_clamped(stail, 2 + nullable_bytes as int) =~= s.skip(
                            si_next as int,
                        ));
                        assert(bit_queue(stail, btail) == seq![0u8] + bit_queue(
                            s.skip(si_next as int),
                            btail.skip(1),
                        ));
                        assert(btail.skip(1) =~= b.skip(bi as int + 1));
                        assert(q@ + bit_queue(stail, btail) =~= q@.push(0u8) + bit_queue(
                            s.skip(si_next as int),
                            b.skip(bi as int + 1),
                        ));
                    }
                    q.push(0);
                    si = si_next;
                } else {
                    let si_next = if si + 2 <= s_len {
                        si + 2
                    } else {
                        s_len
                    };
                    proof {
                        assert(skip_clamped(stail, 2) =~= s.skip(si_next as int));
                        assert(btail.skip(1) =~= b.skip(bi as int + 1));
                        assert(q@ + bit_queue(stail, btail) =~= q@.push(1u8) + bit_queue(
                            s.skip(si_next as int),
                            b.skip(bi as int + 1),
                        ));
                    }
                    q.push(1);
                    si = si_next;
                }
            } else {
                assert(entry_ok_width(bit_count)) by {
                    assert(entry_ok(s[si as int]));
                }
                let ghost q_before = q@;
                let ghost width = bit_count as int;
                let mut offset = bit_count;
                while offset > 0
                    invariant
                        bits_bool(q@),
                        offset <= bit_count,
                        bit_count <= 8,
                        bi < b.len(),
                        b == buffer@,
                        data_segment == b[bi as int],
                        width == bit_count as int,
                        q@ == q_before + byte_bits(data_segment, width).take(width - offset),
                    decreases offset,
                {
                    offset = offset - 1;
                    let p = pow2_u8(offset);
                    let bit = (data_segment / p) % 2;
                    proof {
                        lemma_bit_of_div(data_segment, offset as int);
                        assert(byte_bits(data_segment, width)[width - 1 - offset] == bit_of(
                            data_segment,
                            offset as int,
                        ));
                        assert(q@.push(bit) =~= q_before + byte_bits(data_segment, width).take(
                            width - offset,
                        ));
                    }
                    q.push(bit);
                }
                proof {
                    assert(byte_bits(data_segment, width).take(width) =~= byte_bits(
                        data_segment,
                        width,
                    ));
                    assert(stail.skip(1) =~= s.skip(si as int + 1));
                    assert(btail.skip(1) =~= b.skip(bi as int + 1));
                    assert(q_before + (byte_bits(data_segment, width) + bit_queue(
                        s.skip(si as int + 1),
                        b.skip(bi as int + 1),
                    )) =~= q@ + bit_queue(s.skip(si as int + 1), b.skip(bi as int + 1)));
                }
                si = si + 1;
            }
            bi = bi + 1;
        }
        assert(b.skip(b.len() as int) =~= Seq::<u8>::empty());
        assert(q@ + Seq::<u8>::empty() =~= q@);
        q
    }

    /// Packs the bit queue into `required_chars` 4-byte characters, each with
    /// its lead byte pinned to the `0xF2` pattern and zero bits past the end
    /// of the queue.
    fn write_serialized_buffer(&self, bit_queue: &Vec<u8>, required_chars: usize) -> (w: Vec<u8>)
        requires
            bits_bool(bit_queue@),
            19 * required_chars + 19 <= usize::MAX,
            4 * required_chars <= usize::MAX,
        ensures
            w@ == Seq::new((4 * required_chars) as nat, |i: int| wire_byte(bit_queue@, i)),
    {
        let ghost q = bit_queue@;
        let mut serialized_buffer: Vec<u8> = Vec::new();
        let mut char_index: usize = 0;
        while char_index < required_chars
            invariant
                q == bit_queue@,
                bits_bool(q),
                char_index <= required_chars,
                19 * required_chars + 19 <= usize::MAX,
                4 * required_chars <= usize::MAX,
                serialized_buffer@ =~= Seq::new((4 * char_index) as nat, |i: int| wire_byte(q, i)),
            decreases required_chars - char_index,
        {
            let qbase = CHAR_BIT_SPACE * char_index;
            let lead = 0xF2 + bit_at(bit_queue, qbase);
            let c1 = make_cont_byte(bit_queue, qbase + 1);
            let c2 = make_cont_byte(bit_queue, qbase + 7);
            let c3 = make_cont_byte(bit_queue, qbase + 13);
            proof {
                lemma_wire_byte_group(q, char_index as int);
            }
            serialized_buffer.push(lead);
            serialized_buffer.push(c1);
            serialized_buffer.push(c2);
            serialized_buffer.push(c3);
            char_index = char_index + 1;
            proof {
                assert(serialized_buffer@ =~= Seq::new(
                    (4 * char_index) as nat,
                    |i: int| wire_byte(q, i),
                ));
            }
        }
        serialized_buffer
    }

    /// Encodes a buffer under this serializer's schema into text made of
    /// 4-byte UTF-8 characters, 19 payload bits to a character.
    ///
    /// Fails with `EmptyBuffer` on an empty buffer, `EmptySchema` on a schema
    /// demanding zero bits, and `UnsupportedBitCount` on an entry outside
    /// {0, 1, 2, 4, 8}; otherwise the text's UTF-8 bytes are exactly the
    /// frame of the pair's bit queue.
    pub fn serialize(&self, buffer: Vec<u8>) -> (r: Result<String, StoreError>)
        requires
            schema_len_ok(self@),
            serialize_safe(self@, buffer@),
        ensures
            ({
                let s = self@;
                let b = buffer@;
                match r {
                    Err(e) => (b.len() == 0 && e == StoreError::EmptyBuffer) || (b.len() > 0
                        && s.len() > 0 && !schema_ok(s) && e == StoreError::UnsupportedBitCount) || (
                    b.len() > 0 && s.len() == 0 && e == StoreError::EmptySchema),
                    Ok(text) => b.len() > 0 && s.len() > 0 && schema_ok(s) && encode_utf8(text@)
                        == encoded_bytes(s, b) && text@ == decode_utf8(encoded_bytes(s, b))
                        && text@.len() == required_chars(s) && (forall|k: int|
                        0 <= k < text@.len() ==> 0x10000 <= #[trigger] (text@[k] as u32)
                            <= 0x10FFFF),
                }
            }),
    {
        let ghost s = self@;
        let ghost b = buffer@;
        let (chars_needed, _bits_needed) = match get_data_requirement(
            self.schema.as_slice(),
            buffer.as_slice(),
        ) {
            Ok(p) => p,
            Err(e) => {
                return Err(e);
            },
        };
        proof {
            lemma_required_bits_bound(s);
            vstd::arithmetic::div_mod::lemma_fundamental_div_mod(
                required_bits(s) as int + 18,
                19,
            );
            assert(19 * chars_needed <= required_bits(s) + 18);
        }
        let bit_queue = self.collect_bit_queue(buffer);
        let serialized_buffer = self.write_serialized_buffer(&bit_queue, chars_needed);
        proof {
            lemma_framed_utf8(bit_queue@, chars_needed as nat);
            assert(serialized_buffer@ =~= framed_bytes(bit_queue@, chars_needed as nat));
            assert(serialized_buffer@ == encoded_bytes(s, b));
        }
        let text = string_from_utf8(serialized_buffer);
        proof {
            encode_utf8_decode_utf8(text@);
        }
        Ok(text)
    }
}

/// The byte sequence `serialize` produces for a schema and matching buffer.
pub open spec fn encoded_bytes(s: Seq<u8>, b: Seq<u8>) -> Seq<u8> {
    framed_bytes(bit_queue(s, b), required_chars(s))
}

/// Relies on `String::from_utf8`: on input that is valid UTF-8 it returns
/// `Ok` of the string whose byte content is exactly the input bytes.
#[verifier::external_body]
fn string_from_utf8(bytes: Vec<u8>) -> (r: String)
    requires
        valid_utf8(bytes@),
    ensures
        encode_utf8(r@) == bytes@,
{
    String::from_utf8(bytes).unwrap()
}

/// A nonzero entry of the closed set is a field width of at most one byte.
pub open spec fn entry_ok_width(e: u8) -> bool {
    e == 1 || e == 2 || e == 4 || e == 8
}

/// The wire image of a bit queue: `n` characters of four bytes each.
pub open spec fn framed_bytes(q: Seq<u8>, n: nat) -> Seq<u8> {
    Seq::new(4 * n, |i: int| wire_byte(q, i))
}

/// Queue bits read after dropping one character's worth of bits.
proof fn lemma_qbit_shift(q: Seq<u8>, j: int)
    requires
        j >= 0,
    ensures
        qbit(skip_clamped(q, 19), j) == qbit(q, j + 19),
{
}

/// Wire bytes past the first character frame the shifted queue.
proof fn lemma_wire_shift(q: Seq<u8>, i: int)
    requires
        i >= 0,
    ensures
        wire_byte(q, i + 4) == wire_byte(skip_clamped(q, 19), i),
{
    vstd::arithmetic::div_mod::lemma_fundamental_div_mod(i, 4);
    lemma_fundamental_div_mod_converse(i + 4, 4, i / 4 + 1, i % 4);
    let k = i / 4;
    let m = i % 4;
    if m == 0 {
        lemma_qbit_shift(q, 19 * k);
    } else {
        lemma_qbit_shift(q, 19 * k + 1 + 6 * (m - 1));
        lemma_qbit_shift(q, 19 * k + 2 + 6 * (m - 1));
        lemma_qbit_shift(q, 19 * k + 3 + 6 * (m - 1));
        lemma_qbit_shift(q, 19 * k + 4 + 6 * (m - 1));
        lemma_qbit_shift(q, 19 * k + 5 + 6 * (m - 1));
        lemma_qbit_shift(q, 19 * k + 6 + 6 * (m - 1));
    }
}

/// A continuation byte built from single bits stays within `0x80..=0xBF`.
proof fn lemma_cont_range(q: Seq<u8>, start: int)
    requires
        bits_bool(q),
    ensures
        0x80 <= frame_cont_byte(q, start) <= 0xBF,
{
}

/// The code point carried by one framed character falls in the 4-byte range.
proof fn lemma_codepoint_range(b1: u8, b2: u8, b3: u8, b4: u8)
    by (bit_vector)
    requires
        b1 == 0xF2 || b1 == 0xF3,
        0x80 <= b2 <= 0xBF,
        0x80 <= b3 <= 0xBF,
        0x80 <= b4 <= 0xBF,
    ensures
        0x80000 <= vstd::utf8::codepoint_width_4(b1, b2, b3, b4) <= 0xFFFFF,
{
}

/// Every framed wire image is valid UTF-8: it decodes to exactly one code
/// point per character, each inside the 4-byte range `U+10000..=U+10FFFF`.
pub proof fn lemma_framed_utf8(q: Seq<u8>, n: nat)
    requires
        bits_bool(q),
    ensures
        vstd::utf8::valid_utf8(framed_bytes(q, n)),
        vstd::utf8::decode_utf8(framed_bytes(q, n)).len() == n,
        forall|k: int|
            0 <= k < n ==> 0x10000 <= #[trigger] (vstd::utf8::decode_utf8(framed_bytes(q, n))[k]
                as u32) <= 0x10FFFF,
    decreases n,
{
    let w = framed_bytes(q, n);
    if n == 0 {
        assert(w =~= Seq::<u8>::empty());
    } else {
        lemma_wire_byte_group(q, 0);
        let b1 = w[0];
        let b2 = w[1];
        let b3 = w[2];
        let b4 = w[3];
        assert(b1 == (0xF2 + qbit(q, 0)) as u8);
        assert(b1 == 0xF2 || b1 == 0xF3);
        lemma_cont_range(q, 1);
        lemma_cont_range(q, 7);
        lemma_cont_range(q, 13);
        assert(is_leading_byte_width_4(b1));
        assert(!is_leading_byte_width_1(b1) && !is_leading_byte_width_2(b1)
            && !is_leading_byte_width_3(b1));
        assert(is_continuation_byte(b2) && is_continuation_byte(b3) && is_continuation_byte(b4));
        assert(valid_leading_and_continuation_bytes_first_codepoint(w));
        assert(length_of_first_codepoint(w) == 4);
        let cp = codepoint_width_4(b1, b2, b3, b4);
        lemma_codepoint_range(b1, b2, b3, b4);
        assert(decode_first_codepoint(w) == cp);
        assert(not_overlong_encoding(cp, 4));
        assert(not_surrogate(cp));
        assert(valid_first_scalar(w));
        let q2 = skip_clamped(q, 19);
        assert(bits_bool(q2));
        let rest = framed_bytes(q2, (n - 1) as nat);
        assert(pop_first_scalar(w) =~= rest) by {
            assert forall|i: int| 0 <= i < 4 * (n - 1) implies pop_first_scalar(w)[i] == rest[i] by {
                lemma_wire_shift(q, i);
            }
        }
        lemma_framed_utf8(q2, (n - 1) as nat);
        assert(valid_utf8(w));
        let chars = decode_utf8(w);
        let tail_chars = decode_utf8(rest);
        assert(chars == seq![decode_first_scalar(w) as char] + tail_chars);
        assert(chars.len() == n);
        assert(0x10000 <= cp <= 0x10FFFF);
        assert((cp as char) as u32 == cp);
        assert forall|k: int| 0 <= k < n implies 0x10000 <= #[trigger] (chars[k] as u32)
            <= 0x10FFFF by {
            if k == 0 {
                assert(chars[0] == cp as char);
            } else {
                assert(chars[k] == tail_chars[k - 1]);
            }
        }
    }
}

/// Names the four wire bytes of character `k`.
proof fn lemma_wire_byte_group(q: Seq<u8>, k: int)
    requires
        k >= 0,
    ensures
        wire_byte(q, 4 * k) == (0xF2 + qbit(q, 19 * k)) as u8,
        wire_byte(q, 4 * k + 1) == frame_cont_byte(q, 19 * k + 1),
        wire_byte(q, 4 * k + 2) == frame_cont_byte(q, 19 * k + 7),
        wire_byte(q, 4 * k + 3) == frame_cont_byte(q, 19 * k + 13),
{
    lemma_fundamental_div_mod_converse(4 * k, 4, k, 0);
    lemma_fundamental_div_mod_converse(4 * k + 1, 4, k, 1);
    lemma_fundamental_div_mod_converse(4 * k + 2, 4, k, 2);
    lemma_fundamental_div_mod_converse(4 * k + 3, 4, k, 3);
}

/// Reads one queue bit, zero past the end of the queue.
fn bit_at(q: &Vec<u8>, i: usize) -> (r: u8)
    requires
        bits_bool(q@),
    ensures
        r == qbit(q@, i as int),
        r == 0 || r == 1,
{
    if i < q.len() {
        q[i]
    } else {
        0
    }
}

/// Builds one continuation byte from the six queue bits at `start`.
fn make_cont_byte(q: &Vec<u8>, start: usize) -> (v: u8)
    requires
        bits_bool(q@),
        start + 5 <= usize::MAX,
    ensures
        v == frame_cont_byte(q@, start as int),
{
    let b0 = bit_at(q, start);
    let b1 = bit_at(q, start + 1);
    let b2 = bit_at(q, start + 2);
    let b3 = bit_at(q, start + 3);
    let b4 = bit_at(q, start + 4);
    let b5 = bit_at(q, start + 5);
    0x80 + 32 * b0 + 16 * b1 + 8 * b2 + 4 * b3 + 2 * b4 + b5
}

} // verus!
