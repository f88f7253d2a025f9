//! The deserializer: validates wire bytes with a cyclic four-state cursor,
//! extracts their payload bits, and redistributes the bits into an output
//! buffer under the schema's guidance.

use crate::bit_math::{bit_of, bits_bool, bits_val, lemma_bit_of_div, lemma_bits_val_bound, p2,
    pow2_u8};
use crate::char_byte_segment::{segment_at, CharByteSegment};
use crate::data_requirement::{
    entry_ok, get_data_requirement, schema_len_ok, schema_ok, skip_clamped,
};
use crate::error::StoreError;
use vstd::prelude::*;

verus! {

/// The prefix mask a wire byte must carry at offset `m` of its character.
pub open spec fn seg_mask(m: int) -> u8 {
    if m == 0 {
        0xF2
    } else {
        0x80
    }
}

/// True when every wire byte carries the fixed prefix bits its cyclic
/// position demands.
pub open spec fn wire_ok(w: Seq<u8>) -> bool {
    forall|i: int| 0 <= i < w.len() ==> #[trigger] (w[i] & seg_mask(i % 4)) == seg_mask(i % 4)
}

/// The payload bits one wire byte yields: the lead byte's lowest bit, or a
/// continuation byte's low six bits, most significant first.
pub open spec fn byte_payload(byte: u8, m: int) -> Seq<u8> {
    if m == 0 {
        seq![bit_of(byte, 0)]
    } else {
        Seq::new(6, |j: int| bit_of(byte, 5 - j))
    }
}

/// All payload bits of a wire byte sequence, in order.
pub open spec fn extracted_bits(w: Seq<u8>) -> Seq<u8>
    decreases w.len(),
{
    if w.len() == 0 {
        Seq::empty()
    } else {
        extracted_bits(w.drop_last()) + byte_payload(w.last(), (w.len() - 1) % 4)
    }
}

/// The number of bits one output byte takes under its schema slot: a
/// nullable marker takes its single presence bit, every other slot its own
/// bit count.
pub open spec fn slot_width(e: u8) -> int {
    if e == 0 {
        1
    } else {
        e as int
    }
}

/// `n` zero bytes.
pub open spec fn zero_bytes(n: nat) -> Seq<u8> {
    Seq::new(n, |i: int| 0u8)
}

/// Output bytes the reconstructor owes a schema: one per slot not
/// structurally skipped, counting each nullable payload through its count
/// entry.
pub open spec fn required_bytes(s: Seq<u8>) -> nat
    decreases s.len(),
{
    if s.len() == 0 {
        0
    } else if s[0] == 0 {
        if s.len() == 1 {
            1
        } else {
            1 + s[1] as nat + required_bytes(skip_clamped(s, 2 + s[1] as int))
        }
    } else {
        1 + required_bytes(s.skip(1))
    }
}

/// What reconstruction emits while schema slots and extracted bits remain:
/// whole slots byte by byte; on bit exhaustion mid-slot, the partial high
/// bits of one last byte; after a zero presence flag, the nullable payload's
/// placeholder zero bytes.
pub open spec fn recon(s: Seq<u8>, q: Seq<u8>) -> Seq<u8>
    decreases q.len(),
{
    if s.len() == 0 || q.len() == 0 {
        Seq::empty()
    } else {
        let c = slot_width(s[0]);
        if q.len() < c {
            seq![(bits_val(q) * p2(c - q.len())) as u8]
        } else if s[0] == 0 {
            if q[0] == 0 {
                if s.len() >= 2 {
                    seq![0u8] + zero_bytes(s[1] as nat) + recon(
                        skip_clamped(s, 2 + s[1] as int),
                        q.skip(1),
                    )
                } else {
                    seq![0u8]
                }
            } else {
                seq![q[0]] + recon(skip_clamped(s, 2), q.skip(1))
            }
        } else {
            seq![bits_val(q.take(c)) as u8] + recon(s.skip(1), q.skip(c))
        }
    }
}

/// The reconstructor's full output: `recon`'s bytes brought to the schema's
/// required byte count, zero bytes standing for slots the bits never
/// reached.
pub open spec fn decoded_bytes(s: Seq<u8>, q: Seq<u8>) -> Seq<u8> {
    let r = recon(s, q);
    let n = required_bytes(s);
    if r.len() >= n {
        r.take(n as int)
    } else {
        r + zero_bytes((n - r.len()) as nat)
    }
}

/// Validates wire bytes four at a time through the cyclic cursor and yields
/// their payload bits.
fn extract_bits(buffer: &Vec<u8>) -> (r: Result<Vec<u8>, StoreError>)
    ensures
        match r {
            Ok(q) => wire_ok(buffer@) && q@ == extracted_bits(buffer@) && bits_bool(q@),
            Err(e) => !wire_ok(buffer@) && e == StoreError::InvalidEncoding,
        },
{
    let ghost w = buffer@;
    let mut bits: Vec<u8> = Vec::new();
    let mut current_char_segment = CharByteSegment::Start;
    let mut i: usize = 0;
    assert(w.take(0) =~= Seq::<u8>::empty());
    while i < buffer.len()
        invariant
            w == buffer@,
            i <= w.len(),
            current_char_segment == segment_at((i % 4) as int),
            forall|j: int| 0 <= j < i ==> #[trigger] (w[j] & seg_mask(j % 4)) == seg_mask(j % 4),
            bits@ == extracted_bits(w.take(i as int)),
            bits_bool(bits@),
        decreases w.len() - i,
    {
        let char_byte = buffer[i];
        let ghost m = (i % 4) as int;
        let (char_mask, char_bit_space) = current_char_segment.next();
        assert(char_mask == seg_mask(m) && (char_bit_space == 1 <==> m == 0));
        if char_byte & char_mask != char_mask {
            assert(!wire_ok(w)) by {
                assert((w[i as int] & seg_mask(i as int % 4)) != seg_mask(i as int % 4));
            }
            return Err(StoreError::InvalidEncoding);
        }
        let ghost bits_before = bits@;
        if char_bit_space == 1 {
            bits.push(char_byte % 2);
            assert(bits@ =~= bits_before + byte_payload(char_byte, m));
        } else {
            let b5 = (char_byte / 32) % 2;
            let b4 = (char_byte / 16) % 2;
            let b3 = (char_byte / 8) % 2;
            let b2 = (char_byte / 4) % 2;
            let b1 = (char_byte / 2) % 2;
            let b0 = char_byte % 2;
            bits.push(b5);
            bits.push(b4);
            bits.push(b3);
            bits.push(b2);
            bits.push(b1);
            bits.push(b0);
            proof {
                lemma_bit_of_div(char_byte, 5);
                lemma_bit_of_div(char_byte, 4);
                lemma_bit_of_div(char_byte, 3);
                lemma_bit_of_div(char_byte, 2);
                lemma_bit_of_div(char_byte, 1);
                lemma_bit_of_div(char_byte, 0);
                assert(bits@ =~= bits_before + byte_payload(char_byte, m));
            }
        }
        proof {
            assert(w.take(i as int + 1).drop_last() =~= w.take(i as int));
            assert(w.take(i as int + 1).last() == w[i as int]);
            assert(extracted_bits(w.take(i as int + 1)) == extracted_bits(w.take(i as int))
                + byte_payload(w[i as int], m));
        }
        i = i + 1;
    }
    assert(w.take(w.len() as int) =~= w);
    Ok(bits)
}

/// The decoder: holds a checked, immutable schema of raw bit counts and
/// turns wire bytes back into buffers.
pub struct Deserializer {
    schema: Vec<u8>,
}

impl View for Deserializer {
    type V = Seq<u8>;

    /// A deserializer is its schema.
    closed spec fn view(&self) -> Seq<u8> {
        self.schema@
    }
}

impl Deserializer {
    /// Every constructed decoder carries a schema from the closed entry set,
    /// small enough for the reconstructor's cursor arithmetic.
    pub open spec fn wf(&self) -> bool {
        schema_ok(self@) && schema_len_ok(self@)
    }

    /// Checks the schema's entries once and wraps it; a rejected schema
    /// gives no decoder at all.
    pub fn new(unparsed_schema: Vec<u8>) -> (r: Result<Deserializer, StoreError>)
        requires
            schema_len_ok(unparsed_schema@),
        ensures
            match r {
                Ok(d) => schema_ok(unparsed_schema@) && d@ == unparsed_schema@ && d.wf(),
                Err(e) => !schema_ok(unparsed_schema@) && e == StoreError::UnsupportedBitCount,
            },
    {
        let n = unparsed_schema.len();
        let mut i: usize = 0;
        while i < n
            invariant
                n == unparsed_schema@.len(),
                i <= n,
                forall|j: int| 0 <= j < i ==> entry_ok(unparsed_schema@[j]),
            decreases n - i,
        {
            let e = unparsed_schema[i];
            if !(e == 0 || e == 1 || e == 2 || e == 4 || e == 8) {
                assert(!entry_ok(unparsed_schema@[i as int]));
                return Err(StoreError::UnsupportedBitCount);
            }
            i += 1;
        }
        Ok(Deserializer { schema: unparsed_schema })
    }

    /// Counts the output bytes the schema owes: one per slot, plus each
    /// nullable payload's placeholder bytes.
    fn compute_required_bytes(&self) -> (n: usize)
        requires
            self.wf(),
        ensures
            n == required_bytes(self@),
    {
        let ghost s = self@;
        let s_len = self.schema.len();
        let mut total: usize = 0;
        let mut si: usize = 0;
        assert(s.skip(0) =~= s);
        while si < s_len
            invariant
                s == self@,
                s_len == s.len(),
                schema_ok(s),
                schema_len_ok(s),
                si <= s_len,
                total <= 9 * si,
                total as nat + required_bytes(s.skip(si as int)) == required_bytes(s),
            decreases s_len - si,
        {
            let ghost tail = s.skip(si as int);
            assert(tail[0] == s[si as int]);
            let e = self.schema[si];
            if e == 0 {
                if si + 1 < s_len {
                    assert(tail[1] == s[si as int + 1]);
                    let count = self.schema[si + 1];
                    assert(entry_ok(s[si as int + 1]));
                    total = total + 1 + count as usize;
                    let jump = 2 + count as usize;
                    let si_next = if si + jump <= s_len {
                        si + jump
                    } else {
                        s_len
                    };
                    proof {
                        assert(skip_clamped(tail, 2 + count as int) =~= s.skip(si_next as int));
                    }
                    si = si_next;
                } else {
                    total = total + 1;
                    assert(tail.len() == 1);
                    si = s_len;
                    assert(required_bytes(s.skip(si as int)) == 0);
                }
            } else {
                proof {
                    assert(tail.skip(1) =~= s.skip(si as int + 1));
                }
                total = total + 1;
                si = si + 1;
            }
        }
        assert(s.skip(s_len as int) =~= Seq::<u8>::empty());
        total
    }

    /// Walks schema slots and extracted bits in parallel, completing one
    /// output byte per slot, skipping placeholder bytes after a zero
    /// presence flag, and stopping when either cursor runs out.
    #[verifier::rlimit(100)]
    fn reconstruct(&self, bits: &Vec<u8>, total: usize) -> (out: Vec<u8>)
        requires
            self.wf(),
            bits_bool(bits@),
            total == required_bytes(self@),
        ensures
            out@ == decoded_bytes(self@, bits@),
    {
        let ghost s = self@;
        let ghost q = bits@;
        let s_len = self.schema.len();
        let q_len = bits.len();
        let mut out: Vec<u8> = Vec::new();
        let mut si: usize = 0;
        let mut qi: usize = 0;
        assert(s.skip(0) =~= s);
        assert(q.skip(0) =~= q);
        while si < s_len && qi < q_len
            invariant
                s == self@,
                q == bits@,
                s_len == s.len(),
                q_len == q.len(),
                schema_ok(s),
                schema_len_ok(s),
                bits_bool(q),
                si <= s_len,
                qi <= q_len,
                recon(s, q) == out@ + recon(s.skip(si as int), q.skip(qi as int)),
            decreases q_len - qi, s_len - si,
        {
            let ghost stail = s.skip(si as int);
            let ghost qtail = q.skip(qi as int);
            assert(stail[0] == s[si as int]);
            let e = self.schema[si];
            assert(entry_ok(s[si as int]));
            let c: u8 = if e == 0 {
                1
            } else {
                e
            };
            assert(slot_width(stail[0]) == c as int);
            let remaining = q_len - qi;
            let take_n: usize = if remaining < c as usize {
                remaining
            } else {
                c as usize
            };
            let ghost qi0 = qi as int;
            let ghost out_start = out@;
            let mut acc: u8 = 0;
            let mut j: usize = 0;
            while j < take_n
                invariant
                    q == bits@,
                    q_len == q.len(),
                    bits_bool(q),
                    j <= take_n,
                    take_n <= 8,
                    qi == qi0,
                    qi0 + take_n <= q_len,
                    0 <= qi0,
                    acc as nat == bits_val(q.subrange(qi0, qi0 + j)),
                decreases take_n - j,
            {
                proof {
                    assert(q.subrange(qi0, qi0 + j).len() == j);
                    assert(bits_bool(q.subrange(qi0, qi0 + j)));
                    lemma_bits_val_bound(q.subrange(qi0, qi0 + j));
                    assert(q.subrange(qi0, qi0 + j + 1).drop_last() =~= q.subrange(qi0, qi0 + j));
                    assert(q.subrange(qi0, qi0 + j + 1).last() == q[qi0 + j]);
                }
                let bit = bits[qi + j];
                acc = 2 * acc + bit;
                j += 1;
            }
            let ghost slot_bits = q.subrange(qi0, qi0 + take_n);
            proof {
                lemma_bits_val_bound(slot_bits);
            }
            if take_n < c as usize {
                // the bit source ran dry mid-slot: keep the partial high
                // bits and stop
                let shift = c - take_n as u8;
                let p = pow2_u8(shift);
                proof {
                    assert(acc as nat * p2(shift as int) < p2(c as int)) by (nonlinear_arith)
                        requires
                            (acc as nat) < p2(take_n as int),
                            p2(shift as int) * p2(take_n as int) <= p2(c as int),
                            p2(shift as int) > 0,
                    ;
                    assert(qtail =~= slot_bits);
                    assert(recon(stail, qtail) == seq![(bits_val(qtail) * p2(
                        c as int - qtail.len(),
                    )) as u8]);
                }
                let partial = acc * p;
                out.push(partial);
                qi = q_len;
                proof {
                    assert(recon(s.skip(si as int), q.skip(q_len as int)) =~= Seq::<u8>::empty());
                    assert(out@ =~= out_start + recon(stail, qtail));
                    assert(out@ + recon(s.skip(si as int), q.skip(qi as int)) =~= out@);
                }
            } else {
                assert(qtail.take(c as int) =~= slot_bits);
                let qi_next = qi + c as usize;
                if e == 0 {
                    assert(qtail[0] == q[qi0]);
                    assert(acc as nat == bits_val(q.subrange(qi0, qi0 + 1)));
                    assert(q.subrange(qi0, qi0 + 1).drop_last() =~= Seq::<u8>::empty());
                    assert(acc == q[qi0]);
                    if acc == 0 {
                        if si + 1 < s_len {
                            assert(stail[1] == s[si as int + 1]);
                            let count = self.schema[si + 1];
                            assert(entry_ok(s[si as int + 1]));
                            let jump = 2 + count as usize;
                            let si_next = if si + jump <= s_len {
                                si + jump
                            } else {
                                s_len
                            };
                            proof {
                                assert(skip_clamped(stail, 2 + count as int) =~= s.skip(
                                    si_next as int,
                                ));
                                assert(qtail.skip(1) =~= q.skip(qi0 + 1));
                                assert(recon(stail, qtail) == seq![0u8] + zero_bytes(count as nat)
                                    + recon(s.skip(si_next as int), q.skip(qi0 + 1)));
                            }
                            let ghost out_before = out@;
                            out.push(0);
                            let mut z: usize = 0;
                            while z < count as usize
                                invariant
                                    z <= count as usize,
                                    out@ == out_before.push(0u8) + zero_bytes(z as nat),
                                decreases count as usize - z,
                            {
                                proof {
                                    assert((out_before.push(0u8) + zero_bytes(z as nat)).push(0u8)
                                        =~= out_before.push(0u8) + zero_bytes(z as nat + 1));
                                }
                                out.push(0);
                                z += 1;
                            }
                            si = si_next;
                            qi = qi_next;
                            proof {
                                let rest = recon(s.skip(si as int), q.skip(qi as int));
                                assert(out@ =~= out_start + (seq![0u8] + zero_bytes(count as nat)));
                                assert(out@ + rest =~= out_start + (seq![0u8] + zero_bytes(
                                    count as nat,
                                ) + rest));
                                assert(seq![0u8] + zero_bytes(count as nat) + rest
                                    =~= recon(stail, qtail));
                            }
                        } else {
                            // a marker without its count entry ends the walk
                            // after its own flag byte
                            assert(stail.len() == 1);
                            assert(recon(stail, qtail) == seq![0u8]);
                            out.push(0);
                            si = s_len;
                            qi = qi_next;
                            proof {
                                assert(recon(s.skip(s_len as int), q.skip(qi as int))
                                    =~= Seq::<u8>::empty());
                                assert(out@ =~= out_start + recon(stail, qtail));
                                assert(out@ + Seq::<u8>::empty() =~= out@);
                            }
                        }
                    } else {
                        let si_next = if si + 2 <= s_len {
                            si + 2
                        } else {
                            s_len
                        };
                        proof {
                            assert(skip_clamped(stail, 2) =~= s.skip(si_next as int));
                            assert(qtail.skip(1) =~= q.skip(qi0 + 1));
                            assert(recon(stail, qtail) == seq![qtail[0]] + recon(
                                s.skip(si_next as int),
                                q.skip(qi0 + 1),
                            ));
                        }
                        out.push(acc);
                        si = si_next;
                        qi = qi_next;
                        proof {
                            let rest = recon(s.skip(si as int), q.skip(qi as int));
                            assert(out@ =~= out_start + seq![q[qi0]]);
                            assert(out@ + rest =~= out_start + (seq![q[qi0]] + rest));
                        }
                    }
                } else {
                    proof {
                        assert(stail.skip(1) =~= s.skip(si as int + 1));
                        assert(qtail.skip(c as int) =~= q.skip(qi0 + c as int));
                        assert(recon(stail, qtail) == seq![bits_val(qtail.take(c as int)) as u8]
                            + recon(s.skip(si as int + 1), q.skip(qi0 + c as int)));
                    }
                    out.push(acc);
                    si = si + 1;
                    qi = qi_next;
                    proof {
                        let rest = recon(s.skip(si as int), q.skip(qi as int));
                        assert(out@ =~= out_start + seq![bits_val(qtail.take(c as int)) as u8]);
                        assert(out@ + rest =~= out_start + (seq![bits_val(
                            qtail.take(c as int),
                        ) as u8] + rest));
                    }
                }
            }
        }
        proof {
            if si >= s_len {
                assert(s.skip(s_len as int) =~= Seq::<u8>::empty());
            } else {
                assert(q.skip(q_len as int) =~= Seq::<u8>::empty());
            }
            assert(recon(s.skip(si as int), q.skip(qi as int)) =~= Seq::<u8>::empty());
            assert(out@ + Seq::<u8>::empty() =~= out@);
            assert(out@ == recon(s, q));
        }
        let ghost r = recon(s, q);
        assert(out@ =~= r + zero_bytes(0));
        while out.len() < total
            invariant
                r == recon(s, q),
                r.len() <= out@.len(),
                out@ == r + zero_bytes((out@.len() - r.len()) as nat),
            decreases total - out@.len(),
        {
            proof {
                assert((r + zero_bytes((out@.len() - r.len()) as nat)).push(0u8) =~= r
                    + zero_bytes((out@.len() + 1 - r.len()) as nat));
            }
            out.push(0);
        }
        if out.len() > total {
            out.truncate(total);
        }
        proof {
            if r.len() >= total as nat {
                assert(out@ =~= r.take(total as int));
            } else {
                assert(out@ =~= r + zero_bytes((total as nat - r.len()) as nat));
            }
        }
        out
    }

    /// Decodes wire bytes back into a buffer under this decoder's schema.
    ///
    /// Fails with `EmptyBuffer` on empty wire bytes, `EmptySchema` on a
    /// schema demanding zero bits, and `InvalidEncoding` on a wire byte that
    /// lacks its position's fixed prefix bits; otherwise returns the
    /// reconstruction of the extracted payload bits, absent nullable
    /// payloads standing as zero bytes.
    pub fn deserialize(&self, buffer: Vec<u8>) -> (r: Result<Vec<u8>, StoreError>)
        requires
            self.wf(),
        ensures
            ({
                let s = self@;
                let w = buffer@;
                match r {
                    Err(e) => (w.len() == 0 && e == StoreError::EmptyBuffer) || (w.len() > 0
                        && s.len() == 0 && e == StoreError::EmptySchema) || (w.len() > 0 && s.len()
                        > 0 && !wire_ok(w) && e == StoreError::InvalidEncoding),
                    Ok(out) => w.len() > 0 && s.len() > 0 && wire_ok(w) && out@ == decoded_bytes(
                        s,
                        extracted_bits(w),
                    ),
                }
            }),
    {
        match get_data_requirement(self.schema.as_slice(), buffer.as_slice()) {
            Ok(_) => (),
            Err(e) => {
                return Err(e);
            },
        };
        let bits = match extract_bits(&buffer) {
            Ok(q) => q,
            Err(e) => {
                return Err(e);
            },
        };
        let required_bytes_count = self.compute_required_bytes();
        let deserialized_buffer = self.reconstruct(&bits, required_bytes_count);
        Ok(deserialized_buffer)
    }
}

} // verus!
