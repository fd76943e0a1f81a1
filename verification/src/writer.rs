//! The bit writer: produces bits into an in-memory byte sink, MSB-first,
//! buffering a partial byte until it completes.

use vstd::prelude::*;
use vstd::arithmetic::power2::{
    lemma2_to64, lemma_pow2_adds, lemma_pow2_pos, lemma_pow2_strictly_increases, lemma_pow2_unfold,
    pow2,
};
use vstd::arithmetic::div_mod::lemma_fundamental_div_mod;
use crate::bits::{
    bits_of, byte_bits, bytes_bits, flushed_bytes, lemma_bits_of_index, lemma_bits_of_len,
    lemma_bits_of_zero, lemma_bytes_bits_len, lemma_bytes_bits_push, lemma_shift_zeros,
    lemma_stream_parts, lemma_val_of_bits_of, lemma_val_of_bound, val_of, zero_bits,
};
use crate::error::BitError;

verus! {

/// Writes individual bits and multi-bit integers into a byte sink, most
/// significant bit first.
///
/// `byte` accumulates the byte being built by left-shift-then-or; `bit_offset`
/// counts the bits already placed in it. A completed byte is pushed to `sink`
/// at once, so `bit_offset` stays below 8.
pub struct Writer {
    byte: u8,
    bit_offset: usize,
    sink: Vec<u8>,
}

impl Writer {
    /// The writer's internal invariant: the pending byte holds exactly
    /// `bit_offset` accumulated bits and nothing above them.
    pub closed spec fn wf(self) -> bool {
        self.bit_offset < 8 && (self.byte as nat) < pow2(self.bit_offset as nat)
    }

    /// The bytes flushed to the sink so far.
    pub closed spec fn sink_bytes(self) -> Seq<u8> {
        self.sink@
    }

    /// The bits accumulated in the pending partial byte, in writing order.
    pub closed spec fn buffered(self) -> Seq<bool> {
        bits_of(self.byte as nat, self.bit_offset as nat)
    }

    /// Every bit written so far: the sink's bytes MSB-first, then the pending
    /// partial byte's bits.
    pub open spec fn stream(self) -> Seq<bool> {
        bytes_bits(self.sink_bytes()) + self.buffered()
    }

    /// A well-formed writer buffers fewer than eight pending bits, so its
    /// `stream()` splits uniquely into sink bytes and pending bits (see
    /// `lemma_stream_parts`).
    pub proof fn lemma_wf_buffered(self)
        requires
            self.wf(),
        ensures
            self.buffered().len() < 8,
    {
        lemma_bits_of_len(self.byte as nat, self.bit_offset as nat);
    }

    /// Creates a writer that appends completed bytes to `sink`.
    pub fn new(sink: Vec<u8>) -> (w: Writer)
        ensures
            w.wf(),
            w.sink_bytes() == sink@,
            w.buffered() == Seq::<bool>::empty(),
    {
        let w = Writer { byte: 0, bit_offset: 0, sink };
        proof {
            lemma2_to64();
        }
        w
    }

    /// Appends one bit to the pending byte; a completed byte goes to the sink
    /// at once and the accumulator resets.
    pub fn write_bit(&mut self, write_one: bool) -> (r: Result<(), BitError>)
        requires
            old(self).wf(),
        ensures
            final(self).wf(),
            final(self).buffered().len() < 8,
            r == Ok::<(), BitError>(()),
            final(self).stream() == old(self).stream().push(write_one),
            old(self).buffered().len() < 7 ==> {
                &&& final(self).sink_bytes() == old(self).sink_bytes()
                &&& final(self).buffered() == old(self).buffered().push(write_one)
            },
            old(self).buffered().len() == 7 ==> {
                &&& final(self).sink_bytes() == old(self).sink_bytes().push(
                    val_of(old(self).buffered().push(write_one)) as u8,
                )
                &&& final(self).buffered() == Seq::<bool>::empty()
            },
    {
        proof {
            lemma2_to64();
            lemma_bits_of_len(self.byte as nat, self.bit_offset as nat);
            if self.bit_offset < 7 {
                lemma_pow2_strictly_increases(self.bit_offset as nat, 7);
            }
            lemma_pow2_unfold((self.bit_offset + 1) as nat);
        }
        // Left shift one so the next bit has room at the bottom.
        self.byte = self.byte * 2 + (if write_one {
            1
        } else {
            0
        });
        self.bit_offset = self.bit_offset + 1;
        proof {
            assert(self.byte as nat / 2 == old(self).byte as nat && (self.byte as nat % 2 == 1)
                == write_one) by {
                lemma_fundamental_div_mod(self.byte as int, 2);
            }
            assert(self.buffered() == old(self).buffered().push(write_one));
        }
        if self.bit_offset == 8 {
            // A full byte: hand it to the sink at once. The in-memory sink
            // accepts every byte, so a zero-bytes-accepted failure cannot
            // arise on this path.
            let ghost full = self.byte;
            let ghost pre_sink = self.sink@;
            self.sink.push(self.byte);
            self.byte = 0;
            self.bit_offset = 0;
            proof {
                lemma_bytes_bits_push(pre_sink, full);
                lemma_val_of_bits_of(full as nat, 8);
                assert(self.buffered() =~= Seq::<bool>::empty());
                assert(self.stream() =~= bytes_bits(pre_sink) + byte_bits(full));
                assert(bytes_bits(pre_sink) + byte_bits(full) =~= old(self).stream().push(
                    write_one,
                ));
            }
        } else {
            proof {
                assert(self.stream() =~= old(self).stream().push(write_one));
            }
        }
        Ok(())
    }

    /// Writes the `number_of_bits` least significant bits of `bits`, most
    /// significant of those first. Fails with `InvalidBitWidth` for a width
    /// over 128 and writes nothing then.
    #[verifier::loop_isolation(false)]
    pub fn write_bits(&mut self, bits: u128, number_of_bits: usize) -> (r: Result<(), BitError>)
        requires
            old(self).wf(),
        ensures
            final(self).wf(),
            final(self).buffered().len() < 8,
            number_of_bits > 128 ==> {
                &&& r == Err::<(), BitError>(BitError::InvalidBitWidth)
                &&& *final(self) == *old(self)
            },
            number_of_bits <= 128 ==> {
                &&& r == Ok::<(), BitError>(())
                &&& final(self).stream() == old(self).stream() + bits_of(
                    bits as nat,
                    number_of_bits as nat,
                )
            },
            number_of_bits == 0 ==> *final(self) == *old(self),
    {
        proof {
            lemma_bits_of_len(self.byte as nat, self.bit_offset as nat);
        }
        if number_of_bits > 128 {
            // Make sure we're not writing more than 128 bits.
            return Err(BitError::InvalidBitWidth);
        }
        let ghost orig = *old(self);
        let ghost target = bits_of(bits as nat, number_of_bits as nat);
        proof {
            lemma_bits_of_len(bits as nat, number_of_bits as nat);
        }
        if number_of_bits == 0 {
            proof {
                assert(orig.stream() + target =~= orig.stream());
            }
            return Ok(());
        }
        // Raise p to the weight of the most significant bit to emit.
        let mut p: u128 = 1;
        proof {
            lemma2_to64();
        }
        for k in 0..number_of_bits - 1
            invariant
                p as nat == pow2(k as nat),
        {
            proof {
                lemma_pow2_unfold((k + 1) as nat);
                lemma_pow2_strictly_increases((k + 1) as nat, 128);
                assert(pow2(128) == 0x10000000000000000 * 0x10000000000000000) by {
                    lemma_pow2_adds(64, 64);
                    lemma2_to64();
                }
            }
            p = p * 2;
        }
        // Emit from the most significant of the requested bits downwards.
        for i in 0..number_of_bits
            invariant
                self.wf(),
                i < number_of_bits ==> p as nat == pow2((number_of_bits - 1 - i) as nat),
                self.stream() == orig.stream() + target.take(i as int),
        {
            proof {
                lemma_pow2_pos((number_of_bits - 1 - i) as nat);
                lemma_bits_of_index(bits as nat, number_of_bits as nat, i as int);
            }
            let write_one = (bits / p) % 2 == 1;
            self.write_bit(write_one)?;
            proof {
                assert(target.take(i as int).push(target[i as int]) =~= target.take(i + 1));
                assert((orig.stream() + target.take(i as int)).push(write_one) =~= orig.stream()
                    + target.take(i + 1));
            }
            p = p / 2;
            proof {
                if i + 1 < number_of_bits {
                    lemma_pow2_unfold((number_of_bits - 1 - i) as nat);
                    lemma_fundamental_div_mod(p as int * 2, 2);
                }
            }
        }
        proof {
            assert(target.take(number_of_bits as int) =~= target);
            lemma_bits_of_len(self.byte as nat, self.bit_offset as nat);
        }
        Ok(())
    }

    /// Writes all eight bits of one byte, MSB-first.
    pub fn write_byte(&mut self, byte: u8) -> (r: Result<(), BitError>)
        requires
            old(self).wf(),
        ensures
            final(self).wf(),
            final(self).buffered().len() < 8,
            r == Ok::<(), BitError>(()),
            final(self).stream() == old(self).stream() + byte_bits(byte),
    {
        self.write_bits(byte as u128, 8)
    }

    /// Writes each byte of `bytes` in order.
    #[verifier::loop_isolation(false)]
    pub fn write_bytes(&mut self, bytes: Vec<u8>) -> (r: Result<(), BitError>)
        requires
            old(self).wf(),
        ensures
            final(self).wf(),
            final(self).buffered().len() < 8,
            r == Ok::<(), BitError>(()),
            final(self).stream() == old(self).stream() + bytes_bits(bytes@),
            bytes@.len() == 0 ==> *final(self) == *old(self),
    {
        let ghost orig = *old(self);
        proof {
            assert(orig.stream() + bytes_bits(bytes@.take(0)) =~= orig.stream());
            lemma_bits_of_len(self.byte as nat, self.bit_offset as nat);
        }
        let n = bytes.len();
        for i in 0..n
            invariant
                self.wf(),
                self.stream() == orig.stream() + bytes_bits(bytes@.take(i as int)),
                i == 0 ==> *self == orig,
        {
            let b = bytes[i];
            self.write_byte(b)?;
            proof {
                lemma_bytes_bits_push(bytes@.take(i as int), b);
                lemma_bytes_bits_len(bytes@.take(i as int));
                assert(bytes@.take(i as int).push(b) =~= bytes@.take(i + 1));
                assert((orig.stream() + bytes_bits(bytes@.take(i as int))) + byte_bits(b)
                    =~= orig.stream() + bytes_bits(bytes@.take(i + 1)));
            }
        }
        proof {
            assert(bytes@.take(n as int) =~= bytes@);
            lemma_bits_of_len(self.byte as nat, self.bit_offset as nat);
        }
        Ok(())
    }

    /// Completes a partially filled byte with zero bits below the bits
    /// already written, and flushes it; a no-op at a byte boundary.
    pub fn pad_to_byte(&mut self) -> (r: Result<(), BitError>)
        requires
            old(self).wf(),
        ensures
            final(self).wf(),
            r == Ok::<(), BitError>(()),
            final(self).sink_bytes() == flushed_bytes(
                old(self).sink_bytes(),
                old(self).buffered(),
            ),
            final(self).buffered() == Seq::<bool>::empty(),
            old(self).buffered().len() == 0 ==> *final(self) == *old(self),
    {
        proof {
            lemma_bits_of_len(self.byte as nat, self.bit_offset as nat);
        }
        if self.bit_offset != 0 {
            let ghost orig = *old(self);
            let k = 8 - self.bit_offset;
            self.write_bits(0, k)?;
            proof {
                let buf = orig.buffered();
                let kn = k as nat;
                lemma_bits_of_zero(kn);
                lemma_bits_of_len(self.byte as nat, self.bit_offset as nat);
                lemma_bytes_bits_len(self.sink@);
                lemma_bytes_bits_len(orig.sink@);
                // The stream now ends on a byte boundary, so nothing stays
                // buffered.
                assert(self.stream().len() == 8 * orig.sink@.len() + 8);
                assert(self.buffered().len() == 0);
                assert(self.buffered() =~= Seq::<bool>::empty());
                // The flushed byte carries the old partial bits, left
                // justified over zeros.
                lemma_val_of_bound(buf);
                lemma_pow2_pos(kn);
                assert(pow2(buf.len()) * pow2(kn) == 256) by {
                    lemma_pow2_adds(buf.len(), kn);
                    lemma2_to64();
                }
                assert(val_of(buf) * pow2(kn) < 256) by (nonlinear_arith)
                    requires
                        val_of(buf) < pow2(buf.len()),
                        pow2(buf.len()) * pow2(kn) == 256,
                        pow2(kn) > 0,
                ;
                let x = (val_of(buf) * pow2(kn)) as u8;
                lemma_shift_zeros(buf, kn);
                assert(byte_bits(x) == buf + zero_bits(kn));
                lemma_bytes_bits_push(orig.sink@, x);
                assert(bytes_bits(orig.sink@.push(x)) =~= self.stream());
                assert(self.stream() =~= bytes_bits(self.sink@) + self.buffered());
                lemma_stream_parts(
                    self.sink@,
                    self.buffered(),
                    orig.sink@.push(x),
                    Seq::<bool>::empty(),
                );
                assert(final(self).sink_bytes() == flushed_bytes(
                    orig.sink_bytes(),
                    orig.buffered(),
                ));
            }
        } else {
            proof {
                assert(self.buffered() =~= Seq::<bool>::empty());
            }
        }
        Ok(())
    }

    /// Flushes the pending byte exactly as accumulated, without shifting its
    /// bits towards the high end, then resets; it emits one byte even when
    /// nothing or only part of a byte is pending.
    pub fn front_pad_to_byte(&mut self) -> (r: Result<(), BitError>)
        requires
            old(self).wf(),
        ensures
            final(self).wf(),
            r == Ok::<(), BitError>(()),
            final(self).sink_bytes() == old(self).sink_bytes().push(
                val_of(old(self).buffered()) as u8,
            ),
            final(self).buffered() == Seq::<bool>::empty(),
    {
        // The in-memory sink accepts every byte, so a zero-bytes-accepted
        // failure cannot arise on this path.
        self.sink.push(self.byte);
        self.byte = 0;
        self.bit_offset = 0;
        proof {
            lemma2_to64();
            lemma_bits_of_len(old(self).byte as nat, old(self).bit_offset as nat);
            lemma_val_of_bits_of(old(self).byte as nat, old(self).bit_offset as nat);
            assert(self.buffered() =~= Seq::<bool>::empty());
        }
        Ok(())
    }

    /// Read-only access to the underlying byte sink, for callers that need to
    /// inspect what has been flushed.
    pub fn get_ref(&self) -> (r: &Vec<u8>)
        ensures
            r@ == self.sink_bytes(),
    {
        &self.sink
    }

    /// Pads any incomplete trailing byte with zero bits and flushes it, so
    /// that every bit written so far has reached the sink. With nothing
    /// buffered it changes nothing: flushing twice adds no byte.
    pub fn flush(&mut self) -> (r: Result<(), BitError>)
        requires
            old(self).wf(),
        ensures
            final(self).wf(),
            r == Ok::<(), BitError>(()),
            final(self).sink_bytes() == flushed_bytes(
                old(self).sink_bytes(),
                old(self).buffered(),
            ),
            final(self).buffered() == Seq::<bool>::empty(),
            old(self).buffered().len() == 0 ==> *final(self) == *old(self),
    {
        // The in-memory sink has no further buffering layer of its own.
        self.pad_to_byte()
    }
}

} // verus!
