//! The bit reader: consumes bits from an in-memory byte source, MSB-first,
//! through a one-byte lookahead buffer.

use vstd::prelude::*;
use vstd::arithmetic::power2::{
    lemma2_to64, lemma_pow2_adds, lemma_pow2_strictly_increases, lemma_pow2_unfold, pow2,
};
use vstd::arithmetic::div_mod::lemma_fundamental_div_mod;
use crate::bits::{
    bits_of, bytes_bits, bytes_from_bits, lemma_bits_of_index, lemma_bits_of_len,
    lemma_bits_of_val_of, lemma_bytes_bits_len, lemma_bytes_bits_push, lemma_bytes_round_trip,
    lemma_mod_pow2_bit, lemma_val_of_bound, val_of,
};
use crate::error::BitError;

verus! {

/// Reads individual bits and multi-bit integers from a byte source, most
/// significant bit first.
///
/// `byte` holds the most recently fetched byte, consumed bit by bit by left
/// shifts; `bit_offset` counts the bits already consumed from it (8 means
/// exhausted); `pos` is the index of the next source byte to fetch.
pub struct Reader {
    byte: u8,
    bit_offset: usize,
    source: Vec<u8>,
    pos: usize,
}

impl Reader {
    /// The reader's internal invariant.
    pub closed spec fn wf(self) -> bool {
        self.bit_offset <= 8 && self.pos <= self.source@.len()
    }

    /// The bits not yet consumed: what is left of the buffered byte, then the
    /// bits of the source bytes not yet fetched.
    pub closed spec fn remaining(self) -> Seq<bool> {
        bits_of(self.byte as nat, 8).take(8 - self.bit_offset)
            + bytes_bits(self.source@.skip(self.pos as int))
    }

    /// The byte source this reader was created over; it never changes.
    pub closed spec fn source_bytes(self) -> Seq<u8> {
        self.source@
    }

    /// Creates a reader that will consume the bits of `source`, MSB-first.
    pub fn new(source: Vec<u8>) -> (r: Reader)
        ensures
            r.wf(),
            r.remaining() == bytes_bits(source@),
            r.source_bytes() == source@,
    {
        let r = Reader { byte: 0, bit_offset: 8, source, pos: 0 };
        proof {
            lemma_bits_of_len(0, 8);
            assert(r.source@.skip(0) =~= r.source@);
            assert(r.remaining() =~= bytes_bits(r.source@));
        }
        r
    }

    /// Takes the most significant unread bit out of the buffered byte by
    /// shifting it left, and advances the offset.
    fn extract_bit(&mut self) -> (front_is_one: bool)
        requires
            old(self).wf(),
            old(self).bit_offset < 8,
        ensures
            final(self).wf(),
            final(self).source_bytes() == old(self).source_bytes(),
            front_is_one == old(self).remaining()[0],
            final(self).remaining() == old(self).remaining().skip(1),
    {
        let ghost c = self.byte as nat;
        let ghost off = self.bit_offset as int;
        let front_is_one = self.byte >= 128;
        // Pushes the front bit off the buffer, as a shift would.
        self.byte = (self.byte % 128) * 2;
        self.bit_offset = self.bit_offset + 1;
        proof {
            lemma_bits_of_len(c, 8);
            lemma_bits_of_len((c % 128) * 2, 8);
            lemma_bits_of_len(c % 128, 7);
            // The emitted bit is the most significant one of the buffered byte.
            assert(bits_of(c, 8)[0] == (c / pow2(7) % 2 == 1)) by {
                lemma_bits_of_index(c, 8, 0);
            }
            assert(pow2(7) == 128) by {
                lemma2_to64();
            }
            assert(c / 128 % 2 == (if c >= 128 {
                1nat
            } else {
                0nat
            })) by {
                lemma_fundamental_div_mod(c as int, 128);
            }
            assert(old(self).remaining()[0] == bits_of(c, 8)[0]);
            // The shifted byte carries the other unread bits, one slot earlier.
            assert(bits_of((c % 128) * 2, 8) == bits_of(c % 128, 7).push(false)) by {
                assert(((c % 128) * 2) / 2 == c % 128 && ((c % 128) * 2) % 2 == 0) by {
                    lemma_fundamental_div_mod(((c % 128) * 2) as int, 2);
                }
            }
            assert forall|i: int| 0 <= i < 7 - off implies #[trigger] bits_of(c % 128, 7)[i]
                == bits_of(c, 8)[i + 1] by {
                lemma_bits_of_index(c % 128, 7, i);
                lemma_bits_of_index(c, 8, i + 1);
                assert((c % pow2(7)) / pow2((6 - i) as nat) % 2 == c / pow2((6 - i) as nat)
                    % 2) by {
                    lemma_mod_pow2_bit(c, 7, (6 - i) as nat);
                }
            }
            assert(final(self).remaining() =~= old(self).remaining().skip(1));
        }
        front_is_one
    }

    /// Reads the next bit, fetching one byte from the source when the buffer
    /// is exhausted; fails exactly when no bit is left.
    pub fn read_bit(&mut self) -> (r: Result<bool, BitError>)
        requires
            old(self).wf(),
        ensures
            final(self).wf(),
            final(self).source_bytes() == old(self).source_bytes(),
            old(self).remaining().len() == 0 ==> {
                &&& r == Err::<bool, BitError>(BitError::UnexpectedEndOfInput)
                &&& *final(self) == *old(self)
            },
            old(self).remaining().len() > 0 ==> {
                &&& r == Ok::<bool, BitError>(old(self).remaining()[0])
                &&& final(self).remaining() == old(self).remaining().skip(1)
            },
    {
        proof {
            lemma_bits_of_len(self.byte as nat, 8);
            lemma_bytes_bits_len(self.source@.skip(self.pos as int));
        }
        if self.bit_offset == 8 {
            // Refresh the buffer.
            if self.pos == self.source.len() {
                // Didn't read anything at all.
                proof {
                    assert(self.source@.skip(self.pos as int) =~= Seq::<u8>::empty());
                    assert(old(self).remaining().len() == 0);
                }
                return Err(BitError::UnexpectedEndOfInput);
            }
            let ghost p = self.pos as int;
            self.byte = self.source[self.pos];
            self.pos = self.pos + 1;
            self.bit_offset = 0;
            proof {
                lemma_bits_of_len(self.byte as nat, 8);
                assert(self.source@.skip(p)[0] == self.source@[p]);
                assert(self.source@.skip(p).skip(1) =~= self.source@.skip(p + 1));
                assert(bits_of(self.byte as nat, 8).take(8) =~= bits_of(self.byte as nat, 8));
                assert(self.remaining() =~= old(self).remaining());
            }
        }
        let bit = self.extract_bit();
        Ok(bit)
    }

    /// Reads `number_of_bits` bits MSB-first into a 128-bit integer: the first
    /// bit read becomes the most significant of the result. Fails with
    /// `InvalidBitWidth` for a width over 128, and with
    /// `UnexpectedEndOfInput` when the source runs out part way.
    #[verifier::loop_isolation(false)]
    pub fn read_bits(&mut self, number_of_bits: usize) -> (r: Result<u128, BitError>)
        requires
            old(self).wf(),
        ensures
            final(self).wf(),
            final(self).source_bytes() == old(self).source_bytes(),
            number_of_bits > 128 ==> {
                &&& r == Err::<u128, BitError>(BitError::InvalidBitWidth)
                &&& *final(self) == *old(self)
            },
            number_of_bits <= 128 && old(self).remaining().len() >= number_of_bits ==> {
                &&& r == Ok::<u128, BitError>(
                    val_of(old(self).remaining().take(number_of_bits as int)) as u128,
                )
                &&& final(self).remaining() == old(self).remaining().skip(number_of_bits as int)
            },
            number_of_bits <= 128 && old(self).remaining().len() < number_of_bits ==> {
                &&& r == Err::<u128, BitError>(BitError::UnexpectedEndOfInput)
                &&& final(self).remaining().len() == 0
            },
    {
        if number_of_bits > 128 {
            // Make sure we're not reading more than 128 bits.
            return Err(BitError::InvalidBitWidth);
        }
        let ghost orig = *old(self);
        let mut output: u128 = 0;
        for i in 0..number_of_bits
            invariant
                self.wf(),
                number_of_bits <= 128,
                self.source_bytes() == orig.source_bytes(),
                i <= orig.remaining().len(),
                self.remaining() == orig.remaining().skip(i as int),
                output as nat == val_of(orig.remaining().take(i as int)),
        {
            proof {
                lemma_val_of_bound(orig.remaining().take(i as int));
                assert(pow2((i + 1) as nat) == 2 * pow2(i as nat)) by {
                    lemma_pow2_unfold((i + 1) as nat);
                }
                if i + 1 < 128 {
                    lemma_pow2_strictly_increases((i + 1) as nat, 128);
                }
                assert(pow2(128) == 0x10000000000000000 * 0x10000000000000000) by {
                    lemma_pow2_adds(64, 64);
                    lemma2_to64();
                }
            }
            // Keep reading from the front, accumulating MSB-first.
            output = output * 2;
            let bit = match self.read_bit() {
                Ok(b) => b,
                Err(e) => {
                    proof {
                        assert(orig.remaining().skip(i as int).len() == 0);
                        assert(orig.remaining().len() == i);
                    }
                    return Err(e);
                },
            };
            if bit {
                output = output + 1;
            }
            proof {
                let t = orig.remaining().take(i + 1);
                assert(t.drop_last() =~= orig.remaining().take(i as int));
                assert(t.last() == orig.remaining()[i as int]);
                assert(orig.remaining().skip(i as int)[0] == orig.remaining()[i as int]);
                assert(orig.remaining().skip(i as int).skip(1) =~= orig.remaining().skip(i + 1));
            }
        }
        Ok(output)
    }

    /// Reads the next eight bits as one byte.
    pub fn read_byte(&mut self) -> (r: Result<u8, BitError>)
        requires
            old(self).wf(),
        ensures
            final(self).wf(),
            final(self).source_bytes() == old(self).source_bytes(),
            old(self).remaining().len() >= 8 ==> {
                &&& r == Ok::<u8, BitError>(val_of(old(self).remaining().take(8)) as u8)
                &&& final(self).remaining() == old(self).remaining().skip(8)
            },
            old(self).remaining().len() < 8 ==> {
                &&& r == Err::<u8, BitError>(BitError::UnexpectedEndOfInput)
                &&& final(self).remaining().len() == 0
            },
    {
        let v = self.read_bits(8)?;
        proof {
            lemma_val_of_bound(old(self).remaining().take(8));
            lemma2_to64();
        }
        Ok(v as u8)
    }

    /// Reads `number_of_bytes` bytes in order, eight bits each.
    #[verifier::loop_isolation(false)]
    pub fn read_bytes(&mut self, number_of_bytes: usize) -> (r: Result<Vec<u8>, BitError>)
        requires
            old(self).wf(),
        ensures
            final(self).wf(),
            final(self).source_bytes() == old(self).source_bytes(),
            old(self).remaining().len() >= 8 * number_of_bytes ==> {
                &&& r matches Ok(bs)
                &&& bs@ == bytes_from_bits(
                    old(self).remaining().take(8 * number_of_bytes as int),
                )
                &&& bs@.len() == number_of_bytes
                &&& final(self).remaining() == old(self).remaining().skip(
                    8 * number_of_bytes as int,
                )
            },
            old(self).remaining().len() < 8 * number_of_bytes ==> {
                &&& r == Err::<Vec<u8>, BitError>(BitError::UnexpectedEndOfInput)
                &&& final(self).remaining().len() == 0
            },
    {
        let ghost orig = *old(self);
        let mut result: Vec<u8> = Vec::new();
        for i in 0..number_of_bytes
            invariant
                self.wf(),
                self.source_bytes() == orig.source_bytes(),
                result@.len() == i,
                8 * i <= orig.remaining().len(),
                bytes_bits(result@) == orig.remaining().take(8 * i as int),
                self.remaining() == orig.remaining().skip(8 * i as int),
        {
            let ghost cur = self.remaining();
            let new_byte = match self.read_byte() {
                Ok(b) => b,
                Err(e) => {
                    proof {
                        assert(orig.remaining().skip(8 * i as int).len() < 8);
                        assert(orig.remaining().len() < 8 * number_of_bytes);
                    }
                    return Err(e);
                },
            };
            let ghost prev = result@;
            result.push(new_byte);
            proof {
                lemma_val_of_bound(cur.take(8));
                lemma2_to64();
                lemma_bytes_bits_push(prev, new_byte);
                assert(result@ == prev.push(new_byte));
                assert(new_byte as nat == val_of(cur.take(8)));
                assert(crate::bits::byte_bits(new_byte) == cur.take(8)) by {
                    lemma_bits_of_val_of(cur.take(8));
                }
                assert(orig.remaining().take(8 * i as int) + cur.take(8) =~= orig.remaining().take(
                    8 * (i + 1) as int,
                ));
                assert(orig.remaining().skip(8 * i as int).skip(8) =~= orig.remaining().skip(
                    8 * (i + 1) as int,
                ));
            }
        }
        proof {
            lemma_bytes_round_trip(result@);
        }
        Ok(result)
    }

    /// Read-only access to the underlying byte source, for callers that need
    /// to look at the raw bytes; it does not disturb the bit offset.
    pub fn get_ref(&self) -> (r: &Vec<u8>)
        ensures
            r@ == self.source_bytes(),
    {
        &self.source
    }
}

} // verus!
