//! Sequential MSB-first bit reader over a byte slice.
//!
//! The reader exposes the first `num_bits` bits of its slice (bit 0 is the
//! most significant bit of byte 0) and a cursor.  Reads past the end fail
//! with `Underflow` and leave the reader unchanged.

use vstd::prelude::*;

verus! {

use crate::bits::{bits_from_bytes, seq_val};
use crate::error::PocketError;
use vstd::arithmetic::power2::pow2;

/// Sequential bit reader; `bits()` is what it reads, `pos()` the cursor.
#[derive(Debug)]
pub struct BitReader<'a> {
    data: &'a [u8],
    num_bits: usize,
    bit_pos: usize,
}

impl<'a> BitReader<'a> {
    /// The bit string this reader yields.
    pub closed spec fn bits(&self) -> Seq<bool> {
        bits_from_bytes(self.data@, self.num_bits as nat)
    }

    /// The cursor: how many bits have been consumed.
    pub closed spec fn pos(&self) -> nat {
        self.bit_pos as nat
    }

    /// The cursor stays within the byte-aligned end of the bit string.
    #[verifier::type_invariant]
    pub closed spec fn cursor_in_range(self) -> bool {
        &&& self.num_bits <= self.data@.len() * 8
        &&& self.num_bits <= usize::MAX - 8
        &&& self.bit_pos <= ((self.num_bits + 7) / 8) * 8
    }

    /// The cap the cursor invariant puts on the bit string's length.
    pub proof fn len_bound(self)
        requires
            self.cursor_in_range(),
        ensures
            self.bits().len() + 8 <= usize::MAX,
    {
    }

    /// Create a reader over the first `num_bits` bits of `data`.
    pub fn new(data: &'a [u8], num_bits: usize) -> (r: Self)
        requires
            num_bits <= data@.len() * 8,
            num_bits <= usize::MAX - 8,
        ensures
            r.bits() == bits_from_bytes(data@, num_bits as nat),
            r.pos() == 0,
    {
        BitReader { data, num_bits, bit_pos: 0 }
    }

    /// The cursor position in bits.
    #[inline]
    pub fn position(&self) -> (r: usize)
        ensures
            r == self.pos(),
    {
        self.bit_pos
    }

    /// How many bits are left to read.
    #[inline]
    pub fn remaining(&self) -> (r: usize)
        ensures
            r == (if self.pos() <= self.bits().len() {
                self.bits().len() - self.pos()
            } else {
                0
            }),
    {
        if self.bit_pos >= self.num_bits {
            0
        } else {
            self.num_bits - self.bit_pos
        }
    }

    /// Whether at least one bit is left.
    #[inline]
    pub fn has_bits(&self) -> (r: bool)
        ensures
            r == (self.pos() < self.bits().len()),
    {
        self.bit_pos < self.num_bits
    }

    /// Read one bit (1 or 0); past the end, fail with `Underflow`.
    #[inline]
    pub fn read_bit(&mut self) -> (r: Result<u8, PocketError>)
        ensures
            final(self).bits() == old(self).bits(),
            old(self).pos() < old(self).bits().len() ==> r == Ok::<u8, PocketError>(
                if old(self).bits()[old(self).pos() as int] {
                    1u8
                } else {
                    0u8
                },
            ) && final(self).pos() == old(self).pos() + 1,
            old(self).pos() >= old(self).bits().len() ==> r == Err::<u8, PocketError>(
                PocketError::Underflow,
            ) && final(self).pos() == old(self).pos(),
    {
        proof {
            use_type_invariant(&*self);
        }
        if self.bit_pos >= self.num_bits {
            return Err(PocketError::Underflow);
        }
        let byte = self.data[self.bit_pos / 8];
        let sh = (7 - (self.bit_pos % 8)) as u8;
        let bit = (byte >> sh) & 1;
        proof {
            assert((byte >> sh) & 1 == 0 || (byte >> sh) & 1 == 1) by (bit_vector);
        }
        self.bit_pos = self.bit_pos + 1;
        Ok(bit)
    }

    /// Look at the next bit without consuming it.
    pub fn peek_bit(&self) -> (r: Result<u8, PocketError>)
        ensures
            self.pos() < self.bits().len() ==> r == Ok::<u8, PocketError>(
                if self.bits()[self.pos() as int] {
                    1u8
                } else {
                    0u8
                },
            ),
            self.pos() >= self.bits().len() ==> r == Err::<u8, PocketError>(
                PocketError::Underflow,
            ),
    {
        proof {
            use_type_invariant(self);
        }
        if self.bit_pos >= self.num_bits {
            return Err(PocketError::Underflow);
        }
        let byte = self.data[self.bit_pos / 8];
        let sh = (7 - (self.bit_pos % 8)) as u8;
        let bit = (byte >> sh) & 1;
        proof {
            assert((byte >> sh) & 1 == 0 || (byte >> sh) & 1 == 1) by (bit_vector);
        }
        Ok(bit)
    }

    /// Read `num_bits` (1 to 32) bits into a right-justified value.
    pub fn read_bits(&mut self, num_bits: usize) -> (r: Result<u32, PocketError>)
        ensures
            final(self).bits() == old(self).bits(),
            (num_bits == 0 || num_bits > 32) ==> r == Err::<u32, PocketError>(
                PocketError::InvalidLength,
            ) && final(self).pos() == old(self).pos(),
            (1 <= num_bits <= 32 && (old(self).pos() > old(self).bits().len()
                || old(self).bits().len() - old(self).pos() < num_bits)) ==> r == Err::<u32, PocketError>(
                PocketError::Underflow,
            ) && final(self).pos() == old(self).pos(),
            (1 <= num_bits <= 32 && old(self).pos() + num_bits <= old(self).bits().len()) ==> (
            match r {
                Ok(v) => v as nat == seq_val(
                    old(self).bits().subrange(
                        old(self).pos() as int,
                        old(self).pos() + num_bits,
                    ),
                ) && final(self).pos() == old(self).pos() + num_bits,
                Err(_) => false,
            }),
    {
        proof {
            use_type_invariant(&*self);
        }
        if num_bits == 0 || num_bits > 32 {
            return Err(PocketError::InvalidLength);
        }
        if self.remaining() < num_bits {
            return Err(PocketError::Underflow);
        }
        let ghost field = self.bits().subrange(self.pos() as int, self.pos() + num_bits);
        proof {
            vstd::arithmetic::power2::lemma2_to64();
        }
        let mut value: u32 = 0;
        let mut j: usize = 0;
        while j < num_bits
            invariant
                j <= num_bits,
                num_bits <= 32,
                old(self).pos() + num_bits <= old(self).bits().len(),
                self.bits() == old(self).bits(),
                self.pos() == old(self).pos() + j,
                field == old(self).bits().subrange(
                    old(self).pos() as int,
                    old(self).pos() + num_bits,
                ),
                value as nat == seq_val(field.take(j as int)),
                (value as nat) < pow2(j as nat),
            decreases num_bits - j,
        {
            proof {
                crate::bits::lemma_seq_val_take_step(field, j as int);
                lemma_pow2_le32(j as nat);
                vstd::arithmetic::power2::lemma_pow2_unfold((j + 1) as nat);
            }
            let b = match self.read_bit() {
                Ok(b) => b,
                Err(_) => {
                    proof {
                        assert(false);
                    }
                    return Err(PocketError::Underflow);
                },
            };
            proof {
                assert(field[j as int] == old(self).bits()[old(self).pos() + j]);
            }
            value = value * 2 + (b as u32);
            j = j + 1;
        }
        proof {
            assert(field.take(num_bits as int) =~= field);
        }
        Ok(value)
    }

    /// Advance to the next byte boundary (a no-op when already aligned).
    pub fn align_byte(&mut self)
        ensures
            final(self).bits() == old(self).bits(),
            final(self).pos() == (if old(self).pos() % 8 == 0 {
                old(self).pos() as int
            } else {
                old(self).pos() + 8 - old(self).pos() % 8
            }),
    {
        proof {
            use_type_invariant(&*self);
        }
        let off = self.bit_pos % 8;
        if off != 0 {
            proof {
                let b = ((self.num_bits + 7) / 8) * 8;
                assert(self.bit_pos < b) by {
                    assert(b % 8 == 0);
                };
                assert(self.bit_pos + 8 - off <= b) by {
                    assert(self.bit_pos + 8 - off == (self.bit_pos / 8 + 1) * 8);
                    assert(self.bit_pos / 8 < b / 8);
                };
            }
            self.bit_pos = self.bit_pos + (8 - off);
        }
    }

    /// Skip `count` bits; past the end, fail with `Underflow`.
    pub fn skip(&mut self, count: usize) -> (r: Result<(), PocketError>)
        ensures
            final(self).bits() == old(self).bits(),
            ({
                let rem: int = if old(self).pos() <= old(self).bits().len() {
                    old(self).bits().len() - old(self).pos()
                } else {
                    0
                };
                &&& count <= rem ==> r == Ok::<(), PocketError>(())
                    && final(self).pos() == old(self).pos() + count
                &&& count > rem ==> r == Err::<(), PocketError>(PocketError::Underflow)
                    && final(self).pos() == old(self).pos()
            }),
    {
        proof {
            use_type_invariant(&*self);
        }
        if self.remaining() < count {
            return Err(PocketError::Underflow);
        }
        self.bit_pos = self.bit_pos + count;
        Ok(())
    }

    /// Move the cursor back by exactly one bit.
    pub fn back(&mut self) -> (r: Result<(), PocketError>)
        ensures
            final(self).bits() == old(self).bits(),
            old(self).pos() == 0 ==> r == Err::<(), PocketError>(PocketError::Underflow)
                && final(self).pos() == 0,
            old(self).pos() > 0 ==> r == Ok::<(), PocketError>(())
                && final(self).pos() == old(self).pos() - 1,
    {
        proof {
            use_type_invariant(&*self);
        }
        if self.bit_pos == 0 {
            return Err(PocketError::Underflow);
        }
        self.bit_pos = self.bit_pos - 1;
        Ok(())
    }
}

impl<'a> Clone for BitReader<'a> {
    /// A copy over the same bits, at the same cursor.
    fn clone(&self) -> (r: Self)
        ensures
            r.bits() == self.bits(),
            r.pos() == self.pos(),
    {
        proof {
            use_type_invariant(self);
        }
        BitReader { data: self.data, num_bits: self.num_bits, bit_pos: self.bit_pos }
    }
}

/// Powers of two up to 32 stay within `u32` range.
proof fn lemma_pow2_le32(j: nat)
    requires
        j <= 31,
    ensures
        pow2(j) <= 0x8000_0000,
{
    vstd::arithmetic::power2::lemma2_to64();
    if j < 31 {
        vstd::arithmetic::power2::lemma_pow2_strictly_increases(j, 31);
    }
}

} // verus!
