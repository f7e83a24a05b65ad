//! Append-only bit buffer for building compressed output.
//!
//! Bits are appended MSB-first: the first appended bit becomes bit 7 of
//! byte 0 of the exported bytes.  The buffer is viewed as the `Seq<bool>`
//! of appended bits; `to_bytes` packs them, padding the final partial byte
//! with zero bits.

use vstd::prelude::*;

verus! {

use crate::bits::{byte_of_bits, bytes_of_bits, val_bit, val_bits};
use crate::bitvector::BitVector;

/// Maximum output buffer size in bytes.
pub const MAX_OUTPUT_BYTES: usize = 65535 * 6;

/// Maximum number of bits the buffer accepts.
pub const MAX_OUTPUT_BITS: usize = 65535 * 6 * 8;

/// Append-only bit buffer; the view is the sequence of appended bits.
#[derive(Debug)]
pub struct BitBuffer {
    bits: Vec<bool>,
}

impl View for BitBuffer {
    type V = Seq<bool>;

    closed spec fn view(&self) -> Seq<bool> {
        self.bits@
    }
}

impl BitBuffer {
    /// The buffer never exceeds the output size cap.
    #[verifier::type_invariant]
    pub open spec fn size_bounded(self) -> bool {
        self@.len() <= MAX_OUTPUT_BITS
    }

    /// Append one bit to the backing storage.
    fn push_raw(&mut self, b: bool)
        requires
            old(self)@.len() < MAX_OUTPUT_BITS,
        ensures
            final(self)@ == old(self)@.push(b),
    {
        proof {
            use_type_invariant(&*self);
        }
        let mut v: Vec<bool> = Vec::new();
        core::mem::swap(&mut v, &mut self.bits);
        v.push(b);
        core::mem::swap(&mut v, &mut self.bits);
    }

    /// Create an empty buffer.
    pub fn new() -> (r: Self)
        ensures
            r@ == Seq::<bool>::empty(),
    {
        let r = BitBuffer { bits: Vec::new() };
        proof {
            assert(r@ =~= Seq::<bool>::empty());
        }
        r
    }

    /// Discard all appended bits.
    pub fn clear(&mut self)
        ensures
            final(self)@ == Seq::<bool>::empty(),
    {
        self.bits = Vec::new();
        proof {
            assert(self@ =~= Seq::<bool>::empty());
        }
    }

    /// The number of appended bits.
    #[inline]
    pub fn len(&self) -> (r: usize)
        ensures
            r == self@.len(),
    {
        self.bits.len()
    }

    /// Whether no bit has been appended.
    #[inline]
    pub fn is_empty(&self) -> (r: bool)
        ensures
            r == (self@.len() == 0),
    {
        self.bits.len() == 0
    }

    /// Append the low bit of `bit` (higher bits are ignored).
    ///
    /// Returns `false`, leaving the buffer unchanged, when the buffer is full.
    pub fn append_bit(&mut self, bit: u8) -> (r: bool)
        ensures
            r == (old(self)@.len() < MAX_OUTPUT_BITS),
            final(self)@ == (if old(self)@.len() < MAX_OUTPUT_BITS {
                old(self)@.push(bit % 2 == 1)
            } else {
                old(self)@
            }),
    {
        proof {
            use_type_invariant(&*self);
        }
        if self.bits.len() >= MAX_OUTPUT_BITS {
            return false;
        }
        let low = bit & 1;
        proof {
            assert((bit & 1) == bit % 2) by (bit_vector);
        }
        self.push_raw(low == 1);
        true
    }

    /// Append the low `num_bits` bits of `value`, MSB-first.
    ///
    /// Returns `false`, leaving the buffer unchanged, when `num_bits` is 0 or
    /// greater than 56 or the bits would not fit.
    pub fn append_value(&mut self, value: u32, num_bits: usize) -> (r: bool)
        ensures
            r == (1 <= num_bits <= 56 && old(self)@.len() + num_bits <= MAX_OUTPUT_BITS),
            final(self)@ == (if 1 <= num_bits <= 56 && old(self)@.len() + num_bits
                <= MAX_OUTPUT_BITS {
                old(self)@ + val_bits(value as u64, num_bits as nat)
            } else {
                old(self)@
            }),
    {
        proof {
            use_type_invariant(&*self);
        }
        if num_bits == 0 || num_bits > 56 {
            return false;
        }
        if self.bits.len() > MAX_OUTPUT_BITS - num_bits {
            return false;
        }
        let ghost orig = self@;
        let wide = value as u64;
        let mut i: usize = 0;
        while i < num_bits
            invariant
                i <= num_bits,
                num_bits <= 56,
                wide == value as u64,
                orig.len() + num_bits <= MAX_OUTPUT_BITS,
                self@.len() == orig.len() + i,
                forall|j: int| #![trigger self@[j]] 0 <= j < orig.len() ==> self@[j] == orig[j],
                forall|j: int|
                    #![trigger self@[j]]
                    orig.len() <= j < orig.len() + i ==> self@[j] == val_bit(
                        wide,
                        num_bits as nat,
                        j - orig.len(),
                    ),
            decreases num_bits - i,
        {
            let bit = (wide >> ((num_bits - 1 - i) as u64)) & 1;
            self.push_raw(bit == 1);
            i = i + 1;
        }
        proof {
            assert(self@ =~= orig + val_bits(value as u64, num_bits as nat));
        }
        true
    }

    /// Append the first `num_bits` bits of `data`, MSB-first within each byte.
    ///
    /// Returns `false`, leaving the buffer unchanged, when the bits would not
    /// fit.
    pub fn append_bits(&mut self, data: &[u8], num_bits: usize) -> (r: bool)
        requires
            num_bits <= data@.len() * 8,
        ensures
            r == (old(self)@.len() + num_bits <= MAX_OUTPUT_BITS),
            final(self)@ == (if old(self)@.len() + num_bits <= MAX_OUTPUT_BITS {
                old(self)@ + crate::bits::bits_from_bytes(data@, num_bits as nat)
            } else {
                old(self)@
            }),
    {
        proof {
            use_type_invariant(&*self);
        }
        if num_bits > MAX_OUTPUT_BITS || self.bits.len() > MAX_OUTPUT_BITS - num_bits {
            return false;
        }
        let ghost orig = self@;
        let mut i: usize = 0;
        while i < num_bits
            invariant
                i <= num_bits,
                num_bits <= data@.len() * 8,
                orig.len() + num_bits <= MAX_OUTPUT_BITS,
                self@.len() == orig.len() + i,
                forall|j: int| #![trigger self@[j]] 0 <= j < orig.len() ==> self@[j] == orig[j],
                forall|j: int|
                    #![trigger self@[j]]
                    orig.len() <= j < orig.len() + i ==> self@[j] == crate::bits::bit8(
                        data@[(j - orig.len()) / 8],
                        (j - orig.len()) % 8,
                    ),
            decreases num_bits - i,
        {
            let byte = data[i / 8];
            let bit = (byte >> ((7 - (i % 8)) as u8)) & 1;
            self.push_raw(bit == 1);
            i = i + 1;
        }
        proof {
            assert(self@ =~= orig + crate::bits::bits_from_bytes(data@, num_bits as nat));
        }
        true
    }

    /// Append every bit of a bit vector, in order of position.
    ///
    /// When the vector does not fit, the bits that fit are appended and
    /// `false` is returned.
    pub fn append_bitvector(&mut self, bv: &BitVector) -> (r: bool)
        ensures
            r == (old(self)@.len() + bv@.len() <= MAX_OUTPUT_BITS),
            final(self)@ == (if old(self)@.len() + bv@.len() <= MAX_OUTPUT_BITS {
                old(self)@ + bv@
            } else {
                old(self)@ + bv@.take(MAX_OUTPUT_BITS - old(self)@.len())
            }),
    {
        proof {
            use_type_invariant(&*self);
            use_type_invariant(bv);
        }
        let ghost orig = self@;
        let len = bv.len();
        let mut i: usize = 0;
        let mut ok = true;
        while i < len
            invariant
                i <= len,
                len == bv@.len(),
                orig.len() <= MAX_OUTPUT_BITS,
                self@.len() <= MAX_OUTPUT_BITS,
                ok == (orig.len() + i <= MAX_OUTPUT_BITS),
                ok ==> self@ == orig + bv@.take(i as int),
                !ok ==> self@ == orig + bv@.take(MAX_OUTPUT_BITS - orig.len()),
                !ok ==> self@.len() == MAX_OUTPUT_BITS,
            decreases len - i,
        {
            if ok {
                let bit = bv.get_bit(i);
                proof {
                    use_type_invariant(&*self);
                }
                if self.bits.len() >= MAX_OUTPUT_BITS {
                    ok = false;
                    proof {
                        assert(bv@.take(MAX_OUTPUT_BITS - orig.len()) =~= bv@.take(i as int));
                    }
                } else {
                    self.push_raw(bit == 1);
                    proof {
                        assert(bv@.take(i + 1).drop_last() =~= bv@.take(i as int));
                        assert(self@ =~= orig + bv@.take(i + 1));
                    }
                }
            }
            i = i + 1;
        }
        proof {
            if ok {
                assert(bv@.take(len as int) =~= bv@);
            }
        }
        ok
    }

    /// Export the bits as bytes; the last partial byte gets zero padding bits.
    pub fn to_bytes(&self) -> (r: Vec<u8>)
        ensures
            r@ == bytes_of_bits(self@),
    {
        proof {
            use_type_invariant(self);
        }
        let len = self.bits.len();
        let num_bytes = (len + 7) / 8;
        let mut result: Vec<u8> = Vec::new();
        let mut k: usize = 0;
        while k < num_bytes
            invariant
                k <= num_bytes,
                num_bytes == (self@.len() + 7) / 8,
                len == self@.len(),
                len <= MAX_OUTPUT_BITS,
                result@.len() == k,
                forall|k2: int| 0 <= k2 < k ==> result@[k2] == bytes_of_bits(self@)[k2],
            decreases num_bytes - k,
        {
            let upto = if 8 * k + 8 <= len {
                8 * k + 8
            } else {
                len
            };
            let ghost chunk = self@.subrange(8 * k as int, upto as int);
            let mut b: u8 = 0;
            let mut j: usize = 8 * k;
            while j < upto
                invariant
                    8 * k <= j <= upto,
                    upto <= len,
                    len == self@.len(),
                    upto <= 8 * k + 8,
                    chunk == self@.subrange(8 * k as int, upto as int),
                    b == byte_of_bits(chunk.take(j - 8 * k)),
                decreases upto - j,
            {
                let ghost jj = (j - 8 * k) as int;
                let ghost bold = b;
                let bit = self.bits[j];
                if bit {
                    b = b | (1u8 << ((7 - (j - 8 * k)) as u8));
                }
                proof {
                    assert(chunk.take(jj + 1).drop_last() =~= chunk.take(jj));
                    assert(chunk.take(jj + 1).last() == self@[j as int]);
                    assert((8 - chunk.take(jj + 1).len()) as u8 == (7 - jj) as u8);
                    if !bit {
                        assert(bold | 0u8 == bold) by (bit_vector);
                    }
                }
                j = j + 1;
            }
            proof {
                assert(chunk.take(upto - 8 * k as int) =~= chunk);
            }
            result.push(b);
            k = k + 1;
        }
        proof {
            assert(result@ =~= bytes_of_bits(self@));
        }
        result
    }
}

impl Clone for BitBuffer {
    /// An identical copy.
    fn clone(&self) -> (r: Self)
        ensures
            r@ == self@,
    {
        proof {
            use_type_invariant(self);
        }
        let len = self.bits.len();
        let mut bits: Vec<bool> = Vec::new();
        let mut i: usize = 0;
        while i < len
            invariant
                i <= len,
                len == self@.len(),
                bits@.len() == i,
                forall|j: int| 0 <= j < i ==> bits@[j] == self@[j],
            decreases len - i,
        {
            bits.push(self.bits[i]);
            i = i + 1;
        }
        let r = BitBuffer { bits };
        proof {
            assert(r@ =~= self@);
        }
        r
    }
}

impl Default for BitBuffer {
    /// An empty buffer.
    fn default() -> (r: Self)
        ensures
            r@ == Seq::<bool>::empty(),
    {
        BitBuffer::new()
    }
}

} // verus!
