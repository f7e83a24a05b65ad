//! Fixed-length bit vectors.
//!
//! A `BitVector` holds a fixed number of bits; position 0 is the first bit
//! on the wire (the most significant bit of byte 0).  Its mathematical view
//! is a `Seq<bool>`, and every operation is specified pointwise on it.

use vstd::prelude::*;

verus! {

use crate::bits::{
    bit8, bits_from_bytes, byte_of_bits, bytes_of_bits, lemma_pcount_take_all,
    lemma_pcount_take_step, pcount, seq_and, seq_not, seq_or, seq_xor, shl1, zeros,
};

/// Maximum packet length in bits.
pub const MAX_PACKET_LENGTH: usize = 65535;

/// Fixed-length vector of bits; position 0 is the first bit on the wire.
#[derive(Debug)]
pub struct BitVector {
    bits: Vec<bool>,
}

impl View for BitVector {
    type V = Seq<bool>;

    closed spec fn view(&self) -> Seq<bool> {
        self.bits@
    }
}

impl BitVector {
    /// Every bit vector stays within the maximum packet length.
    #[verifier::type_invariant]
    pub open spec fn len_bounded(self) -> bool {
        self@.len() <= MAX_PACKET_LENGTH
    }

    /// Create a bit vector of `num_bits` zero bits.
    pub fn new(num_bits: usize) -> (r: Self)
        requires
            1 <= num_bits <= MAX_PACKET_LENGTH,
        ensures
            r@ == zeros(num_bits as nat),
    {
        let mut bits: Vec<bool> = Vec::new();
        let mut i: usize = 0;
        while i < num_bits
            invariant
                i <= num_bits,
                bits@.len() == i,
                forall|j: int| 0 <= j < i ==> !bits@[j],
            decreases num_bits - i,
        {
            bits.push(false);
            i = i + 1;
        }
        let r = BitVector { bits };
        proof {
            assert(r@ =~= zeros(num_bits as nat));
        }
        r
    }

    /// Create a bit vector holding the first `num_bits` bits of `bytes`.
    pub fn from_bytes(bytes: &[u8], num_bits: usize) -> (r: Self)
        requires
            1 <= num_bits <= MAX_PACKET_LENGTH,
            (num_bits + 7) / 8 <= bytes@.len(),
        ensures
            r@ == bits_from_bytes(bytes@, num_bits as nat),
    {
        let mut bits: Vec<bool> = Vec::new();
        let mut i: usize = 0;
        while i < num_bits
            invariant
                i <= num_bits,
                (num_bits + 7) / 8 <= bytes@.len(),
                bits@.len() == i,
                forall|j: int| 0 <= j < i ==> bits@[j] == bit8(bytes@[j / 8], j % 8),
            decreases num_bits - i,
        {
            let byte = bytes[i / 8];
            let bit = (byte >> ((7 - (i % 8)) as u8)) & 1;
            bits.push(bit == 1);
            i = i + 1;
        }
        let r = BitVector { bits };
        proof {
            assert(r@ =~= bits_from_bytes(bytes@, num_bits as nat));
        }
        r
    }

    /// Pack the bits into bytes; a final partial byte is padded with zeros.
    pub fn to_bytes(&self) -> (r: Vec<u8>)
        ensures
            r@ == bytes_of_bits(self@),
    {
        proof {
            use_type_invariant(self);
        }
        let len = self.bits.len();
        let num_bytes = (len + 7) / 8;
        let mut result: Vec<u8> = Vec::new();
        let mut k: usize = 0;
        while k < num_bytes
            invariant
                k <= num_bytes,
                num_bytes == (self@.len() + 7) / 8,
                len == self@.len(),
                len <= MAX_PACKET_LENGTH,
                result@.len() == k,
                forall|k2: int| 0 <= k2 < k ==> result@[k2] == bytes_of_bits(self@)[k2],
            decreases num_bytes - k,
        {
            let upto = if 8 * k + 8 <= len {
                8 * k + 8
            } else {
                len
            };
            let ghost chunk = self@.subrange(8 * k as int, upto as int);
            let mut b: u8 = 0;
            let mut j: usize = 8 * k;
            while j < upto
                invariant
                    8 * k <= j <= upto,
                    upto <= len,
                    len == self@.len(),
                    upto <= 8 * k + 8,
                    chunk == self@.subrange(8 * k as int, upto as int),
                    b == byte_of_bits(chunk.take(j - 8 * k)),
                decreases upto - j,
            {
                let ghost jj = (j - 8 * k) as int;
                let ghost bold = b;
                let bit = self.bits[j];
                if bit {
                    b = b | (1u8 << ((7 - (j - 8 * k)) as u8));
                }
                proof {
                    assert(chunk.take(jj + 1).drop_last() =~= chunk.take(jj));
                    assert(chunk.take(jj + 1).last() == self@[j as int]);
                    assert((8 - chunk.take(jj + 1).len()) as u8 == (7 - jj) as u8);
                    if !bit {
                        assert(bold | 0u8 == bold) by (bit_vector);
                    }
                }
                j = j + 1;
            }
            proof {
                assert(chunk.take(upto - 8 * k as int) =~= chunk);
            }
            result.push(b);
            k = k + 1;
        }
        proof {
            assert(result@ =~= bytes_of_bits(self@));
        }
        result
    }

    /// Set every bit to zero, keeping the length.
    pub fn zero(&mut self)
        ensures
            final(self)@ == zeros(old(self)@.len()),
    {
        proof {
            use_type_invariant(&*self);
        }
        let len = self.bits.len();
        let mut i: usize = 0;
        while i < len
            invariant
                i <= len,
                self@.len() == len,
                len <= MAX_PACKET_LENGTH,
                forall|j: int| 0 <= j < i ==> !self@[j],
            decreases len - i,
        {
            self.bits[i] = false;
            i = i + 1;
        }
        proof {
            use_type_invariant(&*self);
            assert(self@ =~= zeros(old(self)@.len()));
        }
    }

    /// The number of bits.
    #[inline]
    pub fn len(&self) -> (r: usize)
        ensures
            r == self@.len(),
    {
        self.bits.len()
    }

    /// Whether the vector has no bits at all.
    #[inline]
    pub fn is_empty(&self) -> (r: bool)
        ensures
            r == (self@.len() == 0),
    {
        self.bits.len() == 0
    }

    /// The bits packed into 32-bit words: word `w` carries positions
    /// `32 * w` onward, the lowest position in its most significant bit.
    pub fn words(&self) -> (r: Vec<u32>)
        ensures
            r@.len() == (((self@.len() + 7) / 8) + 3) / 4,
            forall|w: int, k: int|
                #![trigger crate::bits::bit32(r@[w], k)]
                0 <= w < r@.len() && 0 <= k < 32 ==> (crate::bits::bit32(r@[w], k) == (32 * w + k
                    < self@.len() && self@[32 * w + k])),
    {
        proof {
            use_type_invariant(self);
        }
        let len = self.bits.len();
        let num_words = ((len + 7) / 8 + 3) / 4;
        let mut result: Vec<u32> = Vec::new();
        let mut w: usize = 0;
        while w < num_words
            invariant
                w <= num_words,
                num_words == (((self@.len() + 7) / 8) + 3) / 4,
                len == self@.len(),
                len <= MAX_PACKET_LENGTH,
                result@.len() == w,
                forall|w2: int, k: int|
                    #![trigger crate::bits::bit32(result@[w2], k)]
                    0 <= w2 < w && 0 <= k < 32 ==> (crate::bits::bit32(result@[w2], k) == (32 * w2
                        + k < self@.len() && self@[32 * w2 + k])),
            decreases num_words - w,
        {
            let mut word: u32 = 0;
            proof {
                assert forall|k2: int| 0 <= k2 < 32 implies !crate::bits::bit32(0u32, k2) by {
                    let sh = (31 - k2) as u32;
                    assert((0u32 >> sh) & 1 == 0) by (bit_vector);
                }
            }
            let mut k: usize = 0;
            while k < 32
                invariant
                    k <= 32,
                    w < num_words,
                    num_words == (((len + 7) / 8) + 3) / 4,
                    len == self@.len(),
                    len <= MAX_PACKET_LENGTH,
                    forall|k2: int|
                        #![trigger crate::bits::bit32(word, k2)]
                        0 <= k2 < k ==> (crate::bits::bit32(word, k2) == (32 * w + k2
                            < self@.len() && self@[32 * w + k2])),
                    forall|k2: int|
                        #![trigger crate::bits::bit32(word, k2)]
                        k <= k2 < 32 ==> !crate::bits::bit32(word, k2),
                decreases 32 - k,
            {
                let ghost before = word;
                proof {
                    assert(32 * w + k < 32 * num_words) by (nonlinear_arith)
                        requires
                            w < num_words,
                            k < 32,
                    ;
                    assert(num_words <= 2048);
                }
                let pos = 32 * w + k;
                let setbit = pos < len && self.bits[pos];
                if setbit {
                    word = word | (1u32 << ((31 - k) as u32));
                }
                proof {
                    let j = (31 - k) as u32;
                    if setbit {
                        assert forall|k2: int| 0 <= k2 < 32 implies crate::bits::bit32(word, k2)
                            == (k2 == k || crate::bits::bit32(before, k2)) by {
                            let sh = (31 - k2) as u32;
                            assert(((word >> sh) & 1 == 1) == (sh == j || ((before >> sh) & 1
                                == 1))) by (bit_vector)
                                requires
                                    word == before | (1u32 << j),
                                    j < 32,
                                    sh < 32,
                            ;
                            assert((sh == j) == (k2 == k));
                        }
                    }
                }
                k = k + 1;
            }
            result.push(word);
            w = w + 1;
        }
        result
    }

    /// The bit at `pos`, or 0 when `pos` is out of range.
    #[inline]
    pub fn get_bit(&self, pos: usize) -> (r: u8)
        ensures
            r == (if pos < self@.len() && self@[pos as int] {
                1u8
            } else {
                0u8
            }),
    {
        if pos >= self.bits.len() {
            return 0;
        }
        if self.bits[pos] {
            1
        } else {
            0
        }
    }

    /// Set the bit at `pos` to `value != 0`; out of range, do nothing.
    #[inline]
    pub fn set_bit(&mut self, pos: usize, value: u8)
        ensures
            final(self)@ == (if pos < old(self)@.len() {
                old(self)@.update(pos as int, value != 0)
            } else {
                old(self)@
            }),
    {
        proof {
            use_type_invariant(&*self);
        }
        if pos >= self.bits.len() {
            return ;
        }
        self.bits[pos] = value != 0;
    }

    /// Pointwise exclusive or with a vector of the same length.
    pub fn xor(&self, other: &Self) -> (r: Self)
        requires
            self@.len() == other@.len(),
        ensures
            r@ == seq_xor(self@, other@),
    {
        proof {
            use_type_invariant(self);
        }
        let len = self.bits.len();
        let mut bits: Vec<bool> = Vec::new();
        let mut i: usize = 0;
        while i < len
            invariant
                i <= len,
                len == self@.len() == other@.len(),
                bits@.len() == i,
                forall|j: int| 0 <= j < i ==> bits@[j] == (self@[j] != other@[j]),
            decreases len - i,
        {
            bits.push(self.bits[i] != other.bits[i]);
            i = i + 1;
        }
        let r = BitVector { bits };
        proof {
            assert(r@ =~= seq_xor(self@, other@));
        }
        r
    }

    /// Pointwise inclusive or with a vector of the same length.
    pub fn or(&self, other: &Self) -> (r: Self)
        requires
            self@.len() == other@.len(),
        ensures
            r@ == seq_or(self@, other@),
    {
        proof {
            use_type_invariant(self);
        }
        let len = self.bits.len();
        let mut bits: Vec<bool> = Vec::new();
        let mut i: usize = 0;
        while i < len
            invariant
                i <= len,
                len == self@.len() == other@.len(),
                bits@.len() == i,
                forall|j: int| 0 <= j < i ==> bits@[j] == (self@[j] || other@[j]),
            decreases len - i,
        {
            bits.push(self.bits[i] || other.bits[i]);
            i = i + 1;
        }
        let r = BitVector { bits };
        proof {
            assert(r@ =~= seq_or(self@, other@));
        }
        r
    }

    /// Pointwise inclusive or, in place.
    pub fn or_assign(&mut self, other: &Self)
        requires
            old(self)@.len() == other@.len(),
        ensures
            final(self)@ == seq_or(old(self)@, other@),
    {
        proof {
            use_type_invariant(&*self);
        }
        let ghost orig = self@;
        let len = self.bits.len();
        let mut i: usize = 0;
        while i < len
            invariant
                i <= len,
                len == self@.len() == other@.len(),
                len <= MAX_PACKET_LENGTH,
                orig.len() == len,
                forall|j: int| #![trigger self@[j]] 0 <= j < i ==> self@[j] == (orig[j]
                    || other@[j]),
                forall|j: int| #![trigger self@[j]] i <= j < len ==> self@[j] == orig[j],
            decreases len - i,
        {
            let was = self.bits[i];
            self.bits[i] = was || other.bits[i];
            i = i + 1;
        }
        proof {
            assert(self@ =~= seq_or(orig, other@));
        }
    }

    /// Pointwise conjunction with a vector of the same length.
    pub fn and(&self, other: &Self) -> (r: Self)
        requires
            self@.len() == other@.len(),
        ensures
            r@ == seq_and(self@, other@),
    {
        proof {
            use_type_invariant(self);
        }
        let len = self.bits.len();
        let mut bits: Vec<bool> = Vec::new();
        let mut i: usize = 0;
        while i < len
            invariant
                i <= len,
                len == self@.len() == other@.len(),
                bits@.len() == i,
                forall|j: int| 0 <= j < i ==> bits@[j] == (self@[j] && other@[j]),
            decreases len - i,
        {
            bits.push(self.bits[i] && other.bits[i]);
            i = i + 1;
        }
        let r = BitVector { bits };
        proof {
            assert(r@ =~= seq_and(self@, other@));
        }
        r
    }

    /// Pointwise complement.
    pub fn not(&self) -> (r: Self)
        ensures
            r@ == seq_not(self@),
    {
        proof {
            use_type_invariant(self);
        }
        let len = self.bits.len();
        let mut bits: Vec<bool> = Vec::new();
        let mut i: usize = 0;
        while i < len
            invariant
                i <= len,
                len == self@.len(),
                bits@.len() == i,
                forall|j: int| 0 <= j < i ==> bits@[j] == !self@[j],
            decreases len - i,
        {
            bits.push(!self.bits[i]);
            i = i + 1;
        }
        let r = BitVector { bits };
        proof {
            assert(r@ =~= seq_not(self@));
        }
        r
    }

    /// Shift one position toward the front; the last position becomes zero.
    pub fn left_shift(&self) -> (r: Self)
        ensures
            r@ == shl1(self@),
    {
        proof {
            use_type_invariant(self);
        }
        let len = self.bits.len();
        let mut bits: Vec<bool> = Vec::new();
        let mut i: usize = 0;
        while i < len
            invariant
                i <= len,
                len == self@.len(),
                bits@.len() == i,
                forall|j: int| 0 <= j < i ==> bits@[j] == (j < len - 1 && self@[j + 1]),
            decreases len - i,
        {
            if i + 1 < len {
                bits.push(self.bits[i + 1]);
            } else {
                bits.push(false);
            }
            i = i + 1;
        }
        let r = BitVector { bits };
        proof {
            assert(r@ =~= shl1(self@));
        }
        r
    }

    /// The number of set bits.
    pub fn hamming_weight(&self) -> (r: usize)
        ensures
            r == pcount(self@),
    {
        let len = self.bits.len();
        let mut count: usize = 0;
        let mut i: usize = 0;
        while i < len
            invariant
                i <= len,
                len == self@.len(),
                count == pcount(self@.take(i as int)),
                count <= i,
            decreases len - i,
        {
            proof {
                lemma_pcount_take_step(self@, i as int);
            }
            if self.bits[i] {
                count = count + 1;
            }
            i = i + 1;
        }
        proof {
            lemma_pcount_take_all(self@);
        }
        count
    }

    /// The same bits in the opposite order.
    pub fn reverse(&self) -> (r: Self)
        ensures
            r@.len() == self@.len(),
            forall|i: int| 0 <= i < self@.len() ==> r@[i] == self@[self@.len() - 1 - i],
    {
        proof {
            use_type_invariant(self);
        }
        let len = self.bits.len();
        let mut bits: Vec<bool> = Vec::new();
        let mut i: usize = 0;
        while i < len
            invariant
                i <= len,
                len == self@.len(),
                bits@.len() == i,
                forall|j: int| 0 <= j < i ==> bits@[j] == self@[len - 1 - j],
            decreases len - i,
        {
            bits.push(self.bits[len - 1 - i]);
            i = i + 1;
        }
        BitVector { bits }
    }

    /// Replace the contents with a copy of `other`.
    pub fn copy_from(&mut self, other: &Self)
        ensures
            final(self)@ == other@,
    {
        proof {
            use_type_invariant(other);
        }
        let len = other.bits.len();
        let mut bits: Vec<bool> = Vec::new();
        let mut i: usize = 0;
        while i < len
            invariant
                i <= len,
                len == other@.len(),
                bits@.len() == i,
                forall|j: int| 0 <= j < i ==> bits@[j] == other@[j],
            decreases len - i,
        {
            bits.push(other.bits[i]);
            i = i + 1;
        }
        self.bits = bits;
        proof {
            assert(self@ =~= other@);
        }
    }
}

impl Clone for BitVector {
    /// An identical copy.
    fn clone(&self) -> (r: Self)
        ensures
            r@ == self@,
    {
        proof {
            use_type_invariant(self);
        }
        let len = self.bits.len();
        let mut bits: Vec<bool> = Vec::new();
        let mut i: usize = 0;
        while i < len
            invariant
                i <= len,
                len == self@.len(),
                bits@.len() == i,
                forall|j: int| 0 <= j < i ==> bits@[j] == self@[j],
            decreases len - i,
        {
            bits.push(self.bits[i]);
            i = i + 1;
        }
        let r = BitVector { bits };
        proof {
            assert(r@ =~= self@);
        }
        r
    }
}

impl Default for BitVector {
    /// The empty bit vector.
    fn default() -> (r: Self)
        ensures
            r@ == Seq::<bool>::empty(),
    {
        let r = BitVector { bits: Vec::new() };
        proof {
            assert(r@ =~= Seq::<bool>::empty());
        }
        r
    }
}

impl PartialEq for BitVector {
    /// Bit vectors are equal when they have the same length and bits.
    fn eq(&self, other: &Self) -> (r: bool) {
        if self.bits.len() != other.bits.len() {
            return false;
        }
        let len = self.bits.len();
        let mut i: usize = 0;
        while i < len
            invariant
                i <= len,
                len == self@.len() == other@.len(),
                forall|j: int| 0 <= j < i ==> self@[j] == other@[j],
            decreases len - i,
        {
            if self.bits[i] != other.bits[i] {
                return false;
            }
            i = i + 1;
        }
        proof {
            assert(self@ =~= other@);
        }
        true
    }
}

impl vstd::std_specs::cmp::PartialEqSpecImpl for BitVector {
    open spec fn obeys_eq_spec() -> bool {
        true
    }

    open spec fn eq_spec(&self, other: &BitVector) -> bool {
        self@ == other@
    }
}

/// Unpacking the bytes of a vector reproduces the vector whenever its
/// length is a whole number of bytes.
pub proof fn lemma_to_bytes_from_bytes(v: Seq<bool>)
    requires
        v.len() % 8 == 0,
    ensures
        bits_from_bytes(bytes_of_bits(v), v.len()) == v,
{
    crate::bits::lemma_bits_of_bytes_of_bits(v);
    assert(bits_from_bytes(bytes_of_bits(v), v.len()) =~= crate::bits::bits_of_bytes(
        bytes_of_bits(v),
    ));
}

} // verus!
