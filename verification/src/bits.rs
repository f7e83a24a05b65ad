//! Spec-level model of bit strings and their byte packing.
//!
//! A bit string is a `Seq<bool>`; position 0 is the first bit on the wire
//! (the most significant bit of byte 0).  These functions define how bit
//! strings are packed into bytes, how unsigned values are read MSB-first,
//! and the pointwise vector operations the mask kernel is specified with.

use vstd::prelude::*;

verus! {

use vstd::arithmetic::power2::pow2;

/// Bit `k` of byte `b`, indexed MSB-first: bit 0 is the first bit on the wire.
pub open spec fn bit8(b: u8, k: int) -> bool
    recommends
        0 <= k < 8,
{
    (b >> ((7 - k) as u8)) & 1 == 1
}

/// The bit string carried by a byte sequence, MSB-first within each byte.
pub open spec fn bits_of_bytes(bs: Seq<u8>) -> Seq<bool> {
    Seq::new(bs.len() * 8, |i: int| bit8(bs[i / 8], i % 8))
}

/// The byte holding the (at most 8) bits of `s`, left-aligned,
/// with trailing zero bits when `s` is shorter than 8.
pub open spec fn byte_of_bits(s: Seq<bool>) -> u8
    recommends
        s.len() <= 8,
    decreases s.len(),
{
    if s.len() == 0 {
        0u8
    } else {
        byte_of_bits(s.drop_last()) | (if s.last() {
            1u8 << ((8 - s.len()) as u8)
        } else {
            0u8
        })
    }
}

/// Packs a bit string into bytes; the last byte is padded with zero bits.
pub open spec fn bytes_of_bits(s: Seq<bool>) -> Seq<u8> {
    Seq::new(
        (s.len() + 7) / 8,
        |k: int|
            byte_of_bits(
                s.subrange(
                    8 * k,
                    if 8 * k + 8 <= s.len() {
                        8 * k + 8
                    } else {
                        s.len() as int
                    },
                ),
            ),
    )
}

/// The unsigned value of an MSB-first bit string.
pub open spec fn seq_val(s: Seq<bool>) -> nat
    decreases s.len(),
{
    if s.len() == 0 {
        0
    } else {
        2 * seq_val(s.drop_last()) + (if s.last() {
            1nat
        } else {
            0nat
        })
    }
}

/// Bit `i` (MSB-first) of the `n`-bit field holding the low `n` bits of `v`.
pub open spec fn val_bit(v: u64, n: nat, i: int) -> bool
    recommends
        0 <= i < n <= 64,
{
    (v >> ((n - 1 - i) as u64)) & 1 == 1
}

/// The `n`-bit MSB-first field holding the low `n` bits of `v`.
pub open spec fn val_bits(v: u64, n: nat) -> Seq<bool> {
    Seq::new(n, |i: int| val_bit(v, n, i))
}

/// Number of set bits (Hamming weight).
pub open spec fn pcount(s: Seq<bool>) -> nat
    decreases s.len(),
{
    if s.len() == 0 {
        0
    } else {
        pcount(s.drop_last()) + (if s.last() {
            1nat
        } else {
            0nat
        })
    }
}

/// All-zero bit string of length `n`.
pub open spec fn zeros(n: nat) -> Seq<bool> {
    Seq::new(n, |i: int| false)
}

/// Pointwise exclusive or.
pub open spec fn seq_xor(a: Seq<bool>, b: Seq<bool>) -> Seq<bool>
    recommends
        a.len() == b.len(),
{
    Seq::new(a.len(), |i: int| a[i] != b[i])
}

/// Pointwise inclusive or.
pub open spec fn seq_or(a: Seq<bool>, b: Seq<bool>) -> Seq<bool>
    recommends
        a.len() == b.len(),
{
    Seq::new(a.len(), |i: int| a[i] || b[i])
}

/// Pointwise conjunction.
pub open spec fn seq_and(a: Seq<bool>, b: Seq<bool>) -> Seq<bool>
    recommends
        a.len() == b.len(),
{
    Seq::new(a.len(), |i: int| a[i] && b[i])
}

/// Pointwise complement.
pub open spec fn seq_not(a: Seq<bool>) -> Seq<bool> {
    Seq::new(a.len(), |i: int| !a[i])
}

/// The first `n` bits carried by a byte sequence, MSB-first within each byte.
pub open spec fn bits_from_bytes(bs: Seq<u8>, n: nat) -> Seq<bool>
    recommends
        n <= bs.len() * 8,
{
    Seq::new(n, |i: int| bit8(bs[i / 8], i % 8))
}

/// Bit `k` of a 32-bit word, indexed MSB-first (bit 0 is the first bit on
/// the wire of a big-endian word).
pub open spec fn bit32(w: u32, k: int) -> bool
    recommends
        0 <= k < 32,
{
    (w >> ((31 - k) as u32)) & 1 == 1
}

/// Shift one position toward the front; the last position becomes zero.
pub open spec fn shl1(s: Seq<bool>) -> Seq<bool> {
    Seq::new(s.len(), |i: int| i < s.len() - 1 && s[i + 1])
}

// ------------------------------------------------------------------
// Facts about bytes.
// ------------------------------------------------------------------

/// `byte_of_bits` places bit `k` of its argument at wire position `k`.
pub proof fn lemma_bit8_byte_of_bits(s: Seq<bool>, k: int)
    requires
        s.len() <= 8,
        0 <= k < 8,
    ensures
        bit8(byte_of_bits(s), k) == (k < s.len() && s[k]),
    decreases s.len(),
{
    let sh = (7 - k) as u8;
    if s.len() == 0 {
        assert((0u8 >> sh) & 1 == 0) by (bit_vector);
    } else {
        let n = s.len() as int;
        let b0 = byte_of_bits(s.drop_last());
        let j = (8 - n) as u8;
        let m: u8 = if s.last() {
            1u8 << j
        } else {
            0u8
        };
        lemma_bit8_byte_of_bits(s.drop_last(), k);
        assert(byte_of_bits(s) == b0 | m);
        assert((((b0 | m) >> sh) & 1 == 1) == (((b0 >> sh) & 1 == 1) || ((m >> sh) & 1 == 1)))
            by (bit_vector);
        if s.last() {
            assert((((1u8 << j) >> sh) & 1 == 1) == (sh == j)) by (bit_vector)
                requires
                    j < 8,
                    sh < 8,
            ;
            assert((sh == j) == (k == n - 1));
        } else {
            assert((0u8 >> sh) & 1 == 0) by (bit_vector);
        }
        if k < n - 1 {
            assert(s.drop_last()[k] == s[k]);
        }
    }
}

/// A byte is recovered from its own bit string.
pub proof fn lemma_byte_of_bits_of_byte(b: u8)
    ensures
        byte_of_bits(Seq::new(8, |k: int| bit8(b, k))) == b,
{
    let s = Seq::new(8, |k: int| bit8(b, k));
    let c = byte_of_bits(s);
    assert forall|k: int| 0 <= k < 8 implies bit8(c, k) == bit8(b, k) by {
        lemma_bit8_byte_of_bits(s, k);
    }
    assert(bit8(c, 0) == bit8(b, 0));
    assert(bit8(c, 1) == bit8(b, 1));
    assert(bit8(c, 2) == bit8(b, 2));
    assert(bit8(c, 3) == bit8(b, 3));
    assert(bit8(c, 4) == bit8(b, 4));
    assert(bit8(c, 5) == bit8(b, 5));
    assert(bit8(c, 6) == bit8(b, 6));
    assert(bit8(c, 7) == bit8(b, 7));
    assert(c == b) by (bit_vector)
        requires
            ((c >> 7u8) & 1 == 1) == ((b >> 7u8) & 1 == 1),
            ((c >> 6u8) & 1 == 1) == ((b >> 6u8) & 1 == 1),
            ((c >> 5u8) & 1 == 1) == ((b >> 5u8) & 1 == 1),
            ((c >> 4u8) & 1 == 1) == ((b >> 4u8) & 1 == 1),
            ((c >> 3u8) & 1 == 1) == ((b >> 3u8) & 1 == 1),
            ((c >> 2u8) & 1 == 1) == ((b >> 2u8) & 1 == 1),
            ((c >> 1u8) & 1 == 1) == ((b >> 1u8) & 1 == 1),
            ((c >> 0u8) & 1 == 1) == ((b >> 0u8) & 1 == 1),
    ;
}

/// Unpacking the packed form of a byte-aligned bit string gives it back.
pub proof fn lemma_bits_of_bytes_of_bits(s: Seq<bool>)
    requires
        s.len() % 8 == 0,
    ensures
        bits_of_bytes(bytes_of_bits(s)) == s,
{
    let bs = bytes_of_bits(s);
    assert(bs.len() * 8 == s.len());
    assert forall|i: int| 0 <= i < s.len() implies bits_of_bytes(bs)[i] == s[i] by {
        let k = i / 8;
        let chunk = s.subrange(8 * k, 8 * k + 8);
        lemma_bit8_byte_of_bits(chunk, i % 8);
        assert(chunk[i % 8] == s[i]);
    }
    assert(bits_of_bytes(bs) =~= s);
}

/// Packing the bit string of a byte sequence gives the bytes back.
pub proof fn lemma_bytes_of_bits_of_bytes(bs: Seq<u8>)
    ensures
        bytes_of_bits(bits_of_bytes(bs)) == bs,
{
    let s = bits_of_bytes(bs);
    assert forall|k: int| 0 <= k < bs.len() implies bytes_of_bits(s)[k] == bs[k] by {
        let chunk = s.subrange(8 * k, 8 * k + 8);
        assert(chunk =~= Seq::new(8, |j: int| bit8(bs[k], j)));
        lemma_byte_of_bits_of_byte(bs[k]);
    }
    assert(bytes_of_bits(s) =~= bs);
}

// ------------------------------------------------------------------
// Facts about pcount.
// ------------------------------------------------------------------

/// Counting one more position extends the count by that position's bit.
pub proof fn lemma_pcount_take_step(s: Seq<bool>, i: int)
    requires
        0 <= i < s.len(),
    ensures
        pcount(s.take(i + 1)) == pcount(s.take(i)) + (if s[i] {
            1nat
        } else {
            0nat
        }),
{
    assert(s.take(i + 1).drop_last() =~= s.take(i));
    assert(s.take(i + 1).last() == s[i]);
}

/// The full take of a sequence is itself.
pub proof fn lemma_pcount_take_all(s: Seq<bool>)
    ensures
        pcount(s.take(s.len() as int)) == pcount(s),
{
    assert(s.take(s.len() as int) =~= s);
}

/// The weight is zero exactly when no bit is set.
pub proof fn lemma_pcount_zero(s: Seq<bool>)
    ensures
        (pcount(s) == 0) == (forall|i: int| 0 <= i < s.len() ==> !s[i]),
    decreases s.len(),
{
    if s.len() > 0 {
        lemma_pcount_zero(s.drop_last());
        if pcount(s) == 0 {
            assert forall|i: int| 0 <= i < s.len() implies !s[i] by {
                if i < s.len() - 1 {
                    assert(s.drop_last()[i] == s[i]);
                }
            }
        } else {
            if !s.last() {
                let j = choose|i: int| 0 <= i < s.drop_last().len() && s.drop_last()[i];
                assert(s[j]);
            }
        }
    }
}

/// The weight never exceeds the length.
pub proof fn lemma_pcount_le_len(s: Seq<bool>)
    ensures
        pcount(s) <= s.len(),
    decreases s.len(),
{
    if s.len() > 0 {
        lemma_pcount_le_len(s.drop_last());
    }
}

/// The weight of a prefix grows with the prefix.
pub proof fn lemma_pcount_take_mono(s: Seq<bool>, i: int, j: int)
    requires
        0 <= i <= j <= s.len(),
    ensures
        pcount(s.take(i)) <= pcount(s.take(j)),
    decreases j - i,
{
    if i < j {
        lemma_pcount_take_step(s, j - 1);
        lemma_pcount_take_mono(s, i, j - 1);
    }
}

/// Weight of a set position splits the count of the enclosing prefix.
pub proof fn lemma_pcount_split(s: Seq<bool>, i: int)
    requires
        0 <= i <= s.len(),
    ensures
        pcount(s) == pcount(s.take(i)) + pcount(s.skip(i)),
    decreases s.len() - i,
{
    if i == s.len() {
        assert(s.take(i) =~= s);
        assert(s.skip(i) =~= Seq::<bool>::empty());
    } else {
        lemma_pcount_split(s, i + 1);
        lemma_pcount_take_step(s, i);
        assert(s.skip(i).drop_first() =~= s.skip(i + 1));
        lemma_pcount_drop_first(s.skip(i));
    }
}

/// Dropping the first element removes its contribution to the weight.
pub proof fn lemma_pcount_drop_first(s: Seq<bool>)
    requires
        s.len() > 0,
    ensures
        pcount(s) == (if s[0] {
            1nat
        } else {
            0nat
        }) + pcount(s.drop_first()),
    decreases s.len(),
{
    if s.len() == 1 {
        assert(s.drop_first() =~= Seq::<bool>::empty());
        assert(s.drop_last() =~= Seq::<bool>::empty());
        assert(s.last() == s[0]);
    } else {
        lemma_pcount_drop_first(s.drop_last());
        assert(pcount(s) == pcount(s.drop_last()) + (if s.last() {
            1nat
        } else {
            0nat
        }));
        assert(s.drop_last().drop_first() =~= s.drop_first().drop_last());
        assert(s.drop_last()[0] == s[0]);
        assert(s.drop_first().last() == s.last());
        assert(pcount(s.drop_first()) == pcount(s.drop_first().drop_last()) + (if s.drop_first().last() {
            1nat
        } else {
            0nat
        }));
        assert(pcount(s.drop_last()) == (if s[0] {
            1nat
        } else {
            0nat
        }) + pcount(s.drop_last().drop_first()));
        assert(pcount(s.drop_first().drop_last()) == pcount(s.drop_last().drop_first()));
    }
}

/// Hamming weight of an exclusive or (inclusion–exclusion form):
/// the weight of `v XOR w` plus twice the weight of `v AND w` equals
/// the sum of the weights of `v` and `w`.
pub proof fn lemma_popcount_xor(v: Seq<bool>, w: Seq<bool>)
    requires
        v.len() == w.len(),
    ensures
        pcount(seq_xor(v, w)) + 2 * pcount(seq_and(v, w)) == pcount(v) + pcount(w),
    decreases v.len(),
{
    if v.len() > 0 {
        lemma_popcount_xor(v.drop_last(), w.drop_last());
        assert(seq_xor(v, w).drop_last() =~= seq_xor(v.drop_last(), w.drop_last()));
        assert(seq_and(v, w).drop_last() =~= seq_and(v.drop_last(), w.drop_last()));
        assert(seq_xor(v, w).last() == (v.last() != w.last()));
        assert(seq_and(v, w).last() == (v.last() && w.last()));
    }
}

// ------------------------------------------------------------------
// Facts about seq_val and val_bits.
// ------------------------------------------------------------------

/// Reading one more bit doubles the value and adds the bit.
pub proof fn lemma_seq_val_take_step(s: Seq<bool>, i: int)
    requires
        0 <= i < s.len(),
    ensures
        seq_val(s.take(i + 1)) == 2 * seq_val(s.take(i)) + (if s[i] {
            1nat
        } else {
            0nat
        }),
{
    assert(s.take(i + 1).drop_last() =~= s.take(i));
    assert(s.take(i + 1).last() == s[i]);
}

/// The value of an `n`-bit string is below `2^n`.
pub proof fn lemma_seq_val_bound(s: Seq<bool>)
    ensures
        seq_val(s) < pow2(s.len()),
    decreases s.len(),
{
    if s.len() == 0 {
        vstd::arithmetic::power2::lemma2_to64();
    } else {
        vstd::arithmetic::power2::lemma_pow2_unfold(s.len());
        lemma_seq_val_bound(s.drop_last());
    }
}

/// A value below `2^n` is recovered from its `n`-bit field.
pub proof fn lemma_seq_val_of_val_bits(v: u64, n: nat)
    requires
        n <= 64,
        (v as nat) < pow2(n),
    ensures
        seq_val(val_bits(v, n)) == v,
    decreases n,
{
    if n == 0 {
        vstd::arithmetic::power2::lemma2_to64();
    } else {
        let half = v >> 1u64;
        assert(half == v / 2 && v == 2 * (v / 2) + (v & 1) && ((v & 1) == 0 || (v & 1) == 1))
            by (bit_vector)
            requires
                half == v >> 1u64,
        ;
        assert(val_bits(v, n).drop_last() =~= val_bits(half, (n - 1) as nat)) by {
            assert forall|i: int| 0 <= i < n - 1 implies val_bit(v, n, i) == val_bit(
                half,
                (n - 1) as nat,
                i,
            ) by {
                let sh = (n - 1 - i) as u64;
                assert((v >> sh) & 1 == ((v >> 1u64) >> ((sh - 1) as u64)) & 1) by (bit_vector)
                    requires
                        1 <= sh < 64,
                ;
            }
        }
        assert(val_bits(v, n).last() == ((v >> 0u64) & 1 == 1));
        assert((v >> 0u64) & 1 == v & 1) by (bit_vector);
        vstd::arithmetic::power2::lemma_pow2_unfold(n);
        assert((half as nat) < pow2((n - 1) as nat)) by {
            assert(pow2(n) == 2 * pow2((n - 1) as nat));
        }
        lemma_seq_val_of_val_bits(half, (n - 1) as nat);
    }
}

} // verus!
