//! Encoding primitives: counter, run-length, and bit extraction.
//!
//! Each function appends to a `BitBuffer` exactly the bit string that the
//! corresponding specification function in `wire` defines.

use vstd::prelude::*;

verus! {

use crate::bitbuffer::{BitBuffer, MAX_OUTPUT_BITS};
use crate::bits::val_bits;
use crate::bitvector::BitVector;
use crate::error::PocketError;
use crate::wire::{
    be_bits, befwd_bits, count_bits, count_len, lemma_count_len_le, lemma_log2_bracket,
    lemma_log2_ge, lemma_log2_lt, lemma_rle_rec_len, log2, rle_bits, rle_bits_rec,
};

broadcast use vstd::string::to_string_from_display_ensures_for_str;

/// Append the counter encoding of `a` (1 to 65535).
///
/// Out-of-range values are rejected; an encoding that would exceed the
/// output cap fails with `BufferOverflow`.
pub fn count_encode(output: &mut BitBuffer, a: u32) -> (r: Result<(), PocketError>)
    ensures
        (a == 0 || a > 65535) ==> (match r {
            Err(PocketError::InvalidFormat(m)) => m@ == "COUNT value out of range"@,
            _ => false,
        }) && final(output)@ == old(output)@,
        (1 <= a <= 65535 && old(output)@.len() + count_len(a as nat) <= MAX_OUTPUT_BITS) ==> r
            == Ok::<(), PocketError>(()) && final(output)@ == old(output)@ + count_bits(a as nat),
        (1 <= a <= 65535 && old(output)@.len() + count_len(a as nat) > MAX_OUTPUT_BITS) ==> r
            == Err::<(), PocketError>(PocketError::BufferOverflow),
{
    if a == 0 || a > 65535 {
        return Err(PocketError::InvalidFormat("COUNT value out of range".to_string()));
    }
    if a == 1 {
        if !output.append_bit(0) {
            return Err(PocketError::BufferOverflow);
        }
        proof {
            assert(old(output)@.push(false) =~= old(output)@ + count_bits(1));
        }
        Ok(())
    } else if a <= 33 {
        let packed = 0b1100_0000u32 | (a - 2);
        proof {
            lemma_count_small_bits(a);
        }
        if !output.append_value(packed, 8) {
            return Err(PocketError::BufferOverflow);
        }
        Ok(())
    } else {
        let value = a - 2;
        proof {
            vstd::arithmetic::power2::lemma2_to64();
            lemma_log2_ge(value as nat, 5);
            lemma_log2_lt(value as nat, 16);
            assert(val_bits(0b111u64, 3) =~= seq![true, true, true]) by {
                assert((0b111u64 >> 2u64) & 1 == 1 && (0b111u64 >> 1u64) & 1 == 1 && (0b111u64
                    >> 0u64) & 1 == 1) by (bit_vector);
            }
        }
        if !output.append_value(0b111, 3) {
            proof {
                lemma_count_len_le(a as nat);
            }
            return Err(PocketError::BufferOverflow);
        }
        let mut hb: u32 = 0;
        let mut x: u32 = value;
        proof {
            lemma_log2_bracket(value as nat);
        }
        while x >= 2
            invariant
                1 <= x <= value,
                log2(value as nat) < 16,
                hb <= log2(value as nat),
                log2(value as nat) == hb + log2(x as nat),
            decreases x,
        {
            x = x / 2;
            hb = hb + 1;
        }
        assert(hb == log2(value as nat));
        let e = (2 * (hb + 1) - 6) as usize;
        if !output.append_value(value, e) {
            return Err(PocketError::BufferOverflow);
        }
        proof {
            assert(final(output)@ =~= old(output)@ + count_bits(a as nat));
        }
        Ok(())
    }
}

/// The 8-bit packed form of a small counter is its counter encoding.
proof fn lemma_count_small_bits(a: u32)
    requires
        2 <= a <= 33,
    ensures
        val_bits((0b1100_0000u32 | ((a - 2) as u32)) as u64, 8) == count_bits(a as nat),
{
    let w = (a - 2) as u64;
    let c = (0b1100_0000u32 | ((a - 2) as u32)) as u64;
    assert(c == w | 0xC0) by (bit_vector)
        requires
            w == (a - 2) as u64,
            c == (0b1100_0000u32 | ((a - 2) as u32)) as u64,
            2 <= a <= 33,
    ;
    assert(((c >> 7u64) & 1 == 1) && ((c >> 6u64) & 1 == 1) && ((c >> 5u64) & 1 == 0))
        by (bit_vector)
        requires
            c == w | 0xC0,
            w <= 31,
    ;
    assert forall|s: u64| s <= 4 implies ((c >> s) & 1) == ((w >> s) & 1) by {
        assert((c >> s) & 1 == (w >> s) & 1) by (bit_vector)
            requires
                c == w | 0xC0,
                w <= 31,
                s <= 4,
        ;
    }
    assert(val_bits(c, 8) =~= count_bits(a as nat));
}

/// Append the run-length encoding of `input`.
#[verifier::loop_isolation(false)]
pub fn rle_encode(output: &mut BitBuffer, input: &BitVector) -> (r: Result<(), PocketError>)
    ensures
        old(output)@.len() + rle_bits(input@).len() <= MAX_OUTPUT_BITS ==> r == Ok::<
            (),
            PocketError,
        >(()) && final(output)@ == old(output)@ + rle_bits(input@),
        old(output)@.len() + rle_bits(input@).len() > MAX_OUTPUT_BITS ==> r == Err::<
            (),
            PocketError,
        >(PocketError::BufferOverflow),
{
    proof {
        use_type_invariant(input);
    }
    let ghost orig = old(output)@;
    let ghost v = input@;
    let len = input.len();
    let mut anchor: usize = len;
    let mut i: usize = len;
    while i > 0
        invariant
            i <= anchor <= len == v.len() <= 65535,
            input@ == v,
            orig + rle_bits(v) == output@ + rle_bits_rec(v, i as int, anchor as int),
        decreases i,
    {
        let bit = input.get_bit(i - 1);
        if bit != 0 {
            let delta = anchor - (i - 1);
            let ghost before = output@;
            proof {
                lemma_rle_rec_len(v, i - 1, i - 1);
                assert(rle_bits_rec(v, i as int, anchor as int) == count_bits(delta as nat)
                    + rle_bits_rec(v, i - 1, i - 1));
            }
            match count_encode(output, delta as u32) {
                Ok(_) => {
                    proof {
                        assert((before + count_bits(delta as nat)) + rle_bits_rec(v, i - 1, i - 1)
                            =~= before + (count_bits(delta as nat) + rle_bits_rec(
                            v,
                            i - 1,
                            i - 1,
                        )));
                    }
                },
                Err(e) => {
                    proof {
                        assert(1 <= delta && delta <= 65535);
                        assert(before.len() + count_len(delta as nat) > MAX_OUTPUT_BITS);
                        assert(rle_bits_rec(v, i as int, anchor as int).len() == count_len(
                            delta as nat,
                        ) + rle_bits_rec(v, i - 1, i - 1).len());
                        assert(rle_bits_rec(v, i - 1, i - 1).len() >= 2);
                        assert((orig + rle_bits(v)).len() == (before + rle_bits_rec(
                            v,
                            i as int,
                            anchor as int,
                        )).len());
                        assert(orig.len() + rle_bits(v).len() > MAX_OUTPUT_BITS);
                    }
                    return Err(e);
                },
            }
            anchor = i - 1;
        }
        i = i - 1;
    }
    let ghost before = output@;
    proof {
        assert(rle_bits_rec(v, 0, anchor as int) == seq![true, false]);
        assert(val_bits(2u64, 2) =~= seq![true, false]) by {
            assert((2u64 >> 1u64) & 1 == 1 && (2u64 >> 0u64) & 1 == 0) by (bit_vector);
        }
    }
    if !output.append_value(0b10, 2) {
        proof {
            assert((orig + rle_bits(v)).len() == (before + rle_bits_rec(v, 0, anchor as int)).len());
        }
        return Err(PocketError::BufferOverflow);
    }
    proof {
        use_type_invariant(&*output);
        assert(before + val_bits(2u64, 2) =~= before + seq![true, false]);
        assert(final(output)@ =~= orig + rle_bits(v));
        assert(orig.len() + rle_bits(v).len() <= MAX_OUTPUT_BITS);
    }
    Ok(())
}

/// Append the bits of `data` at the set positions of `mask`, highest
/// position first.
#[verifier::loop_isolation(false)]
pub fn bit_extract(output: &mut BitBuffer, data: &BitVector, mask: &BitVector) -> (r: Result<
    (),
    PocketError,
>)
    ensures
        data@.len() != mask@.len() ==> r == Err::<(), PocketError>(
            PocketError::InvalidInputLength { expected: mask@.len() as usize, actual: data@.len() as usize },
        ) && final(output)@ == old(output)@,
        (data@.len() == mask@.len() && old(output)@.len() + be_bits(
            data@,
            mask@,
            mask@.len() as int,
        ).len() <= MAX_OUTPUT_BITS) ==> r == Ok::<(), PocketError>(()) && final(output)@ == old(
            output,
        )@ + be_bits(data@, mask@, mask@.len() as int),
        (data@.len() == mask@.len() && old(output)@.len() + be_bits(
            data@,
            mask@,
            mask@.len() as int,
        ).len() > MAX_OUTPUT_BITS) ==> r == Err::<(), PocketError>(PocketError::BufferOverflow),
{
    proof {
        use_type_invariant(data);
        use_type_invariant(mask);
    }
    if data.len() != mask.len() {
        return Err(
            PocketError::InvalidInputLength { expected: mask.len(), actual: data.len() },
        );
    }
    let ghost orig = old(output)@;
    let ghost full = be_bits(data@, mask@, mask@.len() as int);
    let len = mask.len();
    let mut i: usize = len;
    while i > 0
        invariant
            i <= len == mask@.len() == data@.len(),
            orig + full == output@ + be_bits(data@, mask@, i as int),
            full == be_bits(data@, mask@, mask@.len() as int),
        decreases i,
    {
        let mbit = mask.get_bit(i - 1);
        if mbit != 0 {
            let dbit = data.get_bit(i - 1);
            let ghost before = output@;
            if !output.append_bit(dbit) {
                proof {
                    use_type_invariant(&*output);
                    assert(be_bits(data@, mask@, i as int).len() >= 1);
                    assert((orig + full).len() == (output@ + be_bits(
                        data@,
                        mask@,
                        i as int,
                    )).len());
                }
                return Err(PocketError::BufferOverflow);
            }
            proof {
                assert(be_bits(data@, mask@, i as int) == seq![data@[i - 1]] + be_bits(
                    data@,
                    mask@,
                    i - 1,
                ));
                assert(before.push(data@[i - 1]) + be_bits(data@, mask@, i - 1) =~= before + (seq![
                    data@[i - 1],
                ] + be_bits(data@, mask@, i - 1)));
            }
        }
        i = i - 1;
    }
    proof {
        use_type_invariant(&*output);
        assert(orig + full =~= output@);
        assert(orig.len() + full.len() <= MAX_OUTPUT_BITS);
    }
    Ok(())
}

/// Append the bits of `data` at the set positions of `mask`, lowest
/// position first.
#[verifier::loop_isolation(false)]
pub fn bit_extract_forward(output: &mut BitBuffer, data: &BitVector, mask: &BitVector) -> (r:
    Result<(), PocketError>)
    ensures
        data@.len() != mask@.len() ==> r == Err::<(), PocketError>(
            PocketError::InvalidInputLength { expected: mask@.len() as usize, actual: data@.len() as usize },
        ) && final(output)@ == old(output)@,
        (data@.len() == mask@.len() && old(output)@.len() + befwd_bits(data@, mask@, 0).len()
            <= MAX_OUTPUT_BITS) ==> r == Ok::<(), PocketError>(()) && final(output)@ == old(
            output,
        )@ + befwd_bits(data@, mask@, 0),
        (data@.len() == mask@.len() && old(output)@.len() + befwd_bits(data@, mask@, 0).len()
            > MAX_OUTPUT_BITS) ==> r == Err::<(), PocketError>(PocketError::BufferOverflow),
{
    proof {
        use_type_invariant(data);
        use_type_invariant(mask);
    }
    if data.len() != mask.len() {
        return Err(
            PocketError::InvalidInputLength { expected: mask.len(), actual: data.len() },
        );
    }
    let ghost orig = old(output)@;
    let ghost full = befwd_bits(data@, mask@, 0);
    let len = mask.len();
    let mut i: usize = 0;
    while i < len
        invariant
            i <= len == mask@.len() == data@.len(),
            orig + full == output@ + befwd_bits(data@, mask@, i as int),
            full == befwd_bits(data@, mask@, 0),
        decreases len - i,
    {
        let mbit = mask.get_bit(i);
        if mbit != 0 {
            let dbit = data.get_bit(i);
            let ghost before = output@;
            if !output.append_bit(dbit) {
                proof {
                    use_type_invariant(&*output);
                    assert(befwd_bits(data@, mask@, i as int).len() >= 1);
                    assert((orig + full).len() == (output@ + befwd_bits(
                        data@,
                        mask@,
                        i as int,
                    )).len());
                }
                return Err(PocketError::BufferOverflow);
            }
            proof {
                assert(befwd_bits(data@, mask@, i as int) == seq![data@[i as int]] + befwd_bits(
                    data@,
                    mask@,
                    i + 1,
                ));
                assert(before.push(data@[i as int]) + befwd_bits(data@, mask@, i + 1) =~= before
                    + (seq![data@[i as int]] + befwd_bits(data@, mask@, i + 1)));
            }
        }
        i = i + 1;
    }
    proof {
        use_type_invariant(&*output);
        assert(befwd_bits(data@, mask@, len as int) == Seq::<bool>::empty());
        assert(orig + full =~= output@);
        assert(orig.len() + full.len() <= MAX_OUTPUT_BITS);
    }
    Ok(())
}

} // verus!
