//! Decoding primitives: counter, run-length, and bit insertion.
//!
//! Each function consumes from a `BitReader` exactly what the corresponding
//! parser in `wire` describes, and returns the same outcome.

use vstd::prelude::*;

verus! {

use crate::bitreader::BitReader;
use crate::bits::{pcount, seq_val};
use crate::bitvector::BitVector;
use crate::error::PocketError;
use crate::wire::{
    insert_bits, lemma_parse_count_bounds, parse_count, parse_rle, parse_rle_rec, rank_from_top,
    zrun, CountStep, RleStep,
};

broadcast use vstd::string::to_string_from_display_ensures_for_str;

/// Decode one counter field ('0' gives 1, '10' gives the terminator 0).
///
/// An overlong value field fails with `InvalidLength` (the kind the 32-bit
/// read reports), not `InvalidFormat`.
#[verifier::loop_isolation(false)]
pub fn count_decode(reader: &mut BitReader) -> (r: Result<u32, PocketError>)
    ensures
        final(reader).bits() == old(reader).bits(),
        match parse_count(old(reader).bits(), old(reader).pos()) {
            CountStep::Short => r == Err::<u32, PocketError>(PocketError::Underflow),
            CountStep::TooWide => r == Err::<u32, PocketError>(PocketError::InvalidLength),
            CountStep::Val { a, end } => r == Ok::<u32, PocketError>(a as u32)
                && final(reader).pos() == end && a < 0x1_0000_0000,
        },
{
    let ghost bits = reader.bits();
    let ghost at = reader.pos();
    let b0 = match reader.read_bit() {
        Ok(b) => b,
        Err(e) => {
            return Err(e);
        },
    };
    if b0 == 0 {
        return Ok(1);
    }
    let b1 = match reader.read_bit() {
        Ok(b) => b,
        Err(e) => {
            return Err(e);
        },
    };
    if b1 == 0 {
        return Ok(0);
    }
    let b2 = match reader.read_bit() {
        Ok(b) => b,
        Err(e) => {
            return Err(e);
        },
    };
    if b2 == 0 {
        let raw = match reader.read_bits(5) {
            Ok(v) => v,
            Err(e) => {
                return Err(e);
            },
        };
        proof {
            crate::bits::lemma_seq_val_bound(bits.subrange(at + 3 as int, at + 8 as int));
            vstd::arithmetic::power2::lemma2_to64();
        }
        return Ok(raw + 2);
    }
    // '111': a unary length field of zeros, ended by the top bit of the value
    proof {
        use_type_invariant(&*reader);
        reader.len_bound();
    }
    let mut size: usize = 0;
    let mut done = false;
    while !done
        invariant
            reader.bits() == bits,
            at + 3 + size <= bits.len(),
            reader.pos() == at + 3 + size,
            size >= 1 ==> done == bits[(at + 3 + size - 1) as int],
            size == 0 ==> !done,
            forall|k: int| 0 <= k < size - 1 ==> !(#[trigger] bits[at as int + 3 + k]),
        decreases bits.len() - reader.pos() + (if done {
            0int
        } else {
            1int
        }),
    {
        match reader.read_bit() {
            Ok(b) => {
                size = size + 1;
                if b == 1 {
                    done = true;
                }
            },
            Err(e) => {
                proof {
                    assert(zrun(bits, at + 3) == size) by {
                        crate::wire::lemma_zrun_all_zero(bits, at + 3, size as nat);
                    }
                }
                return Err(e);
            },
        }
    }
    proof {
        assert(zrun(bits, at + 3) == size - 1) by {
            crate::wire::lemma_zrun_exact(bits, at + 3, (size - 1) as nat);
        }
    }
    let value_bits = size + 5;
    match reader.back() {
        Ok(_) => {},
        Err(_) => {
            proof {
                assert(false);
            }
            return Err(PocketError::Underflow);
        },
    }
    let raw = match reader.read_bits(value_bits) {
        Ok(v) => v,
        Err(e) => {
            return Err(e);
        },
    };
    let wide = raw as u64 + 2;
    let out = #[verifier::truncate] (wide as u32);
    proof {
        let z = (size - 1) as nat;
        let sub = bits.subrange((at + 3 + z) as int, (at + 3 + z + (z + 6)) as int);
        assert(out as nat == (seq_val(sub) + 2) % 0x1_0000_0000) by {
            assert(raw as nat == seq_val(sub));
            assert(out == (raw as u64 + 2) as u32);
            assert(((raw as u64 + 2) as u32) as nat == ((raw as nat) + 2) % 0x1_0000_0000)
                by (bit_vector)
                requires
                    raw <= 0xFFFF_FFFFu64,
            ;
        }
    }
    Ok(out)
}

/// Decode a run-length-encoded vector of `length` bits.
///
/// A gap that would place a set bit before position 0 is an impossible
/// position and fails with `InvalidFormat`.
#[verifier::loop_isolation(false)]
pub fn rle_decode(reader: &mut BitReader, length: usize) -> (r: Result<BitVector, PocketError>)
    requires
        1 <= length <= 65535,
    ensures
        final(reader).bits() == old(reader).bits(),
        match parse_rle(old(reader).bits(), old(reader).pos(), length as nat) {
            RleStep::Short => r == Err::<BitVector, PocketError>(PocketError::Underflow),
            RleStep::TooWide => r == Err::<BitVector, PocketError>(PocketError::InvalidLength),
            RleStep::BadPosition => (match r {
                Err(PocketError::InvalidFormat(m)) => m@ == "impossible RLE position"@,
                _ => false,
            }),
            RleStep::Val { v, end } => match r {
                Ok(bv) => bv@ == v && final(reader).pos() == end,
                Err(_) => false,
            },
        },
{
    let ghost bits = reader.bits();
    let ghost target = parse_rle(reader.bits(), reader.pos(), length as nat);
    let mut result = BitVector::new(length);
    let mut bit_position: usize = length;
    proof {
        assert(result@ =~= crate::bits::zeros(length as nat));
    }
    let mut done = false;
    while !done
        invariant
            reader.bits() == bits,
            result@.len() == length,
            bit_position <= length,
            !done ==> parse_rle_rec(bits, reader.pos(), bit_position as nat, result@) == target,
            done ==> (target matches RleStep::Val { v, end } && result@ == v && reader.pos()
                == end),
        decreases (if reader.pos() <= bits.len() {
            bits.len() - reader.pos()
        } else {
            0int
        }) + (if done {
            0int
        } else {
            1int
        }),
    {
        let ghost pos0 = reader.pos();
        match count_decode(reader) {
            Ok(delta) => {
                proof {
                    lemma_parse_count_bounds(bits, pos0);
                }
                if delta == 0 {
                    done = true;
                } else {
                    if (delta as usize) <= bit_position {
                        bit_position = bit_position - (delta as usize);
                        result.set_bit(bit_position, 1);
                    } else {
                        return Err(
                            PocketError::InvalidFormat("impossible RLE position".to_string()),
                        );
                    }
                }
            },
            Err(e) => {
                return Err(e);
            },
        }
    }
    Ok(result)
}

/// Read one bit for each set position of `mask`, highest position first,
/// and write it into `data` at that position.
#[verifier::loop_isolation(false)]
pub fn bit_insert(reader: &mut BitReader, data: &mut BitVector, mask: &BitVector) -> (r: Result<
    (),
    PocketError,
>)
    ensures
        final(reader).bits() == old(reader).bits(),
        final(data)@.len() == old(data)@.len(),
        old(data)@.len() != mask@.len() ==> r == Err::<(), PocketError>(
            PocketError::InvalidInputLength { expected: mask@.len() as usize, actual: old(data)@.len() as usize },
        ) && final(data)@ == old(data)@ && final(reader).pos() == old(reader).pos(),
        (old(data)@.len() == mask@.len() && pcount(mask@) == 0) ==> r == Ok::<(), PocketError>(())
            && final(data)@ == old(data)@ && final(reader).pos() == old(reader).pos(),
        (old(data)@.len() == mask@.len() && pcount(mask@) > 0 && old(reader).pos() + pcount(mask@)
            <= old(reader).bits().len()) ==> r == Ok::<(), PocketError>(()) && final(data)@
            == insert_bits(
            old(data)@,
            mask@,
            old(reader).bits().subrange(
                old(reader).pos() as int,
                (old(reader).pos() + pcount(mask@)) as int,
            ),
        ) && final(reader).pos() == old(reader).pos() + pcount(mask@),
        (old(data)@.len() == mask@.len() && pcount(mask@) > 0 && old(reader).pos() + pcount(mask@)
            > old(reader).bits().len()) ==> r == Err::<(), PocketError>(PocketError::Underflow),
{
    proof {
        use_type_invariant(mask);
    }
    if data.len() != mask.len() {
        return Err(PocketError::InvalidInputLength { expected: mask.len(), actual: data.len() });
    }
    let ghost bits = reader.bits();
    let ghost pos0 = reader.pos();
    let ghost base = data@;
    let len = mask.len();
    let mut i: usize = len;
    proof {
        assert(mask@.subrange(len as int, len as int) =~= Seq::<bool>::empty());
    }
    while i > 0
        invariant
            reader.bits() == bits,
            i <= len == mask@.len() == data@.len() == base.len(),
            reader.pos() == pos0 + pcount(mask@.subrange(i as int, len as int)),
            reader.pos() <= bits.len() || pcount(mask@.subrange(i as int, len as int)) == 0,
            forall|j: int|
                #![trigger data@[j]]
                i <= j < len ==> data@[j] == (if mask@[j] {
                    bits[(pos0 + rank_from_top(mask@, j)) as int]
                } else {
                    base[j]
                }),
            forall|j: int| #![trigger data@[j]] 0 <= j < i ==> data@[j] == base[j],
        decreases i,
    {
        i = i - 1;
        proof {
            assert(mask@.subrange(i as int, len as int).drop_first() =~= mask@.subrange(
                i + 1,
                len as int,
            ));
            crate::bits::lemma_pcount_drop_first(mask@.subrange(i as int, len as int));
        }
        if mask.get_bit(i) != 0 {
            let b = match reader.read_bit() {
                Ok(b) => b,
                Err(e) => {
                    proof {
                        crate::bits::lemma_pcount_split(mask@, i as int);
                        crate::bits::lemma_pcount_take_step(mask@, i as int);
                        crate::bits::lemma_pcount_take_mono(mask@, 0, i as int);
                        assert(mask@.skip(i + 1) =~= mask@.subrange(i + 1, len as int));
                        crate::bits::lemma_pcount_split(mask@, i + 1);
                        assert(pcount(mask@) >= pcount(mask@.subrange(i + 1, len as int)) + 1);
                    }
                    return Err(e);
                },
            };
            data.set_bit(i, b);
        }
    }
    proof {
        assert(mask@.subrange(0, len as int) =~= mask@);
        crate::bits::lemma_pcount_zero(mask@);
        if pcount(mask@) == 0 {
            assert(data@ =~= base);
        } else {
            let ks = bits.subrange(pos0 as int, (pos0 + pcount(mask@)) as int);
            assert forall|j: int| 0 <= j < len implies data@[j] == insert_bits(base, mask@, ks)[j] by {
                if mask@[j] {
                    crate::bits::lemma_pcount_split(mask@, j + 1);
                    crate::bits::lemma_pcount_take_step(mask@, j);
                    assert(mask@.skip(j + 1) =~= mask@.subrange(j + 1, len as int));
                    assert(rank_from_top(mask@, j) < pcount(mask@));
                    assert(ks[rank_from_top(mask@, j) as int] == bits[(pos0 + rank_from_top(
                        mask@,
                        j,
                    )) as int]);
                }
            }
            assert(data@ =~= insert_bits(base, mask@, ks));
        }
    }
    Ok(())
}

} // verus!
