//! The per-packet decoder: mask reconstruction and output framing.
//!
//! `dec_step` is a total parser over a bit string: it says, for every
//! decoder state and input, whether a packet parses, what it decodes to,
//! how many bits it consumes and what the next state is.
//! `Decompressor::decompress_packet` is proved to behave exactly like it.

use vstd::prelude::*;

verus! {

use crate::bitreader::BitReader;
use crate::bits::{bits_of_bytes, bytes_of_bits, pcount, seq_or, seq_xor, zeros};
use crate::bitvector::BitVector;
use crate::decode::{bit_insert, count_decode, rle_decode};
use crate::error::PocketError;
use crate::wire::{
    insert_bits, parse_count, parse_rle, rank_from_bot, unhxor, CountStep, RleStep,
};

/// The mathematical state of a decompressor.
pub struct DecModel {
    /// Packet length in bits.
    pub f: nat,
    /// Robustness level.
    pub r: nat,
    /// Current mask.
    pub mask: Seq<bool>,
    /// The previously decoded packet (the prediction base).
    pub prev_out: Seq<bool>,
    /// Mask the stream started with.
    pub init_mask: Seq<bool>,
    /// Step counter.
    pub t: nat,
}

/// Well-formedness of a decoder state.
pub open spec fn dec_wf(d: DecModel) -> bool {
    &&& 1 <= d.f <= 65535
    &&& d.r <= 7
    &&& d.mask.len() == d.f
    &&& d.prev_out.len() == d.f
    &&& d.init_mask.len() == d.f
}

/// A freshly initialized decoder state.
pub open spec fn dec_init(f: nat, init: Seq<bool>, r: nat) -> DecModel {
    DecModel { f, r, mask: init, prev_out: zeros(f), init_mask: init, t: 0 }
}

/// Why a parse failed.
pub enum ErrKind {
    /// The input ended inside the packet.
    EndOfInput,
    /// A counter value field was wider than a 32-bit read allows.
    BadWidth,
    /// A run-length gap would place a set bit before position 0.
    BadPosition,
}

/// Outcome of parsing one packet.
pub enum StepRes {
    /// The packet did not parse.
    Fail(ErrKind),
    /// The decoded packet, the position after it, and the next state.
    Good { out: Seq<bool>, end: nat, next: DecModel },
}

/// The mask after applying a forward-order update field `ks` at the set
/// positions of `x` (a one clears the position, a zero sets it).
pub open spec fn dec_kmask(mask: Seq<bool>, x: Seq<bool>, ks: Seq<bool>) -> Seq<bool> {
    Seq::new(
        mask.len(),
        |i: int|
            if x[i] {
                !ks[rank_from_bot(x, i) as int]
            } else {
                mask[i]
            },
    )
}

/// The positive-change tracker: the set positions of `x` whose update bit
/// was a one.
pub open spec fn dec_kpos(x: Seq<bool>, ks: Seq<bool>) -> Seq<bool> {
    Seq::new(x.len(), |i: int| x[i] && ks[rank_from_bot(x, i) as int])
}

/// Parse one packet at `at`.
#[verifier::opaque]
pub open spec fn dec_step(d: DecModel, bits: Seq<bool>, at: nat) -> StepRes {
    match parse_rle(bits, at, d.f) {
        RleStep::Short => StepRes::Fail(ErrKind::EndOfInput),
        RleStep::TooWide => StepRes::Fail(ErrKind::BadWidth),
        RleStep::BadPosition => StepRes::Fail(ErrKind::BadPosition),
        RleStep::Val { v: x, end: a1 } => {
            if a1 + 4 > bits.len() {
                StepRes::Fail(ErrKind::EndOfInput)
            } else {
                dec_h(d, bits, a1 + 4, x, crate::bits::seq_val(
                    bits.subrange(a1 as int, (a1 + 4) as int),
                ))
            }
        },
    }
}

/// Parse the mask-update fields, yielding the updated mask and the
/// positive-change tracker.
#[verifier::opaque]
pub open spec fn dec_h(d: DecModel, bits: Seq<bool>, at: nat, x: Seq<bool>, vt: nat) -> StepRes {
    if vt > 0 && pcount(x) > 0 {
        if at >= bits.len() {
            StepRes::Fail(ErrKind::EndOfInput)
        } else if bits[at as int] {
            if at + 2 + pcount(x) > bits.len() {
                StepRes::Fail(ErrKind::EndOfInput)
            } else {
                let ks = bits.subrange((at + 1) as int, (at + 1 + pcount(x)) as int);
                dec_q(
                    d,
                    bits,
                    at + 2 + pcount(x),
                    dec_kmask(d.mask, x, ks),
                    dec_kpos(x, ks),
                    vt,
                    bits[(at + 1 + pcount(x)) as int],
                )
            }
        } else {
            dec_q(d, bits, at + 1, seq_or(d.mask, x), zeros(d.f), vt, false)
        }
    } else if vt == 0 && pcount(x) > 0 {
        dec_q(d, bits, at, seq_xor(d.mask, x), zeros(d.f), vt, false)
    } else {
        dec_q(d, bits, at, d.mask, zeros(d.f), vt, false)
    }
}

/// Parse the optional full-mask refresh and the verbatim flag.
#[verifier::opaque]
pub open spec fn dec_q(
    d: DecModel,
    bits: Seq<bool>,
    at: nat,
    m: Seq<bool>,
    xp: Seq<bool>,
    vt: nat,
    ct: bool,
) -> StepRes {
    if at >= bits.len() {
        StepRes::Fail(ErrKind::EndOfInput)
    } else if bits[at as int] {
        dec_u(d, bits, at + 1, m, xp, vt, ct, false)
    } else if at + 1 >= bits.len() {
        StepRes::Fail(ErrKind::EndOfInput)
    } else if bits[(at + 1) as int] {
        match parse_rle(bits, at + 2, d.f) {
            RleStep::Short => StepRes::Fail(ErrKind::EndOfInput),
            RleStep::TooWide => StepRes::Fail(ErrKind::BadWidth),
            RleStep::BadPosition => StepRes::Fail(ErrKind::BadPosition),
            RleStep::Val { v: h, end: a3 } => {
                if a3 >= bits.len() {
                    StepRes::Fail(ErrKind::EndOfInput)
                } else {
                    dec_u(d, bits, a3 + 1, unhxor(h), xp, vt, ct, bits[a3 as int])
                }
            },
        }
    } else if at + 2 >= bits.len() {
        StepRes::Fail(ErrKind::EndOfInput)
    } else {
        dec_u(d, bits, at + 3, m, xp, vt, ct, bits[(at + 2) as int])
    }
}

/// Parse the data payload and build the decoded packet.
pub open spec fn dec_u(
    d: DecModel,
    bits: Seq<bool>,
    at: nat,
    m: Seq<bool>,
    xp: Seq<bool>,
    vt: nat,
    ct: bool,
    rt: bool,
) -> StepRes {
    if rt {
        match parse_count(bits, at) {
            CountStep::Short => StepRes::Fail(ErrKind::EndOfInput),
            CountStep::TooWide => StepRes::Fail(ErrKind::BadWidth),
            CountStep::Val { a: _, end: a4 } => {
                if a4 + d.f > bits.len() {
                    StepRes::Fail(ErrKind::EndOfInput)
                } else {
                    let out = bits.subrange(a4 as int, (a4 + d.f) as int);
                    StepRes::Good {
                        out,
                        end: a4 + d.f,
                        next: DecModel { mask: m, prev_out: out, t: d.t + 1, ..d },
                    }
                }
            },
        }
    } else {
        let em = if ct && vt > 0 {
            seq_or(m, xp)
        } else {
            m
        };
        if pcount(em) > 0 && at + pcount(em) > bits.len() {
            StepRes::Fail(ErrKind::EndOfInput)
        } else {
            let out = insert_bits(
                d.prev_out,
                em,
                bits.subrange(at as int, (at + pcount(em)) as int),
            );
            StepRes::Good {
                out,
                end: at + pcount(em),
                next: DecModel { mask: m, prev_out: out, t: d.t + 1, ..d },
            }
        }
    }
}

/// Outcome of decompressing a whole stream.
pub enum DRes {
    /// The decoded bytes.
    DOk(Seq<u8>),
    /// Where it went wrong.
    DFail(ErrKind),
}

/// The next byte boundary at or after `n`.
pub open spec fn align8(n: nat) -> nat {
    if n % 8 == 0 {
        n
    } else {
        (n + 8 - n % 8) as nat
    }
}

/// Decode packets from `at` until the input is exhausted, re-aligning to a
/// byte boundary after each packet.
pub open spec fn decomp_rec(d: DecModel, bits: Seq<bool>, at: nat) -> DRes
    decreases bits.len() - at,
{
    if at >= bits.len() {
        DRes::DOk(Seq::<u8>::empty())
    } else {
        match dec_step(d, bits, at) {
            StepRes::Fail(k) => DRes::DFail(k),
            StepRes::Good { out, end, next } => {
                if end <= at || end > bits.len() {
                    DRes::DFail(ErrKind::EndOfInput)
                } else {
                    let a2 = align8(end);
                    if a2 >= bits.len() {
                        DRes::DOk(bytes_of_bits(out))
                    } else {
                        match decomp_rec(next, bits, a2) {
                            DRes::DFail(k) => DRes::DFail(k),
                            DRes::DOk(rest) => DRes::DOk(bytes_of_bits(out) + rest),
                        }
                    }
                }
            },
        }
    }
}

/// The decoded form of a whole compressed byte stream.
pub open spec fn spec_decompress_bytes(data: Seq<u8>, f: nat, r: nat) -> DRes {
    decomp_rec(dec_init(f, zeros(f), r), bits_of_bytes(data), 0)
}


/// The decompressor: reconstructs packets and the encoder's mask.
#[derive(Debug)]
pub struct Decompressor {
    f: usize,
    robustness: u8,
    mask: BitVector,
    initial_mask: BitVector,
    prev_output: BitVector,
    t: usize,
}

impl View for Decompressor {
    type V = DecModel;

    closed spec fn view(&self) -> DecModel {
        DecModel {
            f: self.f as nat,
            r: self.robustness as nat,
            mask: self.mask@,
            prev_out: self.prev_output@,
            init_mask: self.initial_mask@,
            t: self.t as nat,
        }
    }
}

impl Clone for Decompressor {
    /// A decompressor in the same state, for a parallel continuation of the
    /// stream.
    fn clone(&self) -> (r: Self)
        ensures
            r@ == self@,
    {
        Decompressor {
            f: self.f,
            robustness: self.robustness,
            mask: self.mask.clone(),
            initial_mask: self.initial_mask.clone(),
            prev_output: self.prev_output.clone(),
            t: self.t,
        }
    }
}

impl Decompressor {
    /// Create a decompressor for packets of `f` bits, starting from
    /// `initial_mask` (all zeros when absent).
    pub fn new(f: usize, initial_mask: Option<&BitVector>, robustness: u8) -> (r: Result<
        Self,
        PocketError,
    >)
        requires
            match initial_mask {
                Some(m) => m@.len() == f,
                None => true,
            },
        ensures
            (f == 0 || f > 65535) ==> r == Err::<Decompressor, PocketError>(
                PocketError::InvalidPacketSize(f),
            ),
            (1 <= f <= 65535 && robustness > 7) ==> r == Err::<Decompressor, PocketError>(
                PocketError::InvalidRobustness(robustness as usize),
            ),
            (1 <= f <= 65535 && robustness <= 7) ==> (match r {
                Ok(d) => d@ == dec_init(
                    f as nat,
                    match initial_mask {
                        Some(m) => m@,
                        None => zeros(f as nat),
                    },
                    robustness as nat,
                ) && dec_wf(d@),
                Err(_) => false,
            }),
    {
        if f == 0 || f > 65535 {
            return Err(PocketError::InvalidPacketSize(f));
        }
        if robustness > 7 {
            return Err(PocketError::InvalidRobustness(robustness as usize));
        }
        let mask = match initial_mask {
            Some(m) => m.clone(),
            None => BitVector::new(f),
        };
        let initial = mask.clone();
        let mut decomp = Decompressor {
            f,
            robustness,
            mask,
            initial_mask: initial,
            prev_output: BitVector::new(f),
            t: 0,
        };
        decomp.reset();
        Ok(decomp)
    }

    /// Put the decompressor back in its starting state.
    pub fn reset(&mut self)
        requires
            dec_wf(old(self)@),
        ensures
            final(self)@ == dec_init(old(self)@.f, old(self)@.init_mask, old(self)@.r),
            dec_wf(final(self)@),
    {
        self.t = 0;
        self.mask.copy_from(&self.initial_mask);
        self.prev_output.zero();
    }

    /// Apply the mask-update fields: the window's negative, positive or
    /// toggled updates, and the look-ahead hint when present.
    #[verifier::loop_isolation(false)]
    #[verifier::rlimit(100)]
    fn apply_h(
        &mut self,
        reader: &mut BitReader,
        xt: &BitVector,
        vt: u32,
        xt_pos: &mut BitVector,
        Ghost(d0): Ghost<DecModel>,
    ) -> (r: Result<u8, PocketError>)
        requires
            dec_wf(d0),
            old(self)@ == d0,
            xt@.len() == d0.f,
            old(xt_pos)@ == zeros(d0.f),
            vt < 16,
        ensures
            final(reader).bits() == old(reader).bits(),
            dec_wf(final(self)@),
            final(self)@ == (DecModel { mask: final(self)@.mask, ..d0 }),
            final(xt_pos)@.len() == d0.f,
            match r {
                Ok(ct) => ct <= 1 && dec_h(d0, old(reader).bits(), old(reader).pos(), xt@, vt as nat)
                    == dec_q(
                    d0,
                    old(reader).bits(),
                    final(reader).pos(),
                    final(self)@.mask,
                    final(xt_pos)@,
                    vt as nat,
                    ct == 1,
                ),
                Err(e) => dec_h(d0, old(reader).bits(), old(reader).pos(), xt@, vt as nat)
                    == StepRes::Fail(ErrKind::EndOfInput) && e == PocketError::Underflow,
            },
    {
        proof {
            reveal(crate::decompress::dec_h);
        }
        let ghost bits = reader.bits();
        let ghost a2 = reader.pos();
        let ghost x = xt@;
        let ghost fn_ = d0.f;
        let f = self.f;
        let mut ct: u8 = 0;
        let change_count = xt.hamming_weight();
        if vt > 0 && change_count > 0 {
            let et = match reader.read_bit() {
                Ok(b) => b,
                Err(e) => {
                    return Err(e);
                },
            };
            if et == 1 {
                let mut i: usize = 0;
                proof {
                    assert(x.take(0) =~= Seq::<bool>::empty());
                }
                while i < f
                    invariant
                        i <= f,
                        reader.bits() == bits,
                        reader.pos() == a2 + 1 + pcount(x.take(i as int)),
                        self@ == (DecModel { mask: self@.mask, ..d0 }),
                        self@.mask.len() == fn_,
                        xt_pos@.len() == fn_,
                        reader.pos() <= bits.len() || pcount(x.take(i as int)) == pcount(x),
                        forall|j: int|
                            #![trigger self@.mask[j]]
                            0 <= j < i ==> self@.mask[j] == (if x[j] {
                                !bits[a2 as int + 1 + rank_from_bot(x, j)]
                            } else {
                                d0.mask[j]
                            }),
                        forall|j: int|
                            #![trigger self@.mask[j]]
                            i <= j < fn_ ==> self@.mask[j] == d0.mask[j],
                        forall|j: int|
                            #![trigger xt_pos@[j]]
                            0 <= j < i ==> xt_pos@[j] == (x[j] && bits[a2 as int + 1
                                + rank_from_bot(x, j)]),
                        forall|j: int| #![trigger xt_pos@[j]] i <= j < fn_ ==> !xt_pos@[j],
                    decreases f - i,
                {
                    proof {
                        crate::bits::lemma_pcount_take_step(x, i as int);
                        crate::bits::lemma_pcount_take_mono(x, i + 1, x.len() as int);
                        crate::bits::lemma_pcount_take_all(x);
                    }
                    if xt.get_bit(i) != 0 {
                        let kt_bit = match reader.read_bit() {
                            Ok(b) => b,
                            Err(e) => {
                                proof {
                                    assert(a2 + 2 + pcount(x) > bits.len());
                                }
                                return Err(e);
                            },
                        };
                        if kt_bit == 1 {
                            self.mask.set_bit(i, 0);
                            xt_pos.set_bit(i, 1);
                        } else {
                            self.mask.set_bit(i, 1);
                        }
                    }
                    i = i + 1;
                }
                proof {
                    crate::bits::lemma_pcount_take_all(x);
                    assert(x.take(fn_ as int) =~= x);
                }
                ct = match reader.read_bit() {
                    Ok(b) => b,
                    Err(e) => {
                        proof {
                            assert(a2 + 2 + pcount(x) > bits.len());
                        }
                        return Err(e);
                    },
                };
                proof {
                    let ks = bits.subrange((a2 + 1) as int, (a2 + 1 + pcount(x)) as int);
                    assert forall|j: int| 0 <= j < fn_ implies self@.mask[j] == dec_kmask(
                        d0.mask,
                        x,
                        ks,
                    )[j] by {
                        if x[j] {
                            crate::bits::lemma_pcount_take_mono(x, j + 1, x.len() as int);
                            crate::bits::lemma_pcount_take_step(x, j);
                            crate::bits::lemma_pcount_take_all(x);
                            assert(ks[rank_from_bot(x, j) as int] == bits[a2 as int + 1
                                + rank_from_bot(x, j)]);
                        }
                    }
                    assert forall|j: int| 0 <= j < fn_ implies xt_pos@[j] == dec_kpos(
                        x,
                        ks,
                    )[j] by {
                        if x[j] {
                            crate::bits::lemma_pcount_take_mono(x, j + 1, x.len() as int);
                            crate::bits::lemma_pcount_take_step(x, j);
                            crate::bits::lemma_pcount_take_all(x);
                            assert(ks[rank_from_bot(x, j) as int] == bits[a2 as int + 1
                                + rank_from_bot(x, j)]);
                        }
                    }
                    assert(self@.mask =~= dec_kmask(d0.mask, x, ks));
                    assert(xt_pos@ =~= dec_kpos(x, ks));
                }
            } else {
                let mut i: usize = 0;
                while i < f
                    invariant
                        i <= f,
                        self@ == (DecModel { mask: self@.mask, ..d0 }),
                        self@.mask.len() == fn_,
                        forall|j: int|
                            #![trigger self@.mask[j]]
                            0 <= j < i ==> self@.mask[j] == (d0.mask[j] || x[j]),
                        forall|j: int|
                            #![trigger self@.mask[j]]
                            i <= j < fn_ ==> self@.mask[j] == d0.mask[j],
                    decreases f - i,
                {
                    if xt.get_bit(i) != 0 {
                        self.mask.set_bit(i, 1);
                    }
                    i = i + 1;
                }
                proof {
                    assert(self@.mask =~= seq_or(d0.mask, x));
                }
            }
        } else if vt == 0 && change_count > 0 {
            let mut i: usize = 0;
            while i < f
                invariant
                    i <= f,
                    self@ == (DecModel { mask: self@.mask, ..d0 }),
                    self@.mask.len() == fn_,
                    forall|j: int|
                        #![trigger self@.mask[j]]
                        0 <= j < i ==> self@.mask[j] == (d0.mask[j] != x[j]),
                    forall|j: int|
                        #![trigger self@.mask[j]]
                        i <= j < fn_ ==> self@.mask[j] == d0.mask[j],
                decreases f - i,
            {
                if xt.get_bit(i) != 0 {
                    let current_val = self.mask.get_bit(i);
                    let toggled: u8 = if current_val == 0 {
                        1
                    } else {
                        0
                    };
                    self.mask.set_bit(i, toggled);
                }
                i = i + 1;
            }
            proof {
                assert(self@.mask =~= seq_xor(d0.mask, x));
            }
        }
        proof {
            if !(vt > 0 && pcount(x) > 0) {
                assert(xt_pos@ =~= zeros(fn_));
            }
        }
        Ok(ct)
    }

    /// Read the joint flag, the optional full mask, and the verbatim flag.
    #[verifier::loop_isolation(false)]
    #[verifier::rlimit(100)]
    fn apply_q(&mut self, reader: &mut BitReader, Ghost(d0): Ghost<DecModel>, Ghost(
        xp,
    ): Ghost<Seq<bool>>, Ghost(vtn): Ghost<nat>, Ghost(ctb): Ghost<bool>) -> (r: Result<
        u8,
        PocketError,
    >)
        requires
            dec_wf(d0),
            old(self)@ == (DecModel { mask: old(self)@.mask, ..d0 }),
            old(self)@.mask.len() == d0.f,
        ensures
            final(reader).bits() == old(reader).bits(),
            dec_wf(final(self)@),
            final(self)@ == (DecModel { mask: final(self)@.mask, ..d0 }),
            match r {
                Ok(rt) => rt <= 1 && dec_q(
                    d0,
                    old(reader).bits(),
                    old(reader).pos(),
                    old(self)@.mask,
                    xp,
                    vtn,
                    ctb,
                ) == dec_u(
                    d0,
                    old(reader).bits(),
                    final(reader).pos(),
                    final(self)@.mask,
                    xp,
                    vtn,
                    ctb,
                    rt == 1,
                ),
                Err(e) => {
                    let step = dec_q(
                        d0,
                        old(reader).bits(),
                        old(reader).pos(),
                        old(self)@.mask,
                        xp,
                        vtn,
                        ctb,
                    );
                    &&& (step matches StepRes::Fail(ErrKind::EndOfInput) ==> e
                        == PocketError::Underflow)
                    &&& (step matches StepRes::Fail(ErrKind::BadWidth) ==> e
                        == PocketError::InvalidLength)
                    &&& (step matches StepRes::Fail(ErrKind::BadPosition) ==> (e matches
                    PocketError::InvalidFormat(m) && m@ == "impossible RLE position"@))
                    &&& (step matches StepRes::Fail(_))
                },
            },
    {
        proof {
            reveal(crate::decompress::dec_q);
        }
        let ghost bits = reader.bits();
        let ghost fn_ = d0.f;
        let f = self.f;
        let dt = match reader.read_bit() {
            Ok(b) => b,
            Err(e) => {
                return Err(e);
            },
        };
        let mut rt: u8 = 0;
        if dt == 0 {
            let ft = match reader.read_bit() {
                Ok(b) => b,
                Err(e) => {
                    return Err(e);
                },
            };
            if ft == 1 {
                let mask_diff = match rle_decode(reader, f) {
                    Ok(v) => v,
                    Err(e) => {
                        return Err(e);
                    },
                };
                let ghost h = mask_diff@;
                proof {
                    crate::wire::lemma_parse_rle_len(bits, old(reader).pos() + 2, fn_);
                    assert(h.len() == fn_);
                }
                let mut current = mask_diff.get_bit(f - 1);
                self.mask.set_bit(f - 1, current);
                proof {
                    assert(crate::wire::tail_parity(h, fn_ as int) == false);
                }
                let mut i: usize = f - 1;
                while i > 0
                    invariant
                        i <= f - 1,
                        h.len() == fn_,
                        self@ == (DecModel { mask: self@.mask, ..d0 }),
                        self@.mask.len() == fn_,
                        current == (if crate::wire::tail_parity(h, i as int) {
                            1u8
                        } else {
                            0u8
                        }),
                        forall|j: int|
                            #![trigger self@.mask[j]]
                            i <= j < fn_ ==> self@.mask[j] == crate::wire::tail_parity(h, j),
                    decreases i,
                {
                    i = i - 1;
                    let hxor_bit = mask_diff.get_bit(i);
                    current = current ^ hxor_bit;
                    proof {
                        assert((1u8 ^ 1u8) == 0u8 && (1u8 ^ 0u8) == 1u8 && (0u8 ^ 1u8) == 1u8 && (
                        0u8 ^ 0u8) == 0u8) by (bit_vector);
                    }
                    self.mask.set_bit(i, current);
                }
                proof {
                    assert(self@.mask =~= unhxor(h));
                }
            }
            rt = match reader.read_bit() {
                Ok(b) => b,
                Err(e) => {
                    return Err(e);
                },
            };
        }
        Ok(rt)
    }

    /// Read the data payload into `output`.
    #[verifier::loop_isolation(false)]
    #[verifier::rlimit(100)]
    fn read_payload(
        &self,
        reader: &mut BitReader,
        output: &mut BitVector,
        xt_pos: &BitVector,
        vt: u32,
        ct: u8,
        rt: u8,
        Ghost(d0): Ghost<DecModel>,
    ) -> (r: Result<(), PocketError>)
        requires
            dec_wf(d0),
            self@ == (DecModel { mask: self@.mask, ..d0 }),
            self@.mask.len() == d0.f,
            old(output)@ == d0.prev_out,
            xt_pos@.len() == d0.f,
        ensures
            final(reader).bits() == old(reader).bits(),
            final(output)@.len() == d0.f,
            match dec_u(
                d0,
                old(reader).bits(),
                old(reader).pos(),
                self@.mask,
                xt_pos@,
                vt as nat,
                ct == 1,
                rt == 1,
            ) {
                StepRes::Fail(ErrKind::EndOfInput) => r matches Err(e) && e
                    == PocketError::Underflow,
                StepRes::Fail(ErrKind::BadWidth) => r matches Err(e) && e
                    == PocketError::InvalidLength,
                StepRes::Fail(ErrKind::BadPosition) => false,
                StepRes::Good { out, end, next } => r == Ok::<(), PocketError>(())
                    && final(output)@ == out && final(reader).pos() == end,
            },
    {
        let ghost bits = reader.bits();
        let ghost at_u = reader.pos();
        let ghost m_q = self@.mask;
        let ghost xp = xt_pos@;
        let ghost fn_ = d0.f;
        let f = self.f;
        if rt == 1 {
            match count_decode(reader) {
                Ok(_) => {},
                Err(e) => {
                    return Err(e);
                },
            }
            let ghost a4 = reader.pos();
            proof {
                crate::wire::lemma_parse_count_bounds(bits, at_u);
            }
            let mut i: usize = 0;
            while i < f
                invariant
                    i <= f,
                    reader.bits() == bits,
                    reader.pos() == a4 + i,
                    reader.pos() <= bits.len(),
                    output@.len() == fn_,
                    forall|j: int|
                        #![trigger output@[j]]
                        0 <= j < i ==> output@[j] == bits[a4 + j],
                decreases f - i,
            {
                let bit = match reader.read_bit() {
                    Ok(b) => b,
                    Err(e) => {
                        return Err(e);
                    },
                };
                output.set_bit(i, bit);
                i = i + 1;
            }
            proof {
                assert(output@ =~= bits.subrange(a4 as int, (a4 + fn_) as int));
            }
            Ok(())
        } else {
            let ghost em = if ct == 1 && vt > 0 {
                seq_or(m_q, xp)
            } else {
                m_q
            };
            if ct == 1 && vt > 0 {
                let mut extraction_mask = self.mask.clone();
                extraction_mask.or_assign(xt_pos);
                match bit_insert(reader, output, &extraction_mask) {
                    Ok(_) => {},
                    Err(e) => {
                        return Err(e);
                    },
                }
            } else {
                match bit_insert(reader, output, &self.mask) {
                    Ok(_) => {},
                    Err(e) => {
                        return Err(e);
                    },
                }
            }
            proof {
                if pcount(em) == 0 {
                    crate::bits::lemma_pcount_zero(em);
                    assert(output@ =~= crate::wire::insert_bits(
                        d0.prev_out,
                        em,
                        bits.subrange(at_u as int, (at_u + pcount(em)) as int),
                    ));
                }
            }
            Ok(())
        }
    }

    /// Decompress one packet, behaving exactly like `dec_step`.
    #[verifier::loop_isolation(false)]
    #[verifier::rlimit(100)]
    pub fn decompress_packet(&mut self, reader: &mut BitReader) -> (r: Result<
        BitVector,
        PocketError,
    >)
        requires
            dec_wf(old(self)@),
            old(self)@.t < usize::MAX,
        ensures
            dec_wf(final(self)@),
            final(reader).bits() == old(reader).bits(),
            match dec_step(old(self)@, old(reader).bits(), old(reader).pos()) {
                StepRes::Fail(ErrKind::EndOfInput) => r == Err::<BitVector, PocketError>(
                    PocketError::Underflow,
                ),
                StepRes::Fail(ErrKind::BadWidth) => r == Err::<BitVector, PocketError>(
                    PocketError::InvalidLength,
                ),
                StepRes::Fail(ErrKind::BadPosition) => (match r {
                    Err(PocketError::InvalidFormat(m)) => m@ == "impossible RLE position"@,
                    _ => false,
                }),
                StepRes::Good { out, end, next } => (match r {
                    Ok(bv) => bv@ == out && final(reader).pos() == end && final(self)@ == next,
                    Err(_) => false,
                }),
            },
    {
        let ghost d0 = self@;
        let ghost bits = reader.bits();
        let ghost at0 = reader.pos();
        proof {
            reveal(crate::decompress::dec_step);
        }
        let f = self.f;
        let ghost fn_ = d0.f;
        let mut output = BitVector::new(f);
        output.copy_from(&self.prev_output);
        let mut xt_pos = BitVector::new(f);
        proof {
            assert(xt_pos@ =~= zeros(fn_));
        }

        // the window and the effective robustness
        let xt = match rle_decode(reader, f) {
            Ok(v) => v,
            Err(e) => {
                return Err(e);
            },
        };
        let ghost x = xt@;
        proof {
            crate::wire::lemma_parse_rle_len(bits, at0, fn_);
        }
        let vt = match reader.read_bits(4) {
            Ok(v) => v,
            Err(e) => {
                return Err(e);
            },
        };
        proof {
            crate::bits::lemma_seq_val_bound(
                bits.subrange(reader.pos() - 4, reader.pos() as int),
            );
            vstd::arithmetic::power2::lemma2_to64();
        }

        // mask updates
        let ghost a2 = reader.pos();
        proof {
            reveal(crate::decompress::dec_step);
            assert(dec_step(d0, bits, at0) == dec_h(d0, bits, a2, x, vt as nat));
        }
        let ct = match self.apply_h(reader, &xt, vt, &mut xt_pos, Ghost(d0)) {
            Ok(c) => c,
            Err(e) => {
                return Err(e);
            },
        };

        // the joint flag, optional full mask, verbatim flag
        let ghost xp = xt_pos@;
        let rt = match self.apply_q(
            reader,
            Ghost(d0),
            Ghost(xp),
            Ghost(vt as nat),
            Ghost(ct == 1),
        ) {
            Ok(v) => v,
            Err(e) => {
                return Err(e);
            },
        };

        // the data payload
        let ghost m_q = self@.mask;
        let ghost at_u = reader.pos();
        let ghost target_u = dec_u(d0, bits, at_u, m_q, xp, vt as nat, ct == 1, rt == 1);
        proof {
            assert(dec_step(d0, bits, at0) == target_u);
        }
        match self.read_payload(reader, &mut output, &xt_pos, vt, ct, rt, Ghost(d0)) {
            Ok(_) => {},
            Err(e) => {
                return Err(e);
            },
        }

        // step the state
        self.prev_output.copy_from(&output);
        self.t = self.t + 1;
        Ok(output)
    }
}

/// Peeling one well-parsed packet off the stream steps the continuation.
#[verifier::rlimit(100)]
proof fn lemma_decomp_peel(d: DecModel, bits: Seq<bool>, at: nat, done: Seq<u8>, target: DRes)
    requires
        at < bits.len(),
        dec_step(d, bits, at) matches StepRes::Good { .. },
        target == (match decomp_rec(d, bits, at) {
            DRes::DOk(rest) => DRes::DOk(done + rest),
            DRes::DFail(k) => DRes::DFail(k),
        }),
    ensures
        (match dec_step(d, bits, at) {
            StepRes::Good { out, end, next } => target == (match decomp_rec(
                next,
                bits,
                align8(end),
            ) {
                DRes::DOk(rest) => DRes::DOk((done + bytes_of_bits(out)) + rest),
                DRes::DFail(k) => DRes::DFail(k),
            }),
            StepRes::Fail(_) => true,
        }),
{
    lemma_dec_step_bounds(d, bits, at);
    match dec_step(d, bits, at) {
        StepRes::Good { out, end, next } => {
            let a2 = align8(end);
            if a2 >= bits.len() {
                assert(decomp_rec(d, bits, at) == DRes::DOk(bytes_of_bits(out)));
                assert(decomp_rec(next, bits, a2) == DRes::DOk(Seq::<u8>::empty()));
                assert(done + bytes_of_bits(out) =~= (done + bytes_of_bits(out)) + Seq::<
                    u8,
                >::empty());
            } else {
                match decomp_rec(next, bits, a2) {
                    DRes::DOk(rest) => {
                        assert(decomp_rec(d, bits, at) == DRes::DOk(bytes_of_bits(out) + rest));
                        assert(done + (bytes_of_bits(out) + rest) =~= (done + bytes_of_bits(out))
                            + rest);
                    },
                    DRes::DFail(k) => {
                        assert(decomp_rec(d, bits, at) == DRes::DFail(k));
                    },
                }
            }
        },
        StepRes::Fail(_) => {},
    }
}

/// Decompress a compressed stream of packets of `packet_size` bits each.
///
/// The result is exactly what `spec_decompress_bytes` yields on the input.
#[verifier::loop_isolation(false)]
#[verifier::rlimit(100)]
pub fn decompress(data: &[u8], packet_size: usize, robustness: usize) -> (r: Result<
    Vec<u8>,
    PocketError,
>)
    requires
        data@.len() * 8 + 8 <= usize::MAX,
    ensures
        (packet_size == 0 || packet_size % 8 != 0) ==> r == Err::<Vec<u8>, PocketError>(
            PocketError::InvalidPacketSize(packet_size),
        ),
        (packet_size >= 1 && packet_size % 8 == 0 && robustness > 7) ==> r == Err::<
            Vec<u8>,
            PocketError,
        >(PocketError::InvalidRobustness(robustness)),
        (packet_size >= 1 && packet_size % 8 == 0 && robustness <= 7 && data@.len() == 0) ==> r
            == Err::<Vec<u8>, PocketError>(PocketError::UnexpectedEndOfInput),
        (packet_size >= 1 && packet_size % 8 == 0 && robustness <= 7 && data@.len() > 0
            && packet_size > 65535) ==> r == Err::<Vec<u8>, PocketError>(
            PocketError::InvalidPacketSize(packet_size),
        ),
        (packet_size >= 1 && packet_size % 8 == 0 && robustness <= 7 && data@.len() > 0
            && packet_size <= 65535) ==> (match spec_decompress_bytes(
            data@,
            packet_size as nat,
            robustness as nat,
        ) {
            DRes::DOk(bytes) => (match r {
                Ok(v) => v@ == bytes,
                Err(_) => false,
            }),
            DRes::DFail(ErrKind::EndOfInput) => r == Err::<Vec<u8>, PocketError>(
                PocketError::Underflow,
            ),
            DRes::DFail(ErrKind::BadWidth) => r == Err::<Vec<u8>, PocketError>(
                PocketError::InvalidLength,
            ),
            DRes::DFail(ErrKind::BadPosition) => (match r {
                Err(PocketError::InvalidFormat(m)) => m@ == "impossible RLE position"@,
                _ => false,
            }),
        }),
{
    if packet_size == 0 || packet_size % 8 != 0 {
        return Err(PocketError::InvalidPacketSize(packet_size));
    }
    if robustness > 7 {
        return Err(PocketError::InvalidRobustness(robustness));
    }
    if data.len() == 0 {
        return Err(PocketError::UnexpectedEndOfInput);
    }
    let mut decomp = match Decompressor::new(packet_size, None, robustness as u8) {
        Ok(d) => d,
        Err(e) => {
            return Err(e);
        },
    };
    let num_bits = data.len() * 8;
    let mut reader = BitReader::new(data, num_bits);
    let ghost bits = reader.bits();
    let ghost target = spec_decompress_bytes(data@, packet_size as nat, robustness as nat);
    proof {
        assert(bits =~= bits_of_bytes(data@));
        assert(bits.len() == num_bits);
    }
    let mut output: Vec<u8> = Vec::new();
    while reader.remaining() > 0
        invariant
            reader.bits() == bits,
            dec_wf(decomp@),
            decomp@.f == packet_size,
            decomp@.t <= reader.pos(),
            target == (match decomp_rec(decomp@, bits, reader.pos()) {
                DRes::DOk(rest) => DRes::DOk(output@ + rest),
                DRes::DFail(k) => DRes::DFail(k),
            }),
        decreases (if reader.pos() <= bits.len() {
            bits.len() - reader.pos()
        } else {
            0int
        }),
    {
        let ghost at = reader.pos();
        let ghost d_pre = decomp@;
        let ghost out_pre = output@;
        let packet = match decomp.decompress_packet(&mut reader) {
            Ok(p) => p,
            Err(e) => {
                return Err(e);
            },
        };
        let mut packet_bytes = packet.to_bytes();
        output.append(&mut packet_bytes);
        reader.align_byte();
        proof {
            lemma_dec_step_bounds(d_pre, bits, at);
            lemma_dec_step_shape(d_pre, bits, at);
            lemma_decomp_peel(d_pre, bits, at, out_pre, target);
            match dec_step(d_pre, bits, at) {
                StepRes::Good { out, end, next } => {
                    assert(reader.pos() == align8(end));
                    assert(output@ == out_pre + bytes_of_bits(out));
                },
                StepRes::Fail(k) => {
                    assert(false);
                },
            }
        }
    }
    proof {
        assert(decomp_rec(decomp@, bits, reader.pos()) == DRes::DOk(Seq::<u8>::empty()));
        assert(output@ + Seq::<u8>::empty() =~= output@);
    }
    Ok(output)
}


/// A parsed payload stays inside the input.
proof fn lemma_dec_u_bounds(
    d: DecModel,
    bits: Seq<bool>,
    at: nat,
    m: Seq<bool>,
    xp: Seq<bool>,
    vt: nat,
    ct: bool,
    rt: bool,
)
    requires
        at <= bits.len(),
    ensures
        dec_u(d, bits, at, m, xp, vt, ct, rt) matches StepRes::Good { out, end, next } ==> at
            <= end <= bits.len(),
{
    crate::wire::lemma_parse_count_bounds(bits, at);
}

/// A parsed refresh section consumes at least one bit and stays inside the
/// input.
proof fn lemma_dec_q_bounds(
    d: DecModel,
    bits: Seq<bool>,
    at: nat,
    m: Seq<bool>,
    xp: Seq<bool>,
    vt: nat,
    ct: bool,
)
    ensures
        dec_q(d, bits, at, m, xp, vt, ct) matches StepRes::Good { out, end, next } ==> at < end
            <= bits.len(),
{
    reveal(crate::decompress::dec_q);
    if at < bits.len() {
        if bits[at as int] {
            lemma_dec_u_bounds(d, bits, at + 1, m, xp, vt, ct, false);
        } else if at + 1 < bits.len() {
            if bits[(at + 1) as int] {
                lemma_parse_rle_bounds(bits, at + 2, d.f);
                match parse_rle(bits, at + 2, d.f) {
                    RleStep::Val { v: h, end: a3 } => {
                        if a3 < bits.len() {
                            lemma_dec_u_bounds(
                                d,
                                bits,
                                a3 + 1,
                                unhxor(h),
                                xp,
                                vt,
                                ct,
                                bits[a3 as int],
                            );
                        }
                    },
                    _ => {},
                }
            } else if at + 2 < bits.len() {
                lemma_dec_u_bounds(d, bits, at + 3, m, xp, vt, ct, bits[(at + 2) as int]);
            }
        }
    }
}

/// A parsed packet keeps the decoder's framing fields and steps its clock.
#[verifier::rlimit(100)]
pub proof fn lemma_dec_step_shape(d: DecModel, bits: Seq<bool>, at: nat)
    ensures
        dec_step(d, bits, at) matches StepRes::Good { out, end, next } ==> (next.f == d.f
            && next.r == d.r && next.init_mask == d.init_mask && next.t == d.t + 1
            && next.prev_out == out),
{
    reveal(crate::decompress::dec_step);
    reveal(crate::decompress::dec_h);
    reveal(crate::decompress::dec_q);
}

/// A parsed packet consumes at least one bit and stays inside the input.
pub proof fn lemma_dec_step_bounds(d: DecModel, bits: Seq<bool>, at: nat)
    ensures
        dec_step(d, bits, at) matches StepRes::Good { out, end, next } ==> at < end <= bits.len(),
{
    reveal(crate::decompress::dec_step);
    reveal(crate::decompress::dec_h);
    lemma_parse_rle_bounds(bits, at, d.f);
    match parse_rle(bits, at, d.f) {
        RleStep::Val { v: x, end: a1 } => {
            if a1 + 4 <= bits.len() {
                let vt = crate::bits::seq_val(bits.subrange(a1 as int, (a1 + 4) as int));
                let a2 = a1 + 4;
                if vt > 0 && pcount(x) > 0 {
                    if a2 < bits.len() {
                        if bits[a2 as int] {
                            if a2 + 2 + pcount(x) <= bits.len() {
                                let ks = bits.subrange(
                                    (a2 + 1) as int,
                                    (a2 + 1 + pcount(x)) as int,
                                );
                                lemma_dec_q_bounds(
                                    d,
                                    bits,
                                    a2 + 2 + pcount(x),
                                    dec_kmask(d.mask, x, ks),
                                    dec_kpos(x, ks),
                                    vt,
                                    bits[(a2 + 1 + pcount(x)) as int],
                                );
                            }
                        } else {
                            lemma_dec_q_bounds(
                                d,
                                bits,
                                a2 + 1,
                                seq_or(d.mask, x),
                                zeros(d.f),
                                vt,
                                false,
                            );
                        }
                    }
                } else if vt == 0 && pcount(x) > 0 {
                    lemma_dec_q_bounds(d, bits, a2, seq_xor(d.mask, x), zeros(d.f), vt, false);
                } else {
                    lemma_dec_q_bounds(d, bits, a2, d.mask, zeros(d.f), vt, false);
                }
            }
        },
        _ => {},
    }
}

/// A parsed run-length encoding consumes at least one bit and stays inside
/// A parsed run-length encoding consumes at least one bit and stays inside
/// the input.
pub proof fn lemma_parse_rle_bounds(bits: Seq<bool>, at: nat, f: nat)
    ensures
        parse_rle(bits, at, f) matches RleStep::Val { v, end } ==> at < end <= bits.len(),
{
    lemma_parse_rle_rec_bounds(bits, at, f, zeros(f));
}

proof fn lemma_parse_rle_rec_bounds(bits: Seq<bool>, at: nat, pos: nat, acc: Seq<bool>)
    ensures
        crate::wire::parse_rle_rec(bits, at, pos, acc) matches RleStep::Val { v, end } ==> at < end
            <= bits.len(),
    decreases bits.len() - at,
{
    crate::wire::lemma_parse_count_bounds(bits, at);
    match parse_count(bits, at) {
        CountStep::Val { a, end } => {
            if a != 0 && at < end <= bits.len() {
                if a <= pos {
                    lemma_parse_rle_rec_bounds(bits, end, (pos - a) as nat, acc.update(
                        pos - a,
                        true,
                    ));
                } else {
                    lemma_parse_rle_rec_bounds(bits, end, pos, acc);
                }
            }
        },
        _ => {},
    }
}

} // verus!
