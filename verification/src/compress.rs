//! The per-packet encoder: adaptive mask state machine and output framing.
//!
//! `EncModel` is the mathematical state of a compressor; `frame_bits`
//! defines, bit for bit, the frame a packet produces, and `enc_next` the
//! state after it.  `Compressor::compress_packet` is proved to emit exactly
//! `frame_bits` and step to exactly `enc_next`.

use vstd::prelude::*;

verus! {

use crate::bitbuffer::BitBuffer;
use crate::bits::{
    bits_from_bytes, bytes_of_bits, pcount, seq_and, seq_not, seq_or, seq_xor, val_bits, zeros,
};
use crate::bitvector::BitVector;
use crate::encode::{bit_extract, bit_extract_forward, count_encode, rle_encode};
use crate::error::PocketError;
use crate::mask::{compute_change, update_build, update_mask};
use crate::wire::{
    be_bits, befwd_bits, count_bits, hxor, lemma_be_emits_popcount, lemma_befwd_len,
    lemma_count_len_cap, lemma_hxor_shl, lemma_rle_len, rle_bits,
};

/// The smaller of two naturals.
pub open spec fn nat_min(a: nat, b: nat) -> nat {
    if a <= b {
        a
    } else {
        b
    }
}

/// Control flags for one packet.
#[derive(Clone, Debug)]
pub struct CompressionParams {
    /// Start a fresh mask from the build vector this step.
    pub new_mask_flag: bool,
    /// Transmit the full mask this step.
    pub send_mask_flag: bool,
    /// Transmit the packet verbatim this step.
    pub uncompressed_flag: bool,
}

impl Default for CompressionParams {
    /// All flags off.
    fn default() -> (r: Self)
        ensures
            !r.new_mask_flag,
            !r.send_mask_flag,
            !r.uncompressed_flag,
    {
        CompressionParams { new_mask_flag: false, send_mask_flag: false, uncompressed_flag: false }
    }
}

/// The mathematical state of a compressor.
pub struct EncModel {
    /// Packet length in bits.
    pub f: nat,
    /// Robustness level.
    pub r: nat,
    /// Current mask.
    pub mask: Seq<bool>,
    /// Mask of the previous step.
    pub prev_mask: Seq<bool>,
    /// Build vector.
    pub build: Seq<bool>,
    /// Previous input packet.
    pub prev_input: Seq<bool>,
    /// Mask the stream started with.
    pub init_mask: Seq<bool>,
    /// Ring of the last 16 change vectors.
    pub changes: Seq<Seq<bool>>,
    /// Ring slot that the next change vector goes to.
    pub hist_i: nat,
    /// Ring of the last 16 new-mask flags.
    pub flags: Seq<bool>,
    /// Ring slot that the next new-mask flag goes to.
    pub flag_i: nat,
    /// Step counter.
    pub t: nat,
    /// New-mask period.
    pub pt_limit: nat,
    /// Send-mask period.
    pub ft_limit: nat,
    /// Uncompressed period.
    pub rt_limit: nat,
    /// New-mask countdown.
    pub pt_ctr: nat,
    /// Send-mask countdown.
    pub ft_ctr: nat,
    /// Uncompressed countdown.
    pub rt_ctr: nat,
}

/// Well-formedness of an encoder state.
pub open spec fn enc_wf(s: EncModel) -> bool {
    &&& 1 <= s.f <= 65535
    &&& s.r <= 7
    &&& s.mask.len() == s.f
    &&& s.prev_mask.len() == s.f
    &&& s.build.len() == s.f
    &&& s.prev_input.len() == s.f
    &&& s.init_mask.len() == s.f
    &&& s.changes.len() == 16
    &&& (forall|i: int| 0 <= i < 16 ==> (#[trigger] s.changes[i]).len() == s.f)
    &&& s.hist_i < 16
    &&& s.flags.len() == 16
    &&& s.flag_i < 16
}

/// The ring entry `back` slots behind `hi`.
pub open spec fn ring_at(changes: Seq<Seq<bool>>, hi: nat, back: nat) -> Seq<bool>
    recommends
        changes.len() == 16,
        hi < 16,
        back <= 16,
{
    changes[(((hi + 16) - back) % 16) as int]
}

/// The union of the change in slot `hi` and the `k` changes before it.
pub open spec fn win_or(changes: Seq<Seq<bool>>, hi: nat, k: nat) -> Seq<bool>
    decreases k,
{
    if k == 0 {
        changes[hi as int]
    } else {
        seq_or(win_or(changes, hi, (k - 1) as nat), ring_at(changes, hi, k))
    }
}

/// How many all-zero changes sit at distances `i..=stop` behind `hi`,
/// stopping at the first nonzero one.
pub open spec fn quiet_run(changes: Seq<Seq<bool>>, hi: nat, i: nat, stop: nat) -> nat
    decreases stop + 1 - i,
{
    if i > stop {
        0
    } else if pcount(ring_at(changes, hi, i)) > 0 {
        0
    } else {
        1 + quiet_run(changes, hi, i + 1, stop)
    }
}

/// The effective robustness: the level extended by the quiet-change run.
pub open spec fn eff_rob(changes: Seq<Seq<bool>>, hi: nat, r: nat, t: nat) -> nat {
    if t > r {
        r + quiet_run(changes, hi, r + 1, nat_min(15, t))
    } else {
        r
    }
}

/// Count of set flags among the `k` most recent ring entries before `fi`.
pub open spec fn nflags(flags: Seq<bool>, fi: nat, k: nat) -> nat
    decreases k,
{
    if k == 0 {
        0
    } else {
        nflags(flags, fi, (k - 1) as nat) + (if flags[(((fi + 16) - k) % 16) as int] {
            1nat
        } else {
            0nat
        })
    }
}

/// The look-ahead hint: at least two new-mask steps among the current one
/// and the last `vt` steps.
pub open spec fn ct_of(flags: Seq<bool>, fi: nat, vt: nat, t: nat, nm: bool) -> bool {
    if vt == 0 {
        false
    } else {
        (if nm {
            1nat
        } else {
            0nat
        }) + nflags(flags, fi, nat_min(vt, t)) >= 2
    }
}

/// The mask after this step.
pub open spec fn mask_after(s: EncModel, input: Seq<bool>, nm: bool) -> Seq<bool> {
    if s.t == 0 {
        s.mask
    } else {
        seq_or(
            seq_xor(input, s.prev_input),
            if nm {
                s.build
            } else {
                s.mask
            },
        )
    }
}

/// The build vector after this step.
pub open spec fn build_after(s: EncModel, input: Seq<bool>, nm: bool) -> Seq<bool> {
    if s.t == 0 {
        s.build
    } else if nm {
        zeros(s.f)
    } else {
        seq_or(seq_xor(input, s.prev_input), s.build)
    }
}

/// The change vector of this step, given the new mask `m`.
pub open spec fn change_after(s: EncModel, m: Seq<bool>) -> Seq<bool> {
    if s.t == 0 {
        m
    } else {
        seq_xor(m, s.mask)
    }
}

/// The mask this step works with.
pub open spec fn enc_m(s: EncModel, input: Seq<bool>, p: CompressionParams) -> Seq<bool> {
    mask_after(s, input, p.new_mask_flag)
}

/// The change ring with this step's change vector stored.
pub open spec fn enc_ch2(s: EncModel, input: Seq<bool>, p: CompressionParams) -> Seq<Seq<bool>> {
    s.changes.update(s.hist_i as int, change_after(s, enc_m(s, input, p)))
}

/// The robustness window of this step.
pub open spec fn enc_x(s: EncModel, input: Seq<bool>, p: CompressionParams) -> Seq<bool> {
    win_or(enc_ch2(s, input, p), s.hist_i, nat_min(s.r, s.t))
}

/// The effective robustness of this step.
pub open spec fn enc_vt(s: EncModel, input: Seq<bool>, p: CompressionParams) -> nat {
    eff_rob(enc_ch2(s, input, p), s.hist_i, s.r, s.t)
}

/// Whether this step clears any mask position (a positive update).
pub open spec fn enc_et(s: EncModel, input: Seq<bool>, p: CompressionParams) -> bool {
    pcount(seq_and(enc_x(s, input, p), seq_not(enc_m(s, input, p)))) > 0
}

/// The look-ahead hint of this step.
pub open spec fn enc_ct(s: EncModel, input: Seq<bool>, p: CompressionParams) -> bool {
    ct_of(s.flags, s.flag_i, enc_vt(s, input, p), s.t, p.new_mask_flag)
}

/// Whether this step carries neither a mask refresh nor a verbatim packet.
pub open spec fn enc_dt(p: CompressionParams) -> bool {
    !p.send_mask_flag && !p.uncompressed_flag
}

/// The extraction mask of this step's payload.
pub open spec fn enc_em(s: EncModel, input: Seq<bool>, p: CompressionParams) -> Seq<bool> {
    if enc_ct(s, input, p) && enc_vt(s, input, p) > 0 {
        seq_or(enc_m(s, input, p), enc_x(s, input, p))
    } else {
        enc_m(s, input, p)
    }
}

/// The mask-change header of the frame.
pub open spec fn frame_h(s: EncModel, input: Seq<bool>, p: CompressionParams) -> Seq<bool> {
    let m = enc_m(s, input, p);
    let x = enc_x(s, input, p);
    let vt = enc_vt(s, input, p);
    rle_bits(x) + val_bits(vt as u64, 4) + (if vt > 0 && pcount(x) > 0 {
        seq![enc_et(s, input, p)] + (if enc_et(s, input, p) {
            befwd_bits(seq_not(m), x, 0) + seq![enc_ct(s, input, p)]
        } else {
            Seq::<bool>::empty()
        })
    } else {
        Seq::<bool>::empty()
    }) + seq![enc_dt(p)]
}

/// The optional full-mask refresh of the frame.
pub open spec fn frame_q(s: EncModel, input: Seq<bool>, p: CompressionParams) -> Seq<bool> {
    if !enc_dt(p) {
        seq![p.send_mask_flag] + (if p.send_mask_flag {
            rle_bits(hxor(enc_m(s, input, p)))
        } else {
            Seq::<bool>::empty()
        })
    } else {
        Seq::<bool>::empty()
    }
}

/// The data payload of the frame.
pub open spec fn frame_u(s: EncModel, input: Seq<bool>, p: CompressionParams) -> Seq<bool> {
    if p.uncompressed_flag {
        seq![true] + count_bits(s.f) + input
    } else {
        (if !enc_dt(p) {
            seq![false]
        } else {
            Seq::<bool>::empty()
        }) + be_bits(input, enc_em(s, input, p), s.f as int)
    }
}

/// The frame one packet emits.
#[verifier::opaque]
pub open spec fn frame_bits(s: EncModel, input: Seq<bool>, p: CompressionParams) -> Seq<bool> {
    frame_h(s, input, p) + frame_q(s, input, p) + frame_u(s, input, p)
}

/// The window of a well-formed ring keeps the packet width.
pub proof fn lemma_win_or_len(changes: Seq<Seq<bool>>, hi: nat, k: nat, f: nat)
    requires
        changes.len() == 16,
        hi < 16,
        k <= 16,
        forall|i: int| 0 <= i < 16 ==> (#[trigger] changes[i]).len() == f,
    ensures
        win_or(changes, hi, k).len() == f,
    decreases k,
{
    if k > 0 {
        lemma_win_or_len(changes, hi, (k - 1) as nat, f);
    }
}

/// All derived vectors of a step keep the packet width.
pub proof fn lemma_enc_shape(s: EncModel, input: Seq<bool>, p: CompressionParams)
    requires
        enc_wf(s),
        input.len() == s.f,
    ensures
        enc_m(s, input, p).len() == s.f,
        change_after(s, enc_m(s, input, p)).len() == s.f,
        enc_ch2(s, input, p).len() == 16,
        forall|i: int| 0 <= i < 16 ==> (#[trigger] enc_ch2(s, input, p)[i]).len() == s.f,
        enc_x(s, input, p).len() == s.f,
        enc_em(s, input, p).len() == s.f,
{
    assert(forall|i: int| 0 <= i < 16 ==> (#[trigger] enc_ch2(s, input, p)[i]).len() == s.f);
    lemma_win_or_len(enc_ch2(s, input, p), s.hist_i, nat_min(s.r, s.t), s.f);
}

/// The encoder state after one packet.
pub open spec fn enc_next(s: EncModel, input: Seq<bool>, p: CompressionParams) -> EncModel {
    let m = mask_after(s, input, p.new_mask_flag);
    let b = build_after(s, input, p.new_mask_flag);
    let d = change_after(s, m);
    EncModel {
        mask: m,
        prev_mask: m,
        build: b,
        prev_input: input,
        changes: s.changes.update(s.hist_i as int, d),
        hist_i: ((s.hist_i + 1) % 16) as nat,
        flags: s.flags.update(s.flag_i as int, p.new_mask_flag),
        flag_i: ((s.flag_i + 1) % 16) as nat,
        t: (s.t + 1) as nat,
        ..s
    }
}

/// A freshly initialized encoder state.
pub open spec fn enc_init(
    f: nat,
    init: Seq<bool>,
    r: nat,
    pt: nat,
    ft: nat,
    rt: nat,
) -> EncModel {
    EncModel {
        f,
        r,
        mask: init,
        prev_mask: zeros(f),
        build: zeros(f),
        prev_input: zeros(f),
        init_mask: init,
        changes: Seq::new(16, |i: int| zeros(f)),
        hist_i: 0,
        flags: Seq::new(16, |i: int| false),
        flag_i: 0,
        t: 0,
        pt_limit: pt,
        ft_limit: ft,
        rt_limit: rt,
        pt_ctr: pt,
        ft_ctr: ft,
        rt_ctr: rt,
    }
}

/// One periodic counter: fire and reload at 1, else count down.
pub open spec fn sched_flag(ctr: nat, lim: nat) -> (bool, nat) {
    if ctr == 1 {
        (true, lim)
    } else {
        (false, (ctr - 1) as nat)
    }
}

/// The control flags of step `i` and the counters after them.
pub open spec fn sched_step(s: EncModel, i: nat) -> (CompressionParams, EncModel) {
    if !(s.pt_limit >= 1 && s.ft_limit >= 1 && s.rt_limit >= 1) {
        (
            CompressionParams {
                new_mask_flag: false,
                send_mask_flag: false,
                uncompressed_flag: false,
            },
            s,
        )
    } else if i == 0 {
        (
            CompressionParams {
                new_mask_flag: false,
                send_mask_flag: true,
                uncompressed_flag: true,
            },
            s,
        )
    } else {
        let (sm, ftc) = sched_flag(s.ft_ctr, s.ft_limit);
        let (nm, ptc) = sched_flag(s.pt_ctr, s.pt_limit);
        let (un, rtc) = sched_flag(s.rt_ctr, s.rt_limit);
        let p = if i <= s.r {
            CompressionParams {
                new_mask_flag: false,
                send_mask_flag: true,
                uncompressed_flag: true,
            }
        } else {
            CompressionParams { new_mask_flag: nm, send_mask_flag: sm, uncompressed_flag: un }
        };
        (p, EncModel { pt_ctr: ptc, ft_ctr: ftc, rt_ctr: rtc, ..s })
    }
}

/// The compressed bytes of packets `i..n` of `data`, starting from `s`.
pub open spec fn comp_rec(s: EncModel, data: Seq<u8>, i: nat, n: nat) -> Seq<u8>
    decreases n - i,
{
    if i >= n {
        Seq::<u8>::empty()
    } else {
        let pb = s.f / 8;
        let input = bits_from_bytes(data.subrange((i * pb) as int, ((i + 1) * pb) as int), s.f);
        let (p, s1) = sched_step(s, i);
        let out = frame_bits(s1, input, p);
        let s2 = enc_next(s1, input, p);
        bytes_of_bits(out) + comp_rec(s2, data, i + 1, n)
    }
}

/// The compressed form of a whole buffer (for valid parameters and a
/// nonempty buffer holding whole packets).
pub open spec fn spec_compress_bytes(
    data: Seq<u8>,
    f: nat,
    r: nat,
    pt: nat,
    ft: nat,
    rt: nat,
) -> Seq<u8> {
    comp_rec(enc_init(f, zeros(f), r, pt, ft, rt), data, 0, data.len() / (f / 8))
}


/// The compressor: owns the adaptive mask state of one stream.
#[derive(Debug)]
pub struct Compressor {
    f: usize,
    robustness: u8,
    mask: BitVector,
    prev_mask: BitVector,
    build: BitVector,
    prev_input: BitVector,
    initial_mask: BitVector,
    change_history: Vec<BitVector>,
    history_index: usize,
    flag_history: Vec<bool>,
    flag_history_index: usize,
    t: usize,
    pt_limit: usize,
    ft_limit: usize,
    rt_limit: usize,
    pt_counter: usize,
    ft_counter: usize,
    rt_counter: usize,
}

impl View for Compressor {
    type V = EncModel;

    closed spec fn view(&self) -> EncModel {
        EncModel {
            f: self.f as nat,
            r: self.robustness as nat,
            mask: self.mask@,
            prev_mask: self.prev_mask@,
            build: self.build@,
            prev_input: self.prev_input@,
            init_mask: self.initial_mask@,
            changes: Seq::new(self.change_history@.len(), |i: int| self.change_history@[i]@),
            hist_i: self.history_index as nat,
            flags: self.flag_history@,
            flag_i: self.flag_history_index as nat,
            t: self.t as nat,
            pt_limit: self.pt_limit as nat,
            ft_limit: self.ft_limit as nat,
            rt_limit: self.rt_limit as nat,
            pt_ctr: self.pt_counter as nat,
            ft_ctr: self.ft_counter as nat,
            rt_ctr: self.rt_counter as nat,
        }
    }
}

impl Compressor {
    /// Create a compressor for packets of `f` bits, starting from
    /// `initial_mask` (all zeros when absent).
    #[verifier::loop_isolation(false)]
    pub fn new(
        f: usize,
        initial_mask: Option<&BitVector>,
        robustness: u8,
        pt_limit: usize,
        ft_limit: usize,
        rt_limit: usize,
    ) -> (r: Result<Self, PocketError>)
        requires
            match initial_mask {
                Some(m) => m@.len() == f,
                None => true,
            },
        ensures
            (f == 0 || f > 65535) ==> r == Err::<Compressor, PocketError>(
                PocketError::InvalidPacketSize(f),
            ),
            (1 <= f <= 65535 && robustness > 7) ==> r == Err::<Compressor, PocketError>(
                PocketError::InvalidRobustness(robustness as usize),
            ),
            (1 <= f <= 65535 && robustness <= 7) ==> (match r {
                Ok(c) => c@ == enc_init(
                    f as nat,
                    match initial_mask {
                        Some(m) => m@,
                        None => zeros(f as nat),
                    },
                    robustness as nat,
                    pt_limit as nat,
                    ft_limit as nat,
                    rt_limit as nat,
                ) && enc_wf(c@),
                Err(_) => false,
            }),
    {
        if f == 0 || f > 65535 {
            return Err(PocketError::InvalidPacketSize(f));
        }
        if robustness > 7 {
            return Err(PocketError::InvalidRobustness(robustness as usize));
        }
        let mask = match initial_mask {
            Some(m) => m.clone(),
            None => BitVector::new(f),
        };
        let initial = mask.clone();
        let mut change_history: Vec<BitVector> = Vec::new();
        let mut k: usize = 0;
        while k < 16
            invariant
                k <= 16,
                1 <= f <= 65535,
                change_history@.len() == k,
                forall|i: int| 0 <= i < k ==> (#[trigger] change_history@[i])@ == zeros(f as nat),
            decreases 16 - k,
        {
            change_history.push(BitVector::new(f));
            k = k + 1;
        }
        let mut flag_history: Vec<bool> = Vec::new();
        let mut k2: usize = 0;
        while k2 < 16
            invariant
                k2 <= 16,
                flag_history@.len() == k2,
                forall|i: int| 0 <= i < k2 ==> !(#[trigger] flag_history@[i]),
            decreases 16 - k2,
        {
            flag_history.push(false);
            k2 = k2 + 1;
        }
        let mut comp = Compressor {
            f,
            robustness,
            mask,
            prev_mask: BitVector::new(f),
            build: BitVector::new(f),
            prev_input: BitVector::new(f),
            initial_mask: initial,
            change_history,
            history_index: 0,
            flag_history,
            flag_history_index: 0,
            t: 0,
            pt_limit,
            ft_limit,
            rt_limit,
            pt_counter: pt_limit,
            ft_counter: ft_limit,
            rt_counter: rt_limit,
        };
        proof {
            assert(enc_wf(comp@)) by {
                assert(forall|i: int|
                    0 <= i < 16 ==> (#[trigger] comp@.changes[i]).len() == comp@.f);
            }
        }
        comp.reset();
        proof {
            assert(comp@ == enc_init(
                f as nat,
                match initial_mask {
                    Some(m) => m@,
                    None => zeros(f as nat),
                },
                robustness as nat,
                pt_limit as nat,
                ft_limit as nat,
                rt_limit as nat,
            )) by {
                assert(comp@.changes =~= Seq::new(16, |i: int| zeros(f as nat)));
                assert(comp@.flags =~= Seq::new(16, |i: int| false));
            }
        }
        Ok(comp)
    }

    /// Put the compressor back in its starting state.
    #[verifier::loop_isolation(false)]
    pub fn reset(&mut self)
        requires
            enc_wf(old(self)@),
        ensures
            final(self)@ == enc_init(
                old(self)@.f,
                old(self)@.init_mask,
                old(self)@.r,
                old(self)@.pt_limit,
                old(self)@.ft_limit,
                old(self)@.rt_limit,
            ),
            enc_wf(final(self)@),
    {
        self.t = 0;
        self.history_index = 0;
        self.flag_history_index = 0;
        self.mask.copy_from(&self.initial_mask);
        self.prev_mask.zero();
        self.build.zero();
        self.prev_input.zero();
        let f = self.f;
        let ghost fv = self@.f;
        let ghost mid = self@;
        let mut k: usize = 0;
        while k < 16
            invariant
                k <= 16,
                1 <= f <= 65535,
                fv == f as nat,
                self@ == (EncModel { changes: self@.changes, ..mid }),
                self.change_history@.len() == 16,
                forall|i: int|
                    0 <= i < k ==> (#[trigger] self.change_history@[i])@ == zeros(fv),
            decreases 16 - k,
        {
            self.change_history[k] = BitVector::new(f);
            k = k + 1;
        }
        let ghost mid2 = self@;
        let mut k2: usize = 0;
        while k2 < 16
            invariant
                k2 <= 16,
                self@ == (EncModel { flags: self@.flags, ..mid2 }),
                self.flag_history@.len() == 16,
                forall|i: int| 0 <= i < k2 ==> !(#[trigger] self.flag_history@[i]),
            decreases 16 - k2,
        {
            self.flag_history[k2] = false;
            k2 = k2 + 1;
        }
        self.pt_counter = self.pt_limit;
        self.ft_counter = self.ft_limit;
        self.rt_counter = self.rt_limit;
        proof {
            assert(self@.changes =~= Seq::new(16, |i: int| zeros(old(self)@.f)));
            assert(self@.flags =~= Seq::new(16, |i: int| false));
            assert(self@ == enc_init(
                old(self)@.f,
                old(self)@.init_mask,
                old(self)@.r,
                old(self)@.pt_limit,
                old(self)@.ft_limit,
                old(self)@.rt_limit,
            ));
        }
    }

    /// The robustness window: the current change joined with the last
    /// `min(R, t)` changes.
    #[verifier::loop_isolation(false)]
    fn compute_robustness_window(&self, current_change: &BitVector) -> (r: BitVector)
        requires
            enc_wf(self@),
            current_change@.len() == self@.f,
            self@.changes[self@.hist_i as int] == current_change@,
        ensures
            r@ == win_or(self@.changes, self@.hist_i, nat_min(self@.r, self@.t)),
            r@.len() == self@.f,
    {
        if self.robustness == 0 || self.t == 0 {
            current_change.clone()
        } else {
            let mut xt = current_change.clone();
            let num_changes = if self.t <= self.robustness as usize {
                self.t
            } else {
                self.robustness as usize
            };
            let mut i: usize = 1;
            proof {
                assert(win_or(self@.changes, self@.hist_i, 0) == self@.changes[self@.hist_i as int]);
            }
            while i <= num_changes
                invariant
                    1 <= i <= num_changes + 1,
                    xt@ == win_or(self@.changes, self@.hist_i, (i - 1) as nat),
                    xt@.len() == self@.f,
                decreases num_changes + 1 - i,
            {
                let hist_idx = (self.history_index + 16 - i) % 16;
                proof {
                    assert(self@.changes[hist_idx as int]
                        == self.change_history@[hist_idx as int]@);
                    assert(ring_at(self@.changes, self@.hist_i, i as nat)
                        == self@.changes[hist_idx as int]);
                }
                let new_xt = xt.or(&self.change_history[hist_idx]);
                xt.copy_from(&new_xt);
                i = i + 1;
            }
            xt
        }
    }

    /// The effective robustness field.
    #[verifier::loop_isolation(false)]
    fn compute_effective_robustness(&self) -> (r: u8)
        requires
            enc_wf(self@),
        ensures
            r as nat == eff_rob(self@.changes, self@.hist_i, self@.r, self@.t),
            r <= 15,
    {
        let rt = self.robustness;
        let mut vt = rt;
        if self.t > rt as usize {
            let stop: usize = if 15 <= self.t {
                15
            } else {
                self.t
            };
            let ghost stopn = stop as nat;
            let mut ct: u8 = 0;
            let mut i: usize = rt as usize + 1;
            let mut broke = false;
            proof {
                assert(stopn == nat_min(15, self@.t));
            }
            while i <= stop && !broke
                invariant
                    enc_wf(self@),
                    stopn == nat_min(15, self@.t),
                    stop == stopn,
                    rt == self.robustness,
                    rt as nat == self@.r,
                    rt as usize + 1 <= i <= stop + 1,
                    i == rt as usize + 1 + ct as usize,
                    ct <= 15 - rt,
                    !broke ==> quiet_run(self@.changes, self@.hist_i, (rt + 1) as nat, stopn)
                        == ct as nat + quiet_run(self@.changes, self@.hist_i, i as nat, stopn),
                    broke ==> quiet_run(self@.changes, self@.hist_i, (rt + 1) as nat, stopn)
                        == ct as nat,
                decreases stop + 1 - i + (if broke {
                    0int
                } else {
                    1int
                }),
            {
                let hist_idx = (self.history_index + 16 - i) % 16;
                proof {
                    assert(self@.changes[hist_idx as int]
                        == self.change_history@[hist_idx as int]@);
                    assert(ring_at(self@.changes, self@.hist_i, i as nat)
                        == self@.changes[hist_idx as int]);
                }
                if self.change_history[hist_idx].hamming_weight() > 0 {
                    broke = true;
                } else {
                    ct = ct + 1;
                    if ct >= 15 - rt {
                        broke = true;
                        proof {
                            assert(i == stop);
                            assert(quiet_run(self@.changes, self@.hist_i, (i + 1) as nat, stopn)
                                == 0);
                            assert(quiet_run(self@.changes, self@.hist_i, i as nat, stopn) == 1);
                        }
                    }
                    i = i + 1;
                }
            }
            proof {
                if !broke {
                    assert(quiet_run(self@.changes, self@.hist_i, i as nat, stopn) == 0);
                }
            }
            vt = if rt + ct <= 15 {
                rt + ct
            } else {
                15
            };
        }
        vt
    }

    /// Whether the window clears any position of the current mask.
    fn has_positive_updates(&self, xt: &BitVector) -> (r: bool)
        requires
            enc_wf(self@),
            xt@.len() == self@.f,
        ensures
            r == (pcount(seq_and(xt@, seq_not(self@.mask))) > 0),
    {
        let inverted = self.mask.not();
        let positive = xt.and(&inverted);
        positive.hamming_weight() > 0
    }

    /// The look-ahead hint for the extraction mask.
    #[verifier::loop_isolation(false)]
    fn compute_ct_flag(&self, vt: u8, current_new_mask_flag: bool) -> (r: bool)
        requires
            enc_wf(self@),
            vt <= 15,
        ensures
            r == ct_of(self@.flags, self@.flag_i, vt as nat, self@.t, current_new_mask_flag),
    {
        if vt == 0 {
            return false;
        }
        let mut count: u32 = if current_new_mask_flag {
            1
        } else {
            0
        };
        let iterations = if (vt as usize) <= self.t {
            vt as usize
        } else {
            self.t
        };
        let ghost base: nat = if current_new_mask_flag {
            1nat
        } else {
            0nat
        };
        let mut i: usize = 0;
        while i < iterations
            invariant
                i <= iterations,
                iterations == nat_min(vt as nat, self@.t),
                iterations <= 15,
                count as nat == base + nflags(self@.flags, self@.flag_i, i as nat),
                count <= i + 1,
            decreases iterations - i,
        {
            let idx = (self.flag_history_index + 16 - 1 - i) % 16;
            proof {
                crate::compress::lemma_nflags_bound(self@.flags, self@.flag_i, (i + 1) as nat);
                assert((((self@.flag_i + 16) - (i + 1)) % 16) as int == idx as int);
            }
            if self.flag_history[idx] {
                count = count + 1;
            }
            i = i + 1;
        }
        count >= 2
    }
}

/// The flag count never exceeds the window it counts over.
pub proof fn lemma_nflags_bound(flags: Seq<bool>, fi: nat, k: nat)
    ensures
        nflags(flags, fi, k) <= k,
    decreases k,
{
    if k > 0 {
        lemma_nflags_bound(flags, fi, (k - 1) as nat);
    }
}


impl Clone for Compressor {
    /// A compressor in the same state, for a parallel continuation of the
    /// stream.
    #[verifier::loop_isolation(false)]
    fn clone(&self) -> (r: Self)
        ensures
            r@ == self@,
    {
        let mut change_history: Vec<BitVector> = Vec::new();
        let n = self.change_history.len();
        let mut k: usize = 0;
        while k < n
            invariant
                k <= n,
                n == self.change_history@.len(),
                change_history@.len() == k,
                forall|i: int|
                    0 <= i < k ==> (#[trigger] change_history@[i])@ == self.change_history@[i]@,
            decreases n - k,
        {
            change_history.push(self.change_history[k].clone());
            k = k + 1;
        }
        let mut flag_history: Vec<bool> = Vec::new();
        let n2 = self.flag_history.len();
        let mut k2: usize = 0;
        while k2 < n2
            invariant
                k2 <= n2,
                n2 == self.flag_history@.len(),
                flag_history@.len() == k2,
                forall|i: int| 0 <= i < k2 ==> flag_history@[i] == self.flag_history@[i],
            decreases n2 - k2,
        {
            flag_history.push(self.flag_history[k2]);
            k2 = k2 + 1;
        }
        let r = Compressor {
            f: self.f,
            robustness: self.robustness,
            mask: self.mask.clone(),
            prev_mask: self.prev_mask.clone(),
            build: self.build.clone(),
            prev_input: self.prev_input.clone(),
            initial_mask: self.initial_mask.clone(),
            change_history,
            history_index: self.history_index,
            flag_history,
            flag_history_index: self.flag_history_index,
            t: self.t,
            pt_limit: self.pt_limit,
            ft_limit: self.ft_limit,
            rt_limit: self.rt_limit,
            pt_counter: self.pt_counter,
            ft_counter: self.ft_counter,
            rt_counter: self.rt_counter,
        };
        proof {
            assert(r@.changes =~= self@.changes);
            assert(r@.flags =~= self@.flags);
            assert(r@ == self@);
        }
        r
    }
}

impl Compressor {
    /// Emit the mask-change header of the current step.
    fn emit_h(
        &self,
        output: &mut BitBuffer,
        xt: &BitVector,
        vt: u8,
        params: &CompressionParams,
        Ghost(s0): Ghost<EncModel>,
        Ghost(inp): Ghost<Seq<bool>>,
    )
        requires
            enc_wf(s0),
            inp.len() == s0.f,
            self@.mask == enc_m(s0, inp, *params),
            self@.flags == s0.flags,
            self@.flag_i == s0.flag_i,
            self@.t == s0.t,
            self@.f == s0.f,
            enc_wf(self@),
            xt@ == enc_x(s0, inp, *params),
            vt as nat == enc_vt(s0, inp, *params),
            vt <= 15,
            old(output)@ == Seq::<bool>::empty(),
        ensures
            final(output)@ == frame_h(s0, inp, *params),
            final(output)@.len() <= 9 * s0.f + 9,
    {
        proof {
            lemma_enc_shape(s0, inp, *params);
        }
        let ghost m = enc_m(s0, inp, *params);
        let ghost x = enc_x(s0, inp, *params);
        let ghost vtn = enc_vt(s0, inp, *params);
        let ghost f = s0.f;
        let dt: u8 = if !params.send_mask_flag && !params.uncompressed_flag {
            1
        } else {
            0
        };
        match rle_encode(output, xt) {
            Ok(_) => {},
            Err(_) => {
                proof {
                    lemma_rle_len(x);
                    assert(false);
                }
            },
        }
        proof {
            lemma_rle_len(x);
            assert(output@.len() <= 8 * f + 2);
        }
        if !output.append_value(vt as u32, 4) {
            proof {
                assert(false);
            }
        }
        proof {
            assert(val_bits(vt as u64, 4) =~= val_bits(vtn as u64, 4));
            assert(output@ == rle_bits(x) + val_bits(vtn as u64, 4));
        }
        let ghost hdr2 = output@;
        let hw = xt.hamming_weight();
        let ghost et_s = enc_et(s0, inp, *params);
        let ghost ct_s = enc_ct(s0, inp, *params);
        if vt > 0 && hw > 0 {
            let et = self.has_positive_updates(xt);
            proof {
                assert(et == et_s);
            }
            if !output.append_bit(if et {
                1
            } else {
                0
            }) {
                proof {
                    assert(false);
                }
            }
            proof {
                assert(output@ == hdr2.push(et_s));
            }
            if et {
                let inverted = self.mask.not();
                match bit_extract_forward(output, &inverted, xt) {
                    Ok(_) => {},
                    Err(_) => {
                        proof {
                            lemma_befwd_len(seq_not(m), x, 0);
                            crate::bits::lemma_pcount_le_len(x);
                            assert(false);
                        }
                    },
                }
                proof {
                    lemma_befwd_len(seq_not(m), x, 0);
                    crate::bits::lemma_pcount_le_len(x);
                    assert(output@.len() <= 9 * f + 7);
                }
                let ct = self.compute_ct_flag(vt, params.new_mask_flag);
                if !output.append_bit(if ct {
                    1
                } else {
                    0
                }) {
                    proof {
                        assert(false);
                    }
                }
            }
        }
        proof {
            assert(output@ == hdr2 + (if vtn > 0 && pcount(x) > 0 {
                seq![et_s] + (if et_s {
                    befwd_bits(seq_not(m), x, 0) + seq![ct_s]
                } else {
                    Seq::<bool>::empty()
                })
            } else {
                Seq::<bool>::empty()
            })) by {
                crate::bits::lemma_pcount_le_len(x);
                if vtn > 0 && pcount(x) > 0 {
                    if et_s {
                        assert(output@ =~= hdr2 + (seq![et_s] + (befwd_bits(seq_not(m), x, 0)
                            + seq![ct_s])));
                    } else {
                        assert(output@ =~= hdr2 + (seq![et_s] + Seq::<bool>::empty()));
                    }
                } else {
                    assert(output@ =~= hdr2 + Seq::<bool>::empty());
                }
            }
        }
        if !output.append_bit(dt) {
            proof {
                assert(false);
            }
        }
        proof {
            crate::bits::lemma_pcount_le_len(x);
            lemma_befwd_len(seq_not(m), x, 0);
            assert(output@ =~= frame_h(s0, inp, *params));
        }
    }

    /// Emit the optional full-mask refresh of the current step.
    fn emit_q(
        &self,
        output: &mut BitBuffer,
        params: &CompressionParams,
        Ghost(s0): Ghost<EncModel>,
        Ghost(inp): Ghost<Seq<bool>>,
    )
        requires
            enc_wf(s0),
            inp.len() == s0.f,
            self@.mask == enc_m(s0, inp, *params),
            self@.f == s0.f,
            enc_wf(self@),
            old(output)@ == frame_h(s0, inp, *params),
            old(output)@.len() <= 9 * s0.f + 9,
        ensures
            final(output)@ == frame_h(s0, inp, *params) + frame_q(s0, inp, *params),
            final(output)@.len() <= 17 * s0.f + 12,
    {
        let ghost m = enc_m(s0, inp, *params);
        let ghost h_s = frame_h(s0, inp, *params);
        let dt: u8 = if !params.send_mask_flag && !params.uncompressed_flag {
            1
        } else {
            0
        };
        if dt == 0 {
            if params.send_mask_flag {
                if !output.append_bit(1) {
                    proof {
                        assert(false);
                    }
                }
                let shifted = self.mask.left_shift();
                let diff = self.mask.xor(&shifted);
                proof {
                    lemma_hxor_shl(m);
                    assert(diff@ == hxor(m));
                    lemma_rle_len(hxor(m));
                }
                match rle_encode(output, &diff) {
                    Ok(_) => {},
                    Err(_) => {
                        proof {
                            assert(false);
                        }
                    },
                }
            } else {
                if !output.append_bit(0) {
                    proof {
                        assert(false);
                    }
                }
            }
        }
        proof {
            lemma_rle_len(hxor(m));
            assert(output@ =~= h_s + frame_q(s0, inp, *params));
        }
    }

    /// Emit the data payload of the current step.
    fn emit_u(
        &self,
        output: &mut BitBuffer,
        input: &BitVector,
        vt: u8,
        params: &CompressionParams,
        Ghost(s0): Ghost<EncModel>,
    )
        requires
            enc_wf(s0),
            input@.len() == s0.f,
            self@.mask == enc_m(s0, input@, *params),
            self@.flags == s0.flags,
            self@.flag_i == s0.flag_i,
            self@.t == s0.t,
            self@.f == s0.f,
            self@.changes == enc_ch2(s0, input@, *params),
            self@.hist_i == s0.hist_i,
            self@.r == s0.r,
            enc_wf(self@),
            vt as nat == enc_vt(s0, input@, *params),
            vt <= 15,
            old(output)@ == frame_h(s0, input@, *params) + frame_q(s0, input@, *params),
            old(output)@.len() <= 17 * s0.f + 12,
        ensures
            final(output)@ == frame_bits(s0, input@, *params),
    {
        proof {
            reveal(crate::compress::frame_bits);
        }
        let ghost f = s0.f;
        let ghost hq = old(output)@;
        let dt: u8 = if !params.send_mask_flag && !params.uncompressed_flag {
            1
        } else {
            0
        };
        if params.uncompressed_flag {
            if !output.append_bit(1) {
                proof {
                    assert(false);
                }
            }
            let fval = self.f;
            proof {
                lemma_count_len_cap(f);
            }
            match count_encode(output, fval as u32) {
                Ok(_) => {},
                Err(_) => {
                    proof {
                        assert(false);
                    }
                },
            }
            if !output.append_bitvector(input) {
                proof {
                    assert(false);
                }
            }
            proof {
                assert(output@ =~= hq + frame_u(s0, input@, *params));
            }
        } else {
            if dt == 0 {
                if !output.append_bit(0) {
                    proof {
                        assert(false);
                    }
                }
            }
            let ct = self.compute_ct_flag(vt, params.new_mask_flag);
            let ghost em = enc_em(s0, input@, *params);
            proof {
                lemma_enc_shape(s0, input@, *params);
                assert(ct == enc_ct(s0, input@, *params));
                lemma_be_emits_popcount(input@, em);
                crate::bits::lemma_pcount_le_len(em);
            }
            let xt = self.compute_robustness_window_from_ring();
            proof {
                assert(xt@ == enc_x(s0, input@, *params));
            }
            if ct && vt > 0 {
                let extraction_mask = self.mask.or(&xt);
                match bit_extract(output, input, &extraction_mask) {
                    Ok(_) => {},
                    Err(_) => {
                        proof {
                            assert(false);
                        }
                    },
                }
            } else {
                match bit_extract(output, input, &self.mask) {
                    Ok(_) => {},
                    Err(_) => {
                        proof {
                            assert(false);
                        }
                    },
                }
            }
            proof {
                assert(output@ =~= hq + frame_u(s0, input@, *params));
            }
        }
    }

    /// Compress one packet: update the mask state and emit its frame.
    ///
    /// The frame is exactly `frame_bits` of the prior state, and the state
    /// steps to exactly `enc_next`.
    #[verifier::rlimit(100)]
    pub fn compress_packet(&mut self, input: &BitVector, params: &CompressionParams) -> (r: Result<
        BitBuffer,
        PocketError,
    >)
        requires
            enc_wf(old(self)@),
            old(self)@.t < usize::MAX,
        ensures
            enc_wf(final(self)@),
            input@.len() != old(self)@.f ==> (r matches Err(PocketError::InvalidInputLength {
                expected,
                actual,
            }) && expected == old(self)@.f && actual == input@.len() && final(self)@ == old(
                self,
            )@),
            input@.len() == old(self)@.f ==> (match r {
                Ok(out) => out@ == frame_bits(old(self)@, input@, *params) && final(self)@
                    == enc_next(old(self)@, input@, *params),
                Err(_) => false,
            }),
    {
        let ghost s0 = self@;
        if input.len() != self.f {
            return Err(
                PocketError::InvalidInputLength { expected: self.f, actual: input.len() },
            );
        }
        let nm = params.new_mask_flag;
        let mut output = BitBuffer::new();

        // mask kernel step
        self.prev_mask.copy_from(&self.mask);
        let prev_build = self.build.clone();
        if self.t > 0 {
            let build = &mut self.build;
            update_build(build, input, &self.prev_input, nm, self.t);
            let mask = &mut self.mask;
            update_mask(mask, input, &self.prev_input, &prev_build, nm);
        }
        let ghost m = enc_m(s0, input@, *params);
        proof {
            assert(self@.mask == m);
            assert(self@.build == build_after(s0, input@, nm));
        }
        let change = compute_change(&self.mask, &self.prev_mask, self.t);
        proof {
            assert(change@ == change_after(s0, m));
        }
        let stored = change.clone();
        let hidx = self.history_index;
        self.change_history[hidx] = stored;
        proof {
            assert(self@.changes =~= enc_ch2(s0, input@, *params));
            assert(enc_wf(self@)) by {
                assert(forall|i: int|
                    0 <= i < 16 ==> (#[trigger] self@.changes[i]).len() == s0.f);
            }
        }
        let xt = self.compute_robustness_window(&change);
        let vt = self.compute_effective_robustness();
        proof {
            assert(xt@ == enc_x(s0, input@, *params));
            assert(vt as nat == enc_vt(s0, input@, *params));
        }
        self.emit_h(&mut output, &xt, vt, params, Ghost(s0), Ghost(input@));
        self.emit_q(&mut output, params, Ghost(s0), Ghost(input@));
        self.emit_u(&mut output, input, vt, params, Ghost(s0));

        // step the state
        self.prev_input.copy_from(input);
        let m2 = self.mask.clone();
        self.prev_mask.copy_from(&m2);
        let fidx = self.flag_history_index;
        self.flag_history[fidx] = nm;
        self.flag_history_index = (self.flag_history_index + 1) % 16;
        self.t = self.t + 1;
        self.history_index = (self.history_index + 1) % 16;
        proof {
            assert(self@.changes =~= enc_next(s0, input@, *params).changes);
            assert(self@.flags =~= enc_next(s0, input@, *params).flags);
            assert(self@ == enc_next(s0, input@, *params));
            assert(enc_wf(self@));
        }
        Ok(output)
    }

    /// The robustness window recomputed from the stored current change.
    fn compute_robustness_window_from_ring(&self) -> (r: BitVector)
        requires
            enc_wf(self@),
        ensures
            r@ == win_or(self@.changes, self@.hist_i, nat_min(self@.r, self@.t)),
            r@.len() == self@.f,
    {
        let hidx = self.history_index;
        let current = self.change_history[hidx].clone();
        proof {
            assert(self@.changes[self@.hist_i as int] == self.change_history@[hidx as int]@);
        }
        self.compute_robustness_window(&current)
    }
}


/// Compress a buffer of whole packets of `packet_size` bits each.
///
/// The result is the byte-for-byte compressed stream `spec_compress_bytes`
/// defines; an empty buffer compresses to an empty stream.
#[verifier::loop_isolation(false)]
#[verifier::rlimit(60)]
pub fn compress(
    data: &[u8],
    packet_size: usize,
    robustness: usize,
    pt_limit: usize,
    ft_limit: usize,
    rt_limit: usize,
) -> (r: Result<Vec<u8>, PocketError>)
    requires
        data@.len() + packet_size <= usize::MAX,
    ensures
        (packet_size == 0 || packet_size % 8 != 0) ==> r == Err::<Vec<u8>, PocketError>(
            PocketError::InvalidPacketSize(packet_size),
        ),
        (packet_size >= 1 && packet_size % 8 == 0 && robustness > 7) ==> r == Err::<
            Vec<u8>,
            PocketError,
        >(PocketError::InvalidRobustness(robustness)),
        (packet_size >= 1 && packet_size % 8 == 0 && robustness <= 7 && data@.len() == 0) ==> (
        match r {
            Ok(v) => v@ == Seq::<u8>::empty(),
            Err(_) => false,
        }),
        (packet_size >= 1 && packet_size % 8 == 0 && robustness <= 7 && data@.len() > 0
            && data@.len() % ((packet_size / 8) as nat) != 0) ==> r == Err::<Vec<u8>, PocketError>(
            PocketError::InvalidInputLength {
                expected: ((data@.len() / ((packet_size / 8) as nat) + 1) * ((packet_size / 8) as nat)) as usize,
                actual: data@.len() as usize,
            },
        ),
        (packet_size >= 1 && packet_size % 8 == 0 && robustness <= 7 && data@.len() > 0
            && data@.len() % ((packet_size / 8) as nat) == 0 && packet_size > 65535) ==> r == Err::<
            Vec<u8>,
            PocketError,
        >(PocketError::InvalidPacketSize(packet_size)),
        (packet_size >= 1 && packet_size % 8 == 0 && robustness <= 7 && data@.len() > 0
            && data@.len() % ((packet_size / 8) as nat) == 0 && packet_size <= 65535) ==> (match r {
            Ok(v) => v@ == spec_compress_bytes(
                data@,
                packet_size as nat,
                robustness as nat,
                pt_limit as nat,
                ft_limit as nat,
                rt_limit as nat,
            ),
            Err(_) => false,
        }),
{
    if packet_size == 0 {
        return Err(PocketError::InvalidPacketSize(packet_size));
    }
    if packet_size % 8 != 0 {
        return Err(PocketError::InvalidPacketSize(packet_size));
    }
    if robustness > 7 {
        return Err(PocketError::InvalidRobustness(robustness));
    }
    let packet_bytes = packet_size / 8;
    if data.len() == 0 {
        return Ok(Vec::new());
    }
    if data.len() % packet_bytes != 0 {
        proof {
            vstd::arithmetic::div_mod::lemma_fundamental_div_mod(
                data@.len() as int,
                packet_bytes as int,
            );
            assert((data@.len() as int / packet_bytes as int + 1) * packet_bytes as int == (
            data@.len() as int / packet_bytes as int) * packet_bytes as int + packet_bytes as int)
                by (nonlinear_arith);
        }
        return Err(
            PocketError::InvalidInputLength {
                expected: (data.len() / packet_bytes + 1) * packet_bytes,
                actual: data.len(),
            },
        );
    }
    let num_packets = data.len() / packet_bytes;
    let mut comp = match Compressor::new(
        packet_size,
        None,
        robustness as u8,
        pt_limit,
        ft_limit,
        rt_limit,
    ) {
        Ok(c) => c,
        Err(e) => {
            return Err(e);
        },
    };
    proof {
        vstd::arithmetic::div_mod::lemma_fundamental_div_mod(
            data@.len() as int,
            packet_bytes as int,
        );
    }
    let ghost target = spec_compress_bytes(
        data@,
        packet_size as nat,
        robustness as nat,
        pt_limit as nat,
        ft_limit as nat,
        rt_limit as nat,
    );
    let mut output: Vec<u8> = Vec::new();
    let mut i: usize = 0;
    let mut off: usize = 0;
    while i < num_packets
        invariant
            i <= num_packets,
            off == i * packet_bytes,
            enc_wf(comp@),
            comp@.f == packet_size,
            comp@.r == robustness,
            comp@.t == i,
            comp@.pt_limit == pt_limit,
            comp@.ft_limit == ft_limit,
            comp@.rt_limit == rt_limit,
            (pt_limit >= 1 && ft_limit >= 1 && rt_limit >= 1) ==> (comp@.pt_ctr >= 1
                && comp@.ft_ctr >= 1 && comp@.rt_ctr >= 1),
            target == output@ + comp_rec(comp@, data@, i as nat, num_packets as nat),
        decreases num_packets - i,
    {
        proof {
            vstd::arithmetic::mul::lemma_mul_inequality(
                (i + 1) as int,
                num_packets as int,
                packet_bytes as int,
            );
            assert((i + 1) * packet_bytes == i * packet_bytes + packet_bytes)
                by (nonlinear_arith);
            assert(num_packets * packet_bytes == data@.len()) by {
                vstd::arithmetic::div_mod::lemma_fundamental_div_mod(
                    data@.len() as int,
                    packet_bytes as int,
                );
            }
            assert(off + packet_bytes <= data@.len());
        }
        let packet_data = vstd::slice::slice_subrange(data, off, off + packet_bytes);
        let input = BitVector::from_bytes(packet_data, packet_size);
        proof {
            assert(input@ =~= bits_from_bytes(
                data@.subrange(off as int, (off + packet_bytes) as int),
                packet_size as nat,
            )) by {
                assert(forall|k: int|
                    0 <= k < packet_size ==> #[trigger] input@[k] == crate::bits::bit8(
                        packet_data@[k / 8],
                        k % 8,
                    ));
            }
        }
        let ghost s_pre = comp@;
        let ghost pair = sched_step(s_pre, i as nat);
        let params = if pt_limit > 0 && ft_limit > 0 && rt_limit > 0 {
            if i == 0 {
                CompressionParams {
                    new_mask_flag: false,
                    send_mask_flag: true,
                    uncompressed_flag: true,
                }
            } else {
                let send_mask_flag = if comp.ft_counter == 1 {
                    comp.ft_counter = ft_limit;
                    true
                } else {
                    comp.ft_counter = comp.ft_counter - 1;
                    false
                };
                let new_mask_flag = if comp.pt_counter == 1 {
                    comp.pt_counter = pt_limit;
                    true
                } else {
                    comp.pt_counter = comp.pt_counter - 1;
                    false
                };
                let uncompressed_flag = if comp.rt_counter == 1 {
                    comp.rt_counter = rt_limit;
                    true
                } else {
                    comp.rt_counter = comp.rt_counter - 1;
                    false
                };
                if i <= robustness {
                    CompressionParams {
                        new_mask_flag: false,
                        send_mask_flag: true,
                        uncompressed_flag: true,
                    }
                } else {
                    CompressionParams { new_mask_flag, send_mask_flag, uncompressed_flag }
                }
            }
        } else {
            CompressionParams {
                new_mask_flag: false,
                send_mask_flag: false,
                uncompressed_flag: false,
            }
        };
        proof {
            assert(params == pair.0);
            assert(comp@ == pair.1);
        }
        let packet_output = match comp.compress_packet(&input, &params) {
            Ok(out) => out,
            Err(_) => {
                proof {
                    assert(false);
                }
                return Err(PocketError::BufferOverflow);
            },
        };
        let mut packet_vec = packet_output.to_bytes();
        output.append(&mut packet_vec);
        i = i + 1;
        off = off + packet_bytes;
        proof {
            assert(comp_rec(s_pre, data@, (i - 1) as nat, num_packets as nat) == bytes_of_bits(
                frame_bits(pair.1, input@, pair.0),
            ) + comp_rec(comp@, data@, i as nat, num_packets as nat));
            assert(target =~= output@ + comp_rec(comp@, data@, i as nat, num_packets as nat));
        }
    }
    proof {
        assert(comp_rec(comp@, data@, num_packets as nat, num_packets as nat) == Seq::<
            u8,
        >::empty());
        assert(target =~= output@);
    }
    Ok(output)
}

} // verus!
