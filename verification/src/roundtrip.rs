//! The round-trip theorems: the decoder inverts the encoder.
//!
//! `lemma_frame_inverts` states that parsing the frame a compressor emits
//! reproduces the packet and the compressor's own mask (the encoder and
//! decoder masks stay in lockstep); `lemma_stream_roundtrip` extends it to
//! whole byte streams: decompressing a compressed buffer gives the buffer
//! back.

use vstd::prelude::*;

verus! {

use crate::bits::{
    bits_from_bytes, bits_of_bytes, bytes_of_bits, pcount, seq_and, seq_not, seq_or, seq_xor,
    val_bits, zeros,
};
use crate::compress::{
    change_after, comp_rec, enc_ch2, enc_ct, enc_dt, enc_em, enc_et, enc_init, enc_m, enc_next,
    enc_vt, enc_wf, enc_x, frame_bits, frame_h, frame_q, frame_u, lemma_enc_shape, nat_min,
    quiet_run, ring_at, sched_step, spec_compress_bytes, win_or, CompressionParams, EncModel,
};
use crate::decompress::{
    align8, dec_h, dec_init, dec_kmask, dec_kpos, dec_q, dec_step, dec_u, dec_wf, decomp_rec,
    spec_decompress_bytes, DecModel, DRes, StepRes,
};
use crate::wire::{
    be_bits, befwd_bits, count_bits, hxor, insert_bits, lemma_be_emits_popcount,
    lemma_befwd_index, lemma_befwd_len, lemma_count_roundtrip, lemma_piece_at, lemma_rle_len,
    lemma_rle_roundtrip, lemma_split_piece, lemma_unhxor_hxor, parse_count, parse_rle,
    rank_from_bot, rle_bits, CountStep, RleStep,
};

/// The decoder state that mirrors an encoder state.
pub open spec fn coupled(d: DecModel, e: EncModel) -> bool {
    &&& d.f == e.f
    &&& d.r == e.r
    &&& d.mask == e.mask
    &&& d.prev_out == e.prev_input
    &&& d.t == e.t
}

/// The window contains the change stored in its own slot.
proof fn lemma_win_includes(changes: Seq<Seq<bool>>, hi: nat, k: nat, j: int)
    requires
        changes.len() == 16,
        hi < 16,
        k <= 16,
        forall|i: int| 0 <= i < 16 ==> (#[trigger] changes[i]).len() == changes[hi as int].len(),
        0 <= j < changes[hi as int].len(),
        changes[hi as int][j],
    ensures
        win_or(changes, hi, k)[j],
    decreases k,
{
    if k > 0 {
        lemma_win_includes(changes, hi, (k - 1) as nat, j);
        crate::compress::lemma_win_or_len(changes, hi, (k - 1) as nat, changes[hi as int].len());
    }
}

/// A quiet run is no longer than the span it scans.
proof fn lemma_quiet_run_le(changes: Seq<Seq<bool>>, hi: nat, i: nat, stop: nat)
    ensures
        quiet_run(changes, hi, i, stop) <= stop + 1 - i || quiet_run(changes, hi, i, stop) == 0,
    decreases stop + 1 - i,
{
    if i <= stop && pcount(ring_at(changes, hi, i)) == 0 {
        lemma_quiet_run_le(changes, hi, i + 1, stop);
    }
}

/// The effective robustness fits its 4-bit field.
pub proof fn lemma_enc_vt_le_15(s: EncModel, input: Seq<bool>, p: CompressionParams)
    requires
        enc_wf(s),
    ensures
        enc_vt(s, input, p) <= 15,
{
    if s.t > s.r {
        lemma_quiet_run_le(enc_ch2(s, input, p), s.hist_i, s.r + 1, nat_min(15, s.t));
    }
}

/// Off the window, the new mask agrees with the old one.
proof fn lemma_off_window(e: EncModel, input: Seq<bool>, p: CompressionParams, j: int)
    requires
        enc_wf(e),
        input.len() == e.f,
        0 <= j < e.f,
        !enc_x(e, input, p)[j],
    ensures
        enc_m(e, input, p)[j] == e.mask[j],
{
    lemma_enc_shape(e, input, p);
    let m = enc_m(e, input, p);
    let d = change_after(e, m);
    let ch2 = enc_ch2(e, input, p);
    if d[j] {
        assert(ch2[e.hist_i as int][j]);
        lemma_win_includes(ch2, e.hist_i, nat_min(e.r, e.t), j);
    }
    if e.t == 0 {
        assert(m == e.mask);
    } else {
        assert(d[j] == (m[j] != e.mask[j]));
    }
}

/// Rebuilding the mask from the forward update field restores it exactly,
/// and the positive tracker is the cleared part of the window.
proof fn lemma_kmask_rebuilds(m_prev: Seq<bool>, m: Seq<bool>, x: Seq<bool>)
    requires
        m_prev.len() == m.len(),
        x.len() == m.len(),
        forall|j: int| 0 <= j < m.len() && !x[j] ==> #[trigger] m[j] == m_prev[j],
    ensures
        dec_kmask(m_prev, x, befwd_bits(seq_not(m), x, 0)) == m,
        dec_kpos(x, befwd_bits(seq_not(m), x, 0)) == seq_and(x, seq_not(m)),
{
    let ks = befwd_bits(seq_not(m), x, 0);
    assert forall|j: int| 0 <= j < m.len() && x[j] implies rank_from_bot(x, j) < ks.len()
        && ks[rank_from_bot(x, j) as int] == !m[j] by {
        lemma_befwd_index(seq_not(m), x, 0, j);
        assert(x.subrange(0, j) =~= x.take(j));
    }
    assert(dec_kmask(m_prev, x, ks) =~= m);
    assert(dec_kpos(x, ks) =~= seq_and(x, seq_not(m)));
}

/// Whatever it carries beyond the mask, the extraction mask of the decoder
/// equals the encoder's.
proof fn lemma_em_agree(e: EncModel, input: Seq<bool>, p: CompressionParams)
    requires
        enc_wf(e),
        input.len() == e.f,
    ensures
        enc_et(e, input, p) ==> seq_or(
            enc_m(e, input, p),
            seq_and(enc_x(e, input, p), seq_not(enc_m(e, input, p))),
        ) == seq_or(enc_m(e, input, p), enc_x(e, input, p)),
        !enc_et(e, input, p) ==> seq_or(enc_m(e, input, p), enc_x(e, input, p)) == enc_m(
            e,
            input,
            p,
        ),
        !enc_et(e, input, p) ==> seq_or(e.mask, enc_x(e, input, p)) == enc_m(e, input, p),
{
    lemma_enc_shape(e, input, p);
    let m = enc_m(e, input, p);
    let x = enc_x(e, input, p);
    if enc_et(e, input, p) {
        assert(seq_or(m, seq_and(x, seq_not(m))) =~= seq_or(m, x));
    } else {
        crate::bits::lemma_pcount_zero(seq_and(x, seq_not(m)));
        assert forall|j: int| 0 <= j < e.f && x[j] implies m[j] by {
            assert(!seq_and(x, seq_not(m))[j]);
        }
        assert(seq_or(m, x) =~= m);
        assert forall|j: int| 0 <= j < e.f implies seq_or(e.mask, x)[j] == m[j] by {
            if !x[j] {
                lemma_off_window(e, input, p, j);
            }
        }
        assert(seq_or(e.mask, x) =~= m);
    }
}

/// A packet extracted over its mask inserts back into the previous packet
/// as itself.
proof fn lemma_payload_covers(e: EncModel, input: Seq<bool>, p: CompressionParams, j: int)
    requires
        enc_wf(e),
        input.len() == e.f,
        e.t > 0,
        0 <= j < e.f,
        !enc_m(e, input, p)[j],
    ensures
        input[j] == e.prev_input[j],
{
    assert(enc_m(e, input, p)[j] == seq_or(
        seq_xor(input, e.prev_input),
        if p.new_mask_flag {
            e.build
        } else {
            e.mask
        },
    )[j]);
}


/// After the header has rebuilt the mask, the refresh section and the
/// payload parse back to the packet itself.
#[verifier::rlimit(100)]
proof fn lemma_q_u_inverts(
    e: EncModel,
    d: DecModel,
    input: Seq<bool>,
    p: CompressionParams,
    bits: Seq<bool>,
    aq: nat,
    xp_c: Seq<bool>,
    ct_c: bool,
)
    requires
        enc_wf(e),
        dec_wf(d),
        coupled(d, e),
        input.len() == e.f,
        p.uncompressed_flag || e.t > 0,
        aq < bits.len(),
        bits[aq as int] == enc_dt(p),
        aq + 1 + frame_q(e, input, p).len() + frame_u(e, input, p).len() <= bits.len(),
        bits.subrange((aq + 1) as int, (aq + 1 + frame_q(e, input, p).len()) as int) == frame_q(
            e,
            input,
            p,
        ),
        bits.subrange(
            (aq + 1 + frame_q(e, input, p).len()) as int,
            (aq + 1 + frame_q(e, input, p).len() + frame_u(e, input, p).len()) as int,
        ) == frame_u(e, input, p),
        xp_c.len() == e.f,
        (if ct_c && enc_vt(e, input, p) > 0 {
            seq_or(enc_m(e, input, p), xp_c)
        } else {
            enc_m(e, input, p)
        }) == enc_em(e, input, p),
    ensures
        dec_q(d, bits, aq, enc_m(e, input, p), xp_c, enc_vt(e, input, p), ct_c) == (StepRes::Good {
            out: input,
            end: aq + 1 + frame_q(e, input, p).len() + frame_u(e, input, p).len(),
            next: DecModel {
                mask: enc_m(e, input, p),
                prev_out: input,
                t: d.t + 1,
                ..d
            },
        }),
{
    reveal(crate::decompress::dec_q);
    lemma_enc_shape(e, input, p);
    let m = enc_m(e, input, p);
    let vt = enc_vt(e, input, p);
    let q = frame_q(e, input, p);
    let u = frame_u(e, input, p);
    let dt = enc_dt(p);
    let qu_end = aq + 1 + q.len() + u.len();
    // locate the verbatim flag and the payload
    let au: nat = if dt {
        aq + 1
    } else if p.send_mask_flag {
        (aq + 2 + rle_bits(hxor(m)).len() + 1) as nat
    } else {
        aq + 3
    };
    if !dt {
        // the refresh flag
        lemma_split_piece(
            bits,
            aq + 1,
            seq![p.send_mask_flag],
            if p.send_mask_flag {
                rle_bits(hxor(m))
            } else {
                Seq::<bool>::empty()
            },
        );
        lemma_piece_at(bits, aq + 1, seq![p.send_mask_flag], 0);
        if p.send_mask_flag {
            lemma_rle_len(hxor(m));
            lemma_rle_roundtrip(bits, aq + 2, hxor(m));
            lemma_unhxor_hxor(m);
            assert(parse_rle(bits, aq + 2, d.f) == (RleStep::Val {
                v: hxor(m),
                end: aq + 2 + rle_bits(hxor(m)).len(),
            }));
        }
        // the verbatim flag is the first bit of the payload section
        lemma_piece_at(bits, aq + 1 + q.len(), u, 0);
        assert(u[0] == p.uncompressed_flag);
        assert(au == aq + 1 + q.len() + 1);
        assert(bits[(aq + 1 + q.len()) as int] == p.uncompressed_flag);
    }
    if p.uncompressed_flag {
        // verbatim payload: a counter then the packet itself
        let cb = count_bits(e.f);
        assert(u == seq![true] + cb + input);
        assert(u =~= (seq![true] + cb) + input);
        lemma_split_piece(bits, aq + 1 + q.len(), seq![true] + cb, input);
        assert(bits.subrange((aq + 1 + q.len()) as int, (aq + 1 + q.len() + 1 + cb.len()) as int)
            =~= seq![true] + cb);
        lemma_split_piece(bits, aq + 1 + q.len(), seq![true], cb);
        crate::wire::lemma_count_len_cap(e.f);
        lemma_count_roundtrip(bits, au, e.f);
        assert(parse_count(bits, au) == (CountStep::Val { a: e.f, end: au + cb.len() }));
        assert(bits.subrange((au + cb.len()) as int, (au + cb.len() + e.f) as int) == input);
        assert(au + cb.len() + e.f == qu_end);
        if dt {
            assert(dec_q(d, bits, aq, m, xp_c, vt, ct_c) == dec_u(
                d,
                bits,
                aq + 1,
                m,
                xp_c,
                vt,
                ct_c,
                false,
            ));
            assert(false) by {
                assert(enc_dt(p) ==> !p.uncompressed_flag);
            }
        }
    } else {
        // extracted payload
        let em = enc_em(e, input, p);
        let payload = be_bits(input, em, e.f as int);
        lemma_be_emits_popcount(input, em);
        assert(u == (if !dt {
            seq![false]
        } else {
            Seq::<bool>::empty()
        }) + payload);
        if !dt {
            lemma_split_piece(bits, aq + 1 + q.len(), seq![false], payload);
        } else {
            assert(u =~= Seq::<bool>::empty() + payload);
            assert(u =~= payload);
        }
        assert(bits.subrange(au as int, (au + pcount(em)) as int) == payload);
        // inserting the payload restores the packet
        crate::wire::lemma_extract_insert(input, em, d.prev_out);
        let out = insert_bits(d.prev_out, em, bits.subrange(au as int, (au + pcount(em)) as int));
        assert(out =~= input) by {
            assert forall|j: int| 0 <= j < e.f implies out[j] == input[j] by {
                if !em[j] {
                    assert(!m[j]);
                    lemma_payload_covers(e, input, p, j);
                }
            }
        }
        assert(au + pcount(em) == qu_end);
    }
}


/// Shared context for the header-phase case lemmas.
spec fn h_ctx(
    e: EncModel,
    d: DecModel,
    input: Seq<bool>,
    p: CompressionParams,
    bits: Seq<bool>,
    a2: nat,
    aq: nat,
) -> bool {
    &&& enc_wf(e)
    &&& dec_wf(d)
    &&& coupled(d, e)
    &&& input.len() == e.f
    &&& (p.uncompressed_flag || e.t > 0)
    &&& (e.t == 0 ==> e.r > 0 || pcount(e.mask) == 0)
    &&& aq < bits.len()
    &&& bits[aq as int] == enc_dt(p)
    &&& aq + 1 + frame_q(e, input, p).len() + frame_u(e, input, p).len() <= bits.len()
    &&& bits.subrange((aq + 1) as int, (aq + 1 + frame_q(e, input, p).len()) as int) == frame_q(
        e,
        input,
        p,
    )
    &&& bits.subrange(
        (aq + 1 + frame_q(e, input, p).len()) as int,
        (aq + 1 + frame_q(e, input, p).len() + frame_u(e, input, p).len()) as int,
    ) == frame_u(e, input, p)
}

/// The packet and next state the header-phase lemmas produce.
spec fn good_step(
    e: EncModel,
    d: DecModel,
    input: Seq<bool>,
    p: CompressionParams,
    aq: nat,
) -> StepRes {
    StepRes::Good {
        out: input,
        end: aq + 1 + frame_q(e, input, p).len() + frame_u(e, input, p).len(),
        next: DecModel { mask: enc_m(e, input, p), prev_out: input, t: d.t + 1, ..d },
    }
}

/// Header phase with window changes under a positive effective robustness.
#[verifier::rlimit(100)]
proof fn lemma_h_case_changes(
    e: EncModel,
    d: DecModel,
    input: Seq<bool>,
    p: CompressionParams,
    bits: Seq<bool>,
    a2: nat,
    aq: nat,
)
    requires
        h_ctx(e, d, input, p, bits, a2, aq),
        enc_vt(e, input, p) > 0,
        pcount(enc_x(e, input, p)) > 0,
        aq == a2 + (if enc_et(e, input, p) {
            2 + pcount(enc_x(e, input, p))
        } else {
            1nat
        }),
        bits.subrange(a2 as int, aq as int) == seq![enc_et(e, input, p)] + (if enc_et(
            e,
            input,
            p,
        ) {
            befwd_bits(seq_not(enc_m(e, input, p)), enc_x(e, input, p), 0) + seq![enc_ct(
                e,
                input,
                p,
            )]
        } else {
            Seq::<bool>::empty()
        }),
    ensures
        dec_h(d, bits, a2, enc_x(e, input, p), enc_vt(e, input, p)) == good_step(
            e,
            d,
            input,
            p,
            aq,
        ),
{
    reveal(crate::decompress::dec_h);
    lemma_enc_shape(e, input, p);
    let m = enc_m(e, input, p);
    let x = enc_x(e, input, p);
    let vt = enc_vt(e, input, p);
    let et = enc_et(e, input, p);
    let ct = enc_ct(e, input, p);
    lemma_befwd_len(seq_not(m), x, 0);
    assert(x.take(0) =~= Seq::<bool>::empty());
    lemma_split_piece(
        bits,
        a2,
        seq![et],
        if et {
            befwd_bits(seq_not(m), x, 0) + seq![ct]
        } else {
            Seq::<bool>::empty()
        },
    );
    lemma_piece_at(bits, a2, seq![et], 0);
    assert(bits[a2 as int] == et);
    lemma_em_agree(e, input, p);
    if et {
        lemma_split_piece(bits, a2 + 1, befwd_bits(seq_not(m), x, 0), seq![ct]);
        lemma_piece_at(bits, a2 + 1 + pcount(x), seq![ct], 0);
        assert forall|j: int| 0 <= j < m.len() && !x[j] implies #[trigger] m[j] == d.mask[j] by {
            lemma_off_window(e, input, p, j);
        }
        lemma_kmask_rebuilds(d.mask, m, x);
        assert(a2 + 2 + pcount(x) <= bits.len());
        assert(dec_h(d, bits, a2, x, vt) == dec_q(
            d,
            bits,
            a2 + 2 + pcount(x),
            m,
            seq_and(x, seq_not(m)),
            vt,
            ct,
        ));
        lemma_q_u_inverts(e, d, input, p, bits, aq, seq_and(x, seq_not(m)), ct);
    } else {
        assert(dec_h(d, bits, a2, x, vt) == dec_q(
            d,
            bits,
            a2 + 1,
            seq_or(d.mask, x),
            zeros(d.f),
            vt,
            false,
        ));
        assert(seq_or(d.mask, x) == m);
        assert((if false && vt > 0 {
            seq_or(m, zeros(d.f))
        } else {
            m
        }) == enc_em(e, input, p));
        lemma_q_u_inverts(e, d, input, p, bits, aq, zeros(d.f), false);
    }
}

/// Header phase with window changes under a zero effective robustness:
/// the changes toggle the mask.
#[verifier::rlimit(100)]
proof fn lemma_h_case_toggle(
    e: EncModel,
    d: DecModel,
    input: Seq<bool>,
    p: CompressionParams,
    bits: Seq<bool>,
    a2: nat,
)
    requires
        h_ctx(e, d, input, p, bits, a2, a2),
        enc_vt(e, input, p) == 0,
        pcount(enc_x(e, input, p)) > 0,
    ensures
        dec_h(d, bits, a2, enc_x(e, input, p), enc_vt(e, input, p)) == good_step(
            e,
            d,
            input,
            p,
            a2,
        ),
{
    reveal(crate::decompress::dec_h);
    lemma_enc_shape(e, input, p);
    let m = enc_m(e, input, p);
    let x = enc_x(e, input, p);
    let vt = enc_vt(e, input, p);
    assert(e.r == 0);
    assert(x == change_after(e, m)) by {
        assert(x == win_or(enc_ch2(e, input, p), e.hist_i, 0));
    }
    if e.t == 0 {
        crate::bits::lemma_pcount_zero(e.mask);
        assert(m == e.mask);
        crate::bits::lemma_pcount_zero(x);
        assert(forall|j: int| 0 <= j < x.len() ==> !(#[trigger] x[j])) by {
            assert(forall|j: int| 0 <= j < e.mask.len() ==> !(#[trigger] e.mask[j]));
        }
        assert(false);
    }
    assert(seq_xor(d.mask, x) =~= m);
    assert(dec_h(d, bits, a2, x, vt) == dec_q(
        d,
        bits,
        a2,
        seq_xor(d.mask, x),
        zeros(d.f),
        vt,
        false,
    ));
    assert((if false && vt > 0 {
        seq_or(m, zeros(d.f))
    } else {
        m
    }) == enc_em(e, input, p));
    lemma_q_u_inverts(e, d, input, p, bits, a2, zeros(d.f), false);
}

/// Header phase without window changes: the mask carries over.
#[verifier::rlimit(100)]
proof fn lemma_h_case_quiet(
    e: EncModel,
    d: DecModel,
    input: Seq<bool>,
    p: CompressionParams,
    bits: Seq<bool>,
    a2: nat,
)
    requires
        h_ctx(e, d, input, p, bits, a2, a2),
        pcount(enc_x(e, input, p)) == 0,
    ensures
        dec_h(d, bits, a2, enc_x(e, input, p), enc_vt(e, input, p)) == good_step(
            e,
            d,
            input,
            p,
            a2,
        ),
{
    reveal(crate::decompress::dec_h);
    lemma_enc_shape(e, input, p);
    let m = enc_m(e, input, p);
    let x = enc_x(e, input, p);
    let vt = enc_vt(e, input, p);
    crate::bits::lemma_pcount_zero(x);
    assert(d.mask =~= m) by {
        assert forall|j: int| 0 <= j < e.f implies e.mask[j] == m[j] by {
            lemma_off_window(e, input, p, j);
        }
    }
    assert(dec_h(d, bits, a2, x, vt) == dec_q(d, bits, a2, d.mask, zeros(d.f), vt, false));
    assert(enc_em(e, input, p) == m) by {
        if enc_ct(e, input, p) && vt > 0 {
            assert(seq_or(m, x) =~= m);
        }
    }
    assert((if false && vt > 0 {
        seq_or(m, zeros(d.f))
    } else {
        m
    }) == enc_em(e, input, p));
    lemma_q_u_inverts(e, d, input, p, bits, a2, zeros(d.f), false);
}

/// The middle section of the frame header.
spec fn h_mid(e: EncModel, input: Seq<bool>, p: CompressionParams) -> Seq<bool> {
    if enc_vt(e, input, p) > 0 && pcount(enc_x(e, input, p)) > 0 {
        seq![enc_et(e, input, p)] + (if enc_et(e, input, p) {
            befwd_bits(seq_not(enc_m(e, input, p)), enc_x(e, input, p), 0) + seq![enc_ct(
                e,
                input,
                p,
            )]
        } else {
            Seq::<bool>::empty()
        })
    } else {
        Seq::<bool>::empty()
    }
}

/// Locating every field of a frame laid down at `at`.
#[verifier::rlimit(100)]
proof fn lemma_frame_sections(
    e: EncModel,
    d: DecModel,
    input: Seq<bool>,
    p: CompressionParams,
    bits: Seq<bool>,
    at: nat,
)
    requires
        enc_wf(e),
        dec_wf(d),
        coupled(d, e),
        input.len() == e.f,
        p.uncompressed_flag || e.t > 0,
        e.t == 0 ==> e.r > 0 || pcount(e.mask) == 0,
        at + frame_bits(e, input, p).len() <= bits.len(),
        bits.subrange(at as int, (at + frame_bits(e, input, p).len()) as int) == frame_bits(
            e,
            input,
            p,
        ),
    ensures
        ({
            let x = enc_x(e, input, p);
            let vt = enc_vt(e, input, p);
            let a1 = at + rle_bits(x).len();
            let a2 = a1 + 4;
            let aq = a2 + h_mid(e, input, p).len();
            &&& parse_rle(bits, at, d.f) == (RleStep::Val { v: x, end: a1 })
            &&& a1 + 4 <= bits.len()
            &&& crate::bits::seq_val(bits.subrange(a1 as int, (a1 + 4) as int)) == vt
            &&& bits.subrange(a2 as int, aq as int) == h_mid(e, input, p)
            &&& h_ctx(e, d, input, p, bits, a2, aq)
            &&& aq + 1 + frame_q(e, input, p).len() + frame_u(e, input, p).len() == at
                + frame_bits(e, input, p).len()
        }),
{
    reveal(crate::compress::frame_bits);
    lemma_enc_shape(e, input, p);
    lemma_enc_vt_le_15(e, input, p);
    let m = enc_m(e, input, p);
    let x = enc_x(e, input, p);
    let vt = enc_vt(e, input, p);
    let dt = enc_dt(p);
    let h = frame_h(e, input, p);
    let q = frame_q(e, input, p);
    let u = frame_u(e, input, p);
    let fr = frame_bits(e, input, p);
    let mid = h_mid(e, input, p);
    assert(fr == (h + q) + u);
    lemma_split_piece(bits, at, h + q, u);
    lemma_split_piece(bits, at, h, q);
    assert(h == ((rle_bits(x) + val_bits(vt as u64, 4)) + mid) + seq![dt]);
    lemma_split_piece(bits, at, (rle_bits(x) + val_bits(vt as u64, 4)) + mid, seq![dt]);
    lemma_split_piece(bits, at, rle_bits(x) + val_bits(vt as u64, 4), mid);
    lemma_split_piece(bits, at, rle_bits(x), val_bits(vt as u64, 4));
    lemma_rle_len(x);
    lemma_rle_roundtrip(bits, at, x);
    let a1 = at + rle_bits(x).len();
    vstd::arithmetic::power2::lemma2_to64();
    crate::bits::lemma_seq_val_of_val_bits(vt as u64, 4);
    let a2 = a1 + 4;
    let aq = a2 + mid.len();
    assert(aq == at + h.len() - 1);
    assert(bits[aq as int] == dt) by {
        lemma_piece_at(bits, (at + h.len() - 1) as nat, seq![dt], 0);
    }
}

/// Parsing the frame a compressor emits yields the packet itself, consumes
/// exactly the frame, and leaves the decoder's mask equal to the encoder's
/// mask after the same step (the two sides stay in lockstep).
#[verifier::rlimit(100)]
pub proof fn lemma_frame_inverts(
    e: EncModel,
    d: DecModel,
    input: Seq<bool>,
    p: CompressionParams,
    bits: Seq<bool>,
    at: nat,
)
    requires
        enc_wf(e),
        dec_wf(d),
        coupled(d, e),
        input.len() == e.f,
        p.uncompressed_flag || e.t > 0,
        e.t == 0 ==> e.r > 0 || pcount(e.mask) == 0,
        at + frame_bits(e, input, p).len() <= bits.len(),
        bits.subrange(at as int, (at + frame_bits(e, input, p).len()) as int) == frame_bits(
            e,
            input,
            p,
        ),
    ensures
        dec_step(d, bits, at) == (StepRes::Good {
            out: input,
            end: at + frame_bits(e, input, p).len(),
            next: DecModel {
                mask: enc_next(e, input, p).mask,
                prev_out: input,
                t: d.t + 1,
                ..d
            },
        }),
{
    reveal(crate::decompress::dec_step);
    reveal(crate::compress::frame_bits);
    lemma_frame_sections(e, d, input, p, bits, at);
    lemma_enc_shape(e, input, p);
    let m = enc_m(e, input, p);
    let x = enc_x(e, input, p);
    let vt = enc_vt(e, input, p);
    let a1 = at + rle_bits(x).len();
    let a2 = a1 + 4;
    let aq = a2 + h_mid(e, input, p).len();
    assert(dec_step(d, bits, at) == dec_h(d, bits, a2, x, vt));
    if vt > 0 && pcount(x) > 0 {
        lemma_befwd_len(seq_not(m), x, 0);
        assert(x.take(0) =~= Seq::<bool>::empty());
        lemma_h_case_changes(e, d, input, p, bits, a2, aq);
    } else if vt == 0 && pcount(x) > 0 {
        assert(aq == a2);
        lemma_h_case_toggle(e, d, input, p, bits, a2);
    } else {
        assert(aq == a2);
        lemma_h_case_quiet(e, d, input, p, bits, a2);
    }
    assert(enc_next(e, input, p).mask == m);
}


/// The bit string of concatenated bytes is the concatenation of the bit
/// strings.
proof fn lemma_bits_of_bytes_cat(a: Seq<u8>, b: Seq<u8>)
    ensures
        bits_of_bytes(a + b) == bits_of_bytes(a) + bits_of_bytes(b),
{
    let whole = bits_of_bytes(a + b);
    let rhs = bits_of_bytes(a) + bits_of_bytes(b);
    assert forall|i: int| 0 <= i < whole.len() implies whole[i] == rhs[i] by {
        if i < 8 * a.len() {
            assert(i / 8 < a.len()) by (nonlinear_arith)
                requires
                    0 <= i < 8 * a.len(),
            ;
            assert((a + b)[i / 8] == a[i / 8]);
        } else {
            let j = i - 8 * a.len();
            vstd::arithmetic::div_mod::lemma_fundamental_div_mod(j, 8);
            vstd::arithmetic::div_mod::lemma_fundamental_div_mod_converse(
                i,
                8,
                j / 8 + a.len() as int,
                j % 8,
            );
            assert((a + b)[i / 8] == b[j / 8]);
        }
    }
    assert(whole =~= rhs);
}

/// The packed form of a bit string carries the string as its prefix.
proof fn lemma_packed_prefix(s: Seq<bool>)
    ensures
        bits_of_bytes(bytes_of_bits(s)).len() == 8 * bytes_of_bits(s).len(),
        s.len() <= 8 * bytes_of_bits(s).len(),
        forall|i: int|
            0 <= i < s.len() ==> #[trigger] bits_of_bytes(bytes_of_bits(s))[i] == s[i],
{
    let bs = bytes_of_bits(s);
    assert forall|i: int| 0 <= i < s.len() implies #[trigger] bits_of_bytes(bs)[i] == s[i] by {
        let k = i / 8;
        let upto: int = if 8 * k + 8 <= s.len() {
            8 * k + 8
        } else {
            s.len() as int
        };
        let chunk = s.subrange(8 * k, upto);
        crate::bits::lemma_bit8_byte_of_bits(chunk, i % 8);
        assert(chunk[i % 8] == s[i]);
    }
}

/// A stepped encoder state is still well formed.
proof fn lemma_enc_next_wf(s: EncModel, input: Seq<bool>, p: CompressionParams)
    requires
        enc_wf(s),
        input.len() == s.f,
    ensures
        enc_wf(enc_next(s, input, p)),
{
    lemma_enc_shape(s, input, p);
    let s2 = enc_next(s, input, p);
    assert(forall|i: int| 0 <= i < 16 ==> (#[trigger] s2.changes[i]).len() == s2.f);
}

/// Ahead of the last packet, the compressed stream is never empty.
proof fn lemma_comp_rec_pos(e: EncModel, data: Seq<u8>, i: nat, n: nat)
    requires
        enc_wf(e),
        i < n,
    ensures
        comp_rec(e, data, i, n).len() >= 1,
{
    let pb = e.f / 8;
    let input = bits_from_bytes(data.subrange((i * pb) as int, ((i + 1) * pb) as int), e.f);
    let (p, s1) = sched_step(e, i);
    reveal(crate::compress::frame_bits);
    lemma_enc_shape(s1, input, p);
    lemma_rle_len(enc_x(s1, input, p));
    assert(frame_bits(s1, input, p).len() >= 2);
}

/// Aligning past a frame lands exactly on its packed byte length.
proof fn lemma_align_packed(at: nat, len: nat)
    requires
        at % 8 == 0,
        len >= 1,
    ensures
        align8(at + len) == at + 8 * ((len + 7) / 8),
{
    let q = (len as int) / 8;
    let r = (len as int) % 8;
    vstd::arithmetic::div_mod::lemma_fundamental_div_mod(len as int, 8);
    assert((at + len) % 8 == r && (at + len) / 8 == at / 8 + q) by {
        vstd::arithmetic::div_mod::lemma_fundamental_div_mod(at as int, 8);
        vstd::arithmetic::div_mod::lemma_fundamental_div_mod_converse(
            (at + len) as int,
            8,
            at as int / 8 + q,
            r,
        );
    }
    if r == 0 {
        assert((len as int + 7) / 8 == q) by {
            vstd::arithmetic::div_mod::lemma_fundamental_div_mod_converse(
                len as int + 7,
                8,
                q,
                7,
            );
        }
    } else {
        assert((len as int + 7) / 8 == q + 1) by {
            vstd::arithmetic::div_mod::lemma_fundamental_div_mod_converse(
                len as int + 7,
                8,
                q + 1,
                r - 1,
            );
        }
    }
}


/// Locating one packet's frame and the remaining stream inside the bits of
/// a compressed byte sequence.
#[verifier::rlimit(100)]
proof fn lemma_stream_slice(e: EncModel, data: Seq<u8>, i: nat, n: nat, bits: Seq<bool>, at: nat)
    requires
        enc_wf(e),
        e.f % 8 == 0,
        e.t == i,
        i < n,
        n * (e.f / 8) == data.len(),
        at % 8 == 0,
        at + 8 * comp_rec(e, data, i, n).len() == bits.len(),
        bits.subrange(at as int, bits.len() as int) == bits_of_bytes(comp_rec(e, data, i, n)),
    ensures
        ({
            let pb = e.f / 8;
            let pair = sched_step(e, i);
            let input = bits_from_bytes(
                data.subrange((i * pb) as int, ((i + 1) * pb) as int),
                e.f,
            );
            let frame = frame_bits(pair.1, input, pair.0);
            let fb = bytes_of_bits(frame);
            let rest = comp_rec(enc_next(pair.1, input, pair.0), data, i + 1, n);
            &&& input.len() == e.f
            &&& frame.len() >= 2
            &&& at + frame.len() <= bits.len()
            &&& bits.subrange(at as int, (at + frame.len()) as int) == frame
            &&& align8(at + frame.len()) == at + 8 * fb.len()
            &&& (at + 8 * fb.len()) % 8 == 0
            &&& at + 8 * fb.len() + 8 * rest.len() == bits.len()
            &&& bits.subrange((at + 8 * fb.len()) as int, bits.len() as int) == bits_of_bytes(
                rest,
            )
            &&& bytes_of_bits(input) == data.subrange((i * pb) as int, ((i + 1) * pb) as int)
            &&& i * pb + pb == (i + 1) * pb
            &&& (i + 1) * pb <= data.len()
        }),
{
    let pb = e.f / 8;
    let pair = sched_step(e, i);
    let p = pair.0;
    let s1 = pair.1;
    let input = bits_from_bytes(data.subrange((i * pb) as int, ((i + 1) * pb) as int), e.f);
    let frame = frame_bits(s1, input, p);
    let s2 = enc_next(s1, input, p);
    let rest = comp_rec(s2, data, i + 1, n);
    assert(comp_rec(e, data, i, n) == bytes_of_bits(frame) + rest);
    lemma_bits_of_bytes_cat(bytes_of_bits(frame), rest);
    lemma_packed_prefix(frame);
    assert forall|j: int|
        0 <= j < 8 * comp_rec(e, data, i, n).len() implies #[trigger] bits[at + j]
        == bits_of_bytes(comp_rec(e, data, i, n))[j] by {
        assert(bits.subrange(at as int, bits.len() as int)[j] == bits[at + j]);
    }
    assert((i + 1) * pb <= n * pb && i * pb + pb == (i + 1) * pb) by (nonlinear_arith)
        requires
            i < n,
    ;
    assert(frame.len() >= 2) by {
        reveal(crate::compress::frame_bits);
        lemma_enc_shape(s1, input, p);
        lemma_rle_len(enc_x(s1, input, p));
    }
    let fb = bytes_of_bits(frame);
    assert(8 * (fb.len() + rest.len()) == 8 * fb.len() + 8 * rest.len());
    assert(bits.subrange(at as int, (at + frame.len()) as int) =~= frame) by {
        assert forall|j: int| 0 <= j < frame.len() implies bits[at + j] == frame[j] by {
            assert(bits[at + j] == bits_of_bytes(comp_rec(e, data, i, n))[j]);
            assert(bits_of_bytes(comp_rec(e, data, i, n))[j] == (bits_of_bytes(fb)
                + bits_of_bytes(rest))[j]);
            assert(bits_of_bytes(fb)[j] == frame[j]);
        }
    }
    lemma_align_packed(at, frame.len());
    assert(bits.subrange((at + 8 * fb.len()) as int, bits.len() as int) =~= bits_of_bytes(rest))
        by {
        assert forall|j: int| 0 <= j < 8 * rest.len() implies bits[at + 8 * fb.len() + j]
            == bits_of_bytes(rest)[j] by {
            assert(bits[at + (8 * fb.len() + j)] == bits_of_bytes(comp_rec(e, data, i, n))[8
                * fb.len() + j]);
            assert(bits_of_bytes(comp_rec(e, data, i, n))[8 * fb.len() + j] == (bits_of_bytes(fb)
                + bits_of_bytes(rest))[8 * fb.len() + j]);
        }
    }
    assert(bytes_of_bits(input) =~= data.subrange((i * pb) as int, ((i + 1) * pb) as int)) by {
        let packet = data.subrange((i * pb) as int, ((i + 1) * pb) as int);
        assert(input =~= bits_of_bytes(packet));
        crate::bits::lemma_bytes_of_bits_of_bytes(packet);
    }
}

/// One well-parsed packet prepends its bytes to the decoded tail.
#[verifier::rlimit(100)]
proof fn lemma_decomp_cons(
    d: DecModel,
    bits: Seq<bool>,
    at: nat,
    out: Seq<bool>,
    end: nat,
    d2: DecModel,
    tail: Seq<u8>,
)
    requires
        at < bits.len(),
        dec_step(d, bits, at) == (StepRes::Good { out, end, next: d2 }),
        at < end <= bits.len(),
        align8(end) >= bits.len() ==> tail == Seq::<u8>::empty(),
        align8(end) < bits.len() ==> decomp_rec(d2, bits, align8(end)) == DRes::DOk(tail),
    ensures
        decomp_rec(d, bits, at) == DRes::DOk(bytes_of_bits(out) + tail),
{
    if align8(end) >= bits.len() {
        assert(bytes_of_bits(out) + tail =~= bytes_of_bits(out));
    }
}

/// One packet of the stream parses back to its own bytes and steps both
/// sides in lockstep.
#[verifier::rlimit(100)]
proof fn lemma_stream_step(
    e: EncModel,
    d: DecModel,
    data: Seq<u8>,
    i: nat,
    n: nat,
    bits: Seq<bool>,
    at: nat,
)
    requires
        enc_wf(e),
        dec_wf(d),
        coupled(d, e),
        e.f % 8 == 0,
        e.pt_limit >= 1,
        e.ft_limit >= 1,
        e.rt_limit >= 1,
        e.t == i,
        i < n,
        n * (e.f / 8) == data.len(),
        e.t == 0 ==> pcount(e.mask) == 0,
        at % 8 == 0,
        at + 8 * comp_rec(e, data, i, n).len() == bits.len(),
        bits.subrange(at as int, bits.len() as int) == bits_of_bytes(comp_rec(e, data, i, n)),
    ensures
        ({
            let pb = e.f / 8;
            let pair = sched_step(e, i);
            let input = bits_from_bytes(
                data.subrange((i * pb) as int, ((i + 1) * pb) as int),
                e.f,
            );
            let frame = frame_bits(pair.1, input, pair.0);
            let fb = bytes_of_bits(frame);
            let s2 = enc_next(pair.1, input, pair.0);
            let rest = comp_rec(s2, data, i + 1, n);
            &&& input.len() == e.f
            &&& dec_step(d, bits, at) == (StepRes::Good {
                out: input,
                end: at + frame.len(),
                next: DecModel { mask: s2.mask, prev_out: input, t: d.t + 1, ..d },
            })
            &&& at < at + frame.len() <= bits.len()
            &&& align8(at + frame.len()) == at + 8 * fb.len()
            &&& (at + 8 * fb.len()) % 8 == 0
            &&& at + 8 * fb.len() + 8 * rest.len() == bits.len()
            &&& bits.subrange((at + 8 * fb.len()) as int, bits.len() as int) == bits_of_bytes(
                rest,
            )
            &&& bytes_of_bits(input) == data.subrange((i * pb) as int, ((i + 1) * pb) as int)
            &&& i * pb + pb == (i + 1) * pb
            &&& (i + 1) * pb <= data.len()
            &&& enc_wf(s2)
            &&& s2.t == i + 1
            &&& s2.f == e.f
            &&& s2.pt_limit == e.pt_limit && s2.ft_limit == e.ft_limit && s2.rt_limit
                == e.rt_limit
            &&& s2.pt_ctr == pair.1.pt_ctr && s2.ft_ctr == pair.1.ft_ctr && s2.rt_ctr
                == pair.1.rt_ctr
        }),
{
    lemma_stream_slice(e, data, i, n, bits, at);
    let pb = e.f / 8;
    let pair = sched_step(e, i);
    let p = pair.0;
    let s1 = pair.1;
    let input = bits_from_bytes(data.subrange((i * pb) as int, ((i + 1) * pb) as int), e.f);
    assert(enc_wf(s1));
    assert(coupled(d, s1));
    assert(p.uncompressed_flag || s1.t > 0) by {
        if i == 0 {
        }
    }
    lemma_frame_inverts(s1, d, input, p, bits, at);
    lemma_enc_next_wf(s1, input, p);
}

/// Decoding the remaining packets of a compressed stream yields the
/// remaining packets of the original buffer.
#[verifier::rlimit(100)]
proof fn lemma_stream_rec(
    e: EncModel,
    d: DecModel,
    data: Seq<u8>,
    i: nat,
    n: nat,
    bits: Seq<bool>,
    at: nat,
)
    requires
        enc_wf(e),
        dec_wf(d),
        coupled(d, e),
        e.f % 8 == 0,
        e.pt_limit >= 1,
        e.ft_limit >= 1,
        e.rt_limit >= 1,
        e.pt_ctr >= 1,
        e.ft_ctr >= 1,
        e.rt_ctr >= 1,
        e.t == i,
        i <= n,
        n * (e.f / 8) == data.len(),
        e.t == 0 ==> pcount(e.mask) == 0,
        at % 8 == 0,
        at + 8 * comp_rec(e, data, i, n).len() == bits.len(),
        bits.subrange(at as int, bits.len() as int) == bits_of_bytes(comp_rec(e, data, i, n)),
    ensures
        decomp_rec(d, bits, at) == DRes::DOk(
            data.subrange((i * (e.f / 8)) as int, data.len() as int),
        ),
    decreases n - i,
{
    let pb = e.f / 8;
    if i >= n {
        assert(comp_rec(e, data, i, n).len() == 0);
        assert(at == bits.len());
        assert(data.subrange((i * pb) as int, data.len() as int) =~= Seq::<u8>::empty()) by {
            assert(i * pb == n * pb) by (nonlinear_arith)
                requires
                    i == n,
            ;
        }
    } else {
        lemma_stream_step(e, d, data, i, n, bits, at);
        let pair = sched_step(e, i);
        let s1 = pair.1;
        let input = bits_from_bytes(data.subrange((i * pb) as int, ((i + 1) * pb) as int), e.f);
        let frame = frame_bits(s1, input, pair.0);
        let fb = bytes_of_bits(frame);
        let s2 = enc_next(s1, input, pair.0);
        let rest = comp_rec(s2, data, i + 1, n);
        let end = at + frame.len();
        let a2 = at + 8 * fb.len();
        let d2 = DecModel { mask: s2.mask, prev_out: input, t: d.t + 1, ..d };
        assert(s2.pt_ctr >= 1 && s2.ft_ctr >= 1 && s2.rt_ctr >= 1);
        lemma_stream_rec(s2, d2, data, i + 1, n, bits, a2);
        let tail = data.subrange(((i + 1) * pb) as int, data.len() as int);
        if a2 >= bits.len() {
            assert(rest.len() == 0);
            if i + 1 < n {
                lemma_comp_rec_pos(s2, data, i + 1, n);
            }
            assert(i + 1 == n);
            assert(tail =~= Seq::<u8>::empty()) by {
                assert((i + 1) * pb == n * pb) by (nonlinear_arith)
                    requires
                        i + 1 == n,
                ;
            }
        }
        lemma_decomp_cons(d, bits, at, input, end, d2, tail);
        assert(bytes_of_bits(input) + tail =~= data.subrange((i * pb) as int, data.len() as int));
    }
}

/// The round trip: decompressing a compressed buffer gives the buffer back
/// (for a nonempty buffer of whole packets and valid parameters).
pub proof fn lemma_stream_roundtrip(data: Seq<u8>, f: nat, r: nat, pt: nat, ft: nat, rt: nat)
    requires
        1 <= f <= 65535,
        f % 8 == 0,
        r <= 7,
        pt >= 1,
        ft >= 1,
        rt >= 1,
        data.len() % (f / 8) == 0,
        data.len() > 0,
    ensures
        spec_decompress_bytes(spec_compress_bytes(data, f, r, pt, ft, rt), f, r) == DRes::DOk(
            data,
        ),
{
    let pb = f / 8;
    let n = data.len() / pb;
    let e0 = enc_init(f, zeros(f), r, pt, ft, rt);
    let d0 = dec_init(f, zeros(f), r);
    let compressed = spec_compress_bytes(data, f, r, pt, ft, rt);
    let bits = bits_of_bytes(compressed);
    vstd::arithmetic::div_mod::lemma_fundamental_div_mod(data.len() as int, pb as int);
    assert(n * pb == data.len());
    crate::bits::lemma_pcount_zero(zeros(f));
    assert(pcount(zeros(f)) == 0);
    assert(bits.subrange(0, bits.len() as int) =~= bits);
    lemma_stream_rec(e0, d0, data, 0, n, bits, 0);
    assert(data.subrange(0, data.len() as int) =~= data);
}

} // verus!
