//! The wire format, as functions on bit strings.
//!
//! Everything a compressed stream is made of — counter fields (COUNT),
//! run-length encodings (RLE), extracted bit fields (BE) and the horizontal
//! exclusive-or of a mask — is defined here twice: as the bit string an
//! encoder emits, and as a parser over a bit string.  The round-trip lemmas
//! prove that the parser recovers exactly what the encoder emitted.

use vstd::prelude::*;

verus! {

use crate::bits::{pcount, seq_val, val_bit, val_bits, zeros};
use vstd::arithmetic::power2::pow2;

// ------------------------------------------------------------------
// COUNT: variable-length encoding of 1..=65535.
// ------------------------------------------------------------------

/// The floor of the base-2 logarithm (0 for inputs below 2).
pub open spec fn log2(n: nat) -> nat
    decreases n,
{
    if n < 2 {
        0
    } else {
        1 + log2(n / 2)
    }
}

/// Length of the value field of a large counter (input of 34 or more).
pub open spec fn count_field_len(a: nat) -> nat
    recommends
        a >= 34,
{
    (2 * log2((a - 2) as nat) - 4) as nat
}

/// The counter encoding of `a` (1 to 65535).
pub open spec fn count_bits(a: nat) -> Seq<bool>
    recommends
        1 <= a <= 65535,
{
    if a == 1 {
        seq![false]
    } else if a <= 33 {
        seq![true, true, false] + val_bits((a - 2) as u64, 5)
    } else {
        seq![true, true, true] + val_bits((a - 2) as u64, count_field_len(a))
    }
}

/// Length of the zero run in `bits` starting at `at`.
pub open spec fn zrun(bits: Seq<bool>, at: nat) -> nat
    decreases bits.len() - at,
{
    if at >= bits.len() {
        0
    } else if bits[at as int] {
        0
    } else {
        1 + zrun(bits, at + 1)
    }
}

/// Outcome of parsing one counter field.
pub enum CountStep {
    /// The input ended inside the field.
    Short,
    /// The value field would be wider than a 32-bit read allows.
    TooWide,
    /// A value (0 means the run-length terminator) ending at `end`.
    Val { a: nat, end: nat },
}

/// Parse one counter field at position `at`; mirrors a reader that takes
/// the value plus 2 modulo 2^32 from the stream.
pub open spec fn parse_count(bits: Seq<bool>, at: nat) -> CountStep {
    if at >= bits.len() {
        CountStep::Short
    } else if !bits[at as int] {
        CountStep::Val { a: 1, end: at + 1 }
    } else if at + 1 >= bits.len() {
        CountStep::Short
    } else if !bits[at + 1 as int] {
        CountStep::Val { a: 0, end: at + 2 }
    } else if at + 2 >= bits.len() {
        CountStep::Short
    } else if !bits[at + 2 as int] {
        if at + 8 > bits.len() {
            CountStep::Short
        } else {
            CountStep::Val {
                a: seq_val(bits.subrange(at + 3 as int, at + 8 as int)) + 2,
                end: at + 8,
            }
        }
    } else {
        let z = zrun(bits, at + 3);
        if at + 3 + z >= bits.len() {
            CountStep::Short
        } else if z + 6 > 32 {
            CountStep::TooWide
        } else if at + 3 + z + (z + 6) > bits.len() {
            CountStep::Short
        } else {
            CountStep::Val {
                a: (seq_val(bits.subrange((at + 3 + z) as int, (at + 3 + z + (z + 6)) as int)) + 2) % 0x1_0000_0000,
                end: at + 3 + z + (z + 6),
            }
        }
    }
}

// ------------------------------------------------------------------
// Facts about log2.
// ------------------------------------------------------------------

/// `log2` brackets its argument between two powers of two.
pub proof fn lemma_log2_bracket(n: nat)
    requires
        n >= 1,
    ensures
        pow2(log2(n)) <= n < pow2(log2(n) + 1),
    decreases n,
{
    vstd::arithmetic::power2::lemma2_to64();
    if n < 2 {
    } else {
        lemma_log2_bracket(n / 2);
        vstd::arithmetic::power2::lemma_pow2_unfold(log2(n));
        vstd::arithmetic::power2::lemma_pow2_unfold(log2(n) + 1);
    }
}

/// `log2` is at least `k` whenever the argument reaches `2^k`.
pub proof fn lemma_log2_ge(n: nat, k: nat)
    requires
        pow2(k) <= n,
    ensures
        log2(n) >= k,
{
    vstd::arithmetic::power2::lemma_pow2_pos(k);
    lemma_log2_bracket(n);
    if log2(n) < k {
        if log2(n) + 1 < k {
            vstd::arithmetic::power2::lemma_pow2_strictly_increases(log2(n) + 1, k);
        }
        assert(false);
    }
}

/// `log2` stays below `k` whenever the argument is below `2^k`.
pub proof fn lemma_log2_lt(n: nat, k: nat)
    requires
        1 <= n < pow2(k),
    ensures
        log2(n) < k,
{
    lemma_log2_bracket(n);
    if log2(n) >= k {
        if log2(n) > k {
            vstd::arithmetic::power2::lemma_pow2_strictly_increases(k, log2(n));
        }
    }
}

// ------------------------------------------------------------------
// Facts about val_bits fields.
// ------------------------------------------------------------------

/// Bits above the leading one of the value are zero.
proof fn lemma_val_bit_high(v: u64, n: nat, i: int)
    requires
        0 <= i < n <= 64,
        (v as nat) < pow2((n - 1 - i) as nat),
    ensures
        !val_bit(v, n, i),
{
    let s = (n - 1 - i) as u64;
    vstd::bits::lemma_u64_shr_is_div(v, s);
    assert(v as nat / pow2(s as nat) == 0) by {
        vstd::arithmetic::power2::lemma_pow2_pos(s as nat);
        vstd::arithmetic::div_mod::lemma_basic_div(v as int, pow2(s as nat) as int);
    }
    assert(0u64 & 1 == 0) by (bit_vector);
}

/// The bit at the leading one of the value is one.
proof fn lemma_val_bit_top(v: u64, n: nat, i: int)
    requires
        0 <= i < n <= 64,
        pow2((n - 1 - i) as nat) <= (v as nat) < 2 * pow2((n - 1 - i) as nat),
    ensures
        val_bit(v, n, i),
{
    let s = (n - 1 - i) as u64;
    vstd::bits::lemma_u64_shr_is_div(v, s);
    let p = pow2(s as nat) as int;
    assert(p > 0) by {
        vstd::arithmetic::power2::lemma_pow2_pos(s as nat);
    }
    assert(v as int / p == 1) by (nonlinear_arith)
        requires
            p > 0,
            p <= (v as int),
            (v as int) < 2 * p,
    ;
    assert(1u64 & 1 == 1) by (bit_vector);
}

/// A zero run in `bits` of exact length `z` pins down `zrun`.
pub proof fn lemma_zrun_exact(bits: Seq<bool>, at: nat, z: nat)
    requires
        at + z < bits.len(),
        forall|k: int| 0 <= k < z ==> !(#[trigger] bits[at + k]),
        bits[(at + z) as int],
    ensures
        zrun(bits, at) == z,
    decreases z,
{
    if z == 0 {
    } else {
        assert(!bits[at as int + 0]);
        assert forall|k: int| 0 <= k < z - 1 implies !(#[trigger] bits[at as int + 1 + k]) by {
            assert(!bits[at as int + (k + 1)]);
        }
        lemma_zrun_exact(bits, at + 1, (z - 1) as nat);
    }
}

/// A zero run that reaches the end of the input.
pub proof fn lemma_zrun_all_zero(bits: Seq<bool>, at: nat, z: nat)
    requires
        at + z == bits.len(),
        forall|k: int| 0 <= k < z ==> !(#[trigger] bits[at + k]),
    ensures
        zrun(bits, at) == z,
    decreases z,
{
    if z > 0 {
        assert(!bits[at as int + 0]);
        assert forall|k: int| 0 <= k < z - 1 implies !(#[trigger] bits[at as int + 1 + k]) by {
            assert(!bits[at as int + (k + 1)]);
        }
        lemma_zrun_all_zero(bits, at + 1, (z - 1) as nat);
    }
}

/// The low `m` bits of a value below `2^m`, read as an `m`-bit field,
/// are the suffix of any wider field holding the value.
proof fn lemma_val_bits_suffix(v: u64, n: nat, m: nat)
    requires
        m <= n <= 64,
    ensures
        val_bits(v, n).subrange((n - m) as int, n as int) =~= val_bits(v, m),
{
    assert forall|i: int| 0 <= i < m implies val_bits(v, n)[(n - m) + i] == val_bits(v, m)[i] by {
        assert(val_bit(v, n, (n - m) as int + i) == val_bit(v, m, i));
    }
}

// ------------------------------------------------------------------
// COUNT round-trip.
// ------------------------------------------------------------------

/// Length of the counter encoding.
pub open spec fn count_len(a: nat) -> nat
    recommends
        1 <= a <= 65535,
{
    count_bits(a).len()
}

/// Parsing a counter field laid down at `at` recovers the value and
/// consumes exactly the field (whatever follows it).
pub proof fn lemma_count_roundtrip(bits: Seq<bool>, at: nat, a: nat)
    requires
        1 <= a <= 65535,
        at + count_len(a) <= bits.len(),
        bits.subrange(at as int, (at + count_len(a)) as int) == count_bits(a),
    ensures
        parse_count(bits, at) == (CountStep::Val { a, end: at + count_len(a) }),
{
    vstd::arithmetic::power2::lemma2_to64();
    let cb = count_bits(a);
    if a == 1 {
        lemma_piece_at(bits, at, cb, 0);
        assert(!bits[at as int]);
    } else if a <= 33 {
        let v = (a - 2) as u64;
        lemma_piece_at(bits, at, cb, 0);
        lemma_piece_at(bits, at, cb, 1);
        lemma_piece_at(bits, at, cb, 2);
        assert(bits[at as int] && bits[at + 1 as int] && !bits[at + 2 as int]);
        assert(bits.subrange(at + 3 as int, at + 8 as int) =~= val_bits(v, 5)) by {
            let sub = bits.subrange(at + 3 as int, at + 8 as int);
            assert forall|i: int| 0 <= i < 5 implies sub[i] == val_bits(v, 5)[i] by {
                lemma_piece_at(bits, at, cb, 3 + i);
                assert(sub[i] == bits[at + 3 + i]);
                assert(bits[at as int + (3 + i)] == cb[3 + i]);
            }
        }
        lemma_seq_val_of_val_bits_wrap(v, 5);
        assert(parse_count(bits, at) == (CountStep::Val { a, end: at + 8 }));
    } else {
        let v = (a - 2) as u64;
        let hb = log2(v as nat);
        lemma_log2_bracket(v as nat);
        lemma_log2_ge(v as nat, 5);
        lemma_log2_lt(v as nat, 16);
        let e = count_field_len(a);
        assert(e == 2 * hb - 4);
        let z = (e - 1 - hb) as nat;
        assert(cb.len() == 3 + e);
        lemma_piece_at(bits, at, cb, 0);
        lemma_piece_at(bits, at, cb, 1);
        lemma_piece_at(bits, at, cb, 2);
        assert(bits[at as int] && bits[at + 1 as int] && bits[at + 2 as int]);
        // the value field: z zero bits, then the leading one
        assert forall|k: int| 0 <= k < z implies !(#[trigger] bits[at + 3 + k]) by {
            assert((v as nat) < pow2((e - 1 - k) as nat)) by {
                assert(hb + 1 <= e - 1 - k);
                if hb + 1 < e - 1 - k {
                    vstd::arithmetic::power2::lemma_pow2_strictly_increases(
                        hb + 1,
                        (e - 1 - k) as nat,
                    );
                }
            }
            lemma_val_bit_high(v, e, k);
            lemma_piece_at(bits, at, cb, 3 + k);
        }
        assert(bits[(at + 3 + z) as int]) by {
            vstd::arithmetic::power2::lemma_pow2_unfold(hb + 1);
            lemma_val_bit_top(v, e, z as int);
            lemma_piece_at(bits, at, cb, 3 + z as int);
        }
        assert(zrun(bits, at + 3) == z) by {
            assert(bits[(at + 3) + z as int]);
            lemma_zrun_exact(bits, at + 3, z);
        }
        let vb = z + 6;
        assert(vb == hb + 1);
        assert(vb <= 32);
        assert(at + 3 + z + vb == at + 3 + e);
        assert(bits.subrange((at + 3 + z) as int, (at + 3 + z + vb) as int) =~= val_bits(
            v,
            vb,
        )) by {
            lemma_val_bits_suffix(v, e, vb);
            let sub = bits.subrange((at + 3 + z) as int, (at + 3 + z + vb) as int);
            assert forall|i: int| 0 <= i < vb implies sub[i] == val_bits(v, vb)[i] by {
                lemma_piece_at(bits, at, cb, 3 + z + i);
                assert(sub[i] == bits[(at + 3 + z) as int + i]);
                assert(bits[at as int + (3 + z + i)] == cb[3 + z as int + i]);
                assert(cb[3 + z as int + i] == val_bits(v, e)[z + i]);
                assert(val_bits(v, e).subrange((e - vb) as int, e as int)[i] == val_bits(
                    v,
                    e,
                )[z + i]);
            }
        }
        assert((v as nat) < pow2(vb)) by {
            vstd::arithmetic::power2::lemma_pow2_unfold(hb + 1);
        }
        lemma_seq_val_of_val_bits_wrap(v, vb);
        assert(parse_count(bits, at) == (CountStep::Val { a, end: at + 3 + e }));
    }
}

/// One position of a piece laid down inside a longer bit string.
pub proof fn lemma_piece_at(bits: Seq<bool>, at: nat, piece: Seq<bool>, k: int)
    requires
        at + piece.len() <= bits.len(),
        bits.subrange(at as int, (at + piece.len()) as int) == piece,
        0 <= k < piece.len(),
    ensures
        bits[at + k] == piece[k],
{
    assert(bits.subrange(at as int, (at + piece.len()) as int)[k] == bits[at + k]);
}

/// Small values pass unchanged through the reader's modular addition.
proof fn lemma_seq_val_of_val_bits_wrap(v: u64, n: nat)
    requires
        n <= 32,
        (v as nat) < pow2(n),
        (v as nat) + 2 <= 65535,
    ensures
        seq_val(val_bits(v, n)) == v,
        (seq_val(val_bits(v, n)) + 2) % 0x1_0000_0000 == v + 2,
{
    crate::bits::lemma_seq_val_of_val_bits(v, n);
}

/// A successful counter parse consumed at least one bit and stayed inside
/// the input.
pub proof fn lemma_parse_count_bounds(bits: Seq<bool>, at: nat)
    ensures
        parse_count(bits, at) matches CountStep::Val { a, end } ==> at < end <= bits.len(),
{
}


// ------------------------------------------------------------------
// RLE: gaps between set bits, walked from the back, then a terminator.
// ------------------------------------------------------------------

/// The run-length encoding of the first `i` positions of `v`, where
/// `anchor` is the previously encoded set position (the length at first).
pub open spec fn rle_bits_rec(v: Seq<bool>, i: int, anchor: int) -> Seq<bool>
    recommends
        0 <= i <= anchor <= v.len(),
    decreases i,
{
    if i <= 0 {
        seq![true, false]
    } else if v[i - 1] {
        count_bits((anchor - (i - 1)) as nat) + rle_bits_rec(v, i - 1, i - 1)
    } else {
        rle_bits_rec(v, i - 1, anchor)
    }
}

/// The run-length encoding of `v`.
pub open spec fn rle_bits(v: Seq<bool>) -> Seq<bool> {
    rle_bits_rec(v, v.len() as int, v.len() as int)
}

/// Outcome of parsing a run-length encoding.
pub enum RleStep {
    /// The input ended inside the encoding.
    Short,
    /// A counter field inside was wider than a 32-bit read allows.
    TooWide,
    /// A gap would place a set bit before position 0.
    BadPosition,
    /// The decoded vector, ending at `end`.
    Val { v: Seq<bool>, end: nat },
}

/// Parse counter fields at `at`, setting bits downward from `pos`, until
/// the terminator; a gap larger than the remaining room is an impossible
/// position and fails the parse.
pub open spec fn parse_rle_rec(bits: Seq<bool>, at: nat, pos: nat, acc: Seq<bool>) -> RleStep
    decreases bits.len() - at,
{
    match parse_count(bits, at) {
        CountStep::Short => RleStep::Short,
        CountStep::TooWide => RleStep::TooWide,
        CountStep::Val { a, end } => {
            if a == 0 {
                RleStep::Val { v: acc, end }
            } else if at < end <= bits.len() {
                if a <= pos {
                    parse_rle_rec(bits, end, (pos - a) as nat, acc.update(pos - a, true))
                } else {
                    RleStep::BadPosition
                }
            } else {
                RleStep::Short
            }
        },
    }
}

/// Parse the run-length encoding of an `f`-bit vector at `at`.
pub open spec fn parse_rle(bits: Seq<bool>, at: nat, f: nat) -> RleStep {
    parse_rle_rec(bits, at, f, zeros(f))
}

/// A counter encoding never exceeds 8 bits per unit of its value.
pub proof fn lemma_count_len_le(a: nat)
    requires
        1 <= a <= 65535,
    ensures
        1 <= count_len(a) <= 8 * a,
{
    if a >= 34 {
        let v = (a - 2) as nat;
        vstd::arithmetic::power2::lemma2_to64();
        lemma_log2_ge(v, 5);
        lemma_log2_lt(v, 16);
    }
}

/// A counter encoding is never longer than 29 bits.
pub proof fn lemma_count_len_cap(a: nat)
    requires
        1 <= a <= 65535,
    ensures
        1 <= count_len(a) <= 29,
{
    if a >= 34 {
        let v = (a - 2) as nat;
        vstd::arithmetic::power2::lemma2_to64();
        lemma_log2_ge(v, 5);
        lemma_log2_lt(v, 16);
    }
}

/// A run-length encoding of a prefix fits in 8 bits per position plus 2.
pub proof fn lemma_rle_rec_len(v: Seq<bool>, i: int, anchor: int)
    requires
        0 <= i <= anchor <= v.len() <= 65535,
    ensures
        2 <= rle_bits_rec(v, i, anchor).len() <= 8 * anchor + 2,
    decreases i,
{
    if i <= 0 {
    } else if v[i - 1] {
        lemma_count_len_le((anchor - (i - 1)) as nat);
        lemma_rle_rec_len(v, i - 1, i - 1);
    } else {
        lemma_rle_rec_len(v, i - 1, anchor);
    }
}

/// A run-length encoding fits in 8 bits per position plus a terminator.
pub proof fn lemma_rle_len(v: Seq<bool>)
    requires
        v.len() <= 65535,
    ensures
        2 <= rle_bits(v).len() <= 8 * v.len() + 2,
{
    lemma_rle_rec_len(v, v.len() as int, v.len() as int);
}

/// Two pieces laid down in sequence are each found at their offset.
pub proof fn lemma_split_piece(bits: Seq<bool>, at: nat, a: Seq<bool>, b: Seq<bool>)
    requires
        at + a.len() + b.len() <= bits.len(),
        bits.subrange(at as int, (at + a.len() + b.len()) as int) == a + b,
    ensures
        bits.subrange(at as int, (at + a.len()) as int) == a,
        bits.subrange((at + a.len()) as int, (at + a.len() + b.len()) as int) == b,
{
    let whole = a + b;
    assert(bits.subrange(at as int, (at + a.len()) as int) =~= a) by {
        let sub = bits.subrange(at as int, (at + a.len()) as int);
        assert forall|k: int| 0 <= k < a.len() implies sub[k] == a[k] by {
            lemma_piece_at(bits, at, whole, k);
            assert(sub[k] == bits[at + k]);
            assert(whole[k] == a[k]);
        }
    }
    assert(bits.subrange((at + a.len()) as int, (at + a.len() + b.len()) as int) =~= b) by {
        let sub = bits.subrange((at + a.len()) as int, (at + a.len() + b.len()) as int);
        assert forall|k: int| 0 <= k < b.len() implies sub[k] == b[k] by {
            lemma_piece_at(bits, at, whole, a.len() + k);
            assert(sub[k] == bits[(at + a.len()) as int + k]);
            assert(whole[a.len() + k] == b[k]);
        }
    }
}

/// A parsed run-length vector has the length it was asked for.
pub proof fn lemma_parse_rle_len(bits: Seq<bool>, at: nat, f: nat)
    ensures
        parse_rle(bits, at, f) matches RleStep::Val { v, end } ==> v.len() == f,
{
    lemma_parse_rle_rec_len(bits, at, f, zeros(f));
}

proof fn lemma_parse_rle_rec_len(bits: Seq<bool>, at: nat, pos: nat, acc: Seq<bool>)
    requires
        pos <= acc.len(),
    ensures
        parse_rle_rec(bits, at, pos, acc) matches RleStep::Val { v, end } ==> v.len()
            == acc.len(),
    decreases bits.len() - at,
{
    match parse_count(bits, at) {
        CountStep::Val { a, end } => {
            if a != 0 && at < end <= bits.len() {
                if a <= pos {
                    let acc2 = acc.update(pos - a, true);
                    assert(acc2.len() == acc.len());
                    lemma_parse_rle_rec_len(bits, end, (pos - a) as nat, acc2);
                    assert(parse_rle_rec(bits, at, pos, acc) == parse_rle_rec(
                        bits,
                        end,
                        (pos - a) as nat,
                        acc2,
                    ));
                }
            }
        },
        _ => {},
    }
}

/// Parsing a run-length encoding laid down at `at` recovers the vector.
pub proof fn lemma_rle_roundtrip(bits: Seq<bool>, at: nat, v: Seq<bool>)
    requires
        v.len() <= 65535,
        at + rle_bits(v).len() <= bits.len(),
        bits.subrange(at as int, (at + rle_bits(v).len()) as int) == rle_bits(v),
    ensures
        parse_rle(bits, at, v.len()) == (RleStep::Val { v, end: at + rle_bits(v).len() }),
{
    lemma_rle_rec_roundtrip(bits, at, v, v.len() as int, v.len() as int, zeros(v.len()));
}

proof fn lemma_rle_rec_roundtrip(
    bits: Seq<bool>,
    at: nat,
    v: Seq<bool>,
    i: int,
    anchor: int,
    acc: Seq<bool>,
)
    requires
        0 <= i <= anchor <= v.len() <= 65535,
        acc.len() == v.len(),
        forall|j: int| anchor <= j < v.len() ==> #[trigger] acc[j] == v[j],
        forall|j: int| 0 <= j < anchor ==> !(#[trigger] acc[j]),
        forall|j: int| i <= j < anchor ==> !(#[trigger] v[j]),
        at + rle_bits_rec(v, i, anchor).len() <= bits.len(),
        bits.subrange(at as int, (at + rle_bits_rec(v, i, anchor).len()) as int) == rle_bits_rec(
            v,
            i,
            anchor,
        ),
    ensures
        parse_rle_rec(bits, at, anchor as nat, acc) == (RleStep::Val {
            v,
            end: at + rle_bits_rec(v, i, anchor).len(),
        }),
    decreases i,
{
    let rb = rle_bits_rec(v, i, anchor);
    if i <= 0 {
        lemma_piece_at(bits, at, rb, 0);
        lemma_piece_at(bits, at, rb, 1);
        assert(bits[at as int + 0] && !bits[at as int + 1]);
        assert(parse_count(bits, at) == (CountStep::Val { a: 0, end: at + 2 }));
        assert(acc =~= v);
    } else if v[i - 1] {
        let d = (anchor - (i - 1)) as nat;
        let rest = rle_bits_rec(v, i - 1, i - 1);
        lemma_split_piece(bits, at, count_bits(d), rest);
        lemma_count_roundtrip(bits, at, d);
        let at2 = at + count_len(d);
        let acc2 = acc.update(anchor - d, true);
        assert(anchor - d == i - 1);
        lemma_rle_rec_roundtrip(bits, at2, v, i - 1, i - 1, acc2);
    } else {
        lemma_rle_rec_roundtrip(bits, at, v, i - 1, anchor, acc);
    }
}

// ------------------------------------------------------------------
// BE: data bits at set mask positions, highest position first (and a
// forward variant, lowest position first).
// ------------------------------------------------------------------

/// Bits of `data` at set positions of `mask` below `i`, highest first.
pub open spec fn be_bits(data: Seq<bool>, mask: Seq<bool>, i: int) -> Seq<bool>
    recommends
        data.len() == mask.len(),
        i <= mask.len(),
    decreases i,
{
    if i <= 0 {
        Seq::empty()
    } else if mask[i - 1] {
        seq![data[i - 1]] + be_bits(data, mask, i - 1)
    } else {
        be_bits(data, mask, i - 1)
    }
}

/// Bits of `data` at set positions of `mask` from `i` up, lowest first.
pub open spec fn befwd_bits(data: Seq<bool>, mask: Seq<bool>, i: int) -> Seq<bool>
    recommends
        data.len() == mask.len(),
        0 <= i,
    decreases mask.len() - i,
{
    if i < 0 || i >= mask.len() {
        Seq::empty()
    } else if mask[i] {
        seq![data[i]] + befwd_bits(data, mask, i + 1)
    } else {
        befwd_bits(data, mask, i + 1)
    }
}

/// The backward extraction of the first `i` positions has one bit per set
/// mask position.
pub proof fn lemma_be_len(data: Seq<bool>, mask: Seq<bool>, i: int)
    requires
        0 <= i <= mask.len(),
    ensures
        be_bits(data, mask, i).len() == pcount(mask.take(i)),
    decreases i,
{
    if i > 0 {
        lemma_be_len(data, mask, i - 1);
        crate::bits::lemma_pcount_take_step(mask, i - 1);
    }
}

/// Bit extraction emits exactly the Hamming weight of the mask.
pub proof fn lemma_be_emits_popcount(data: Seq<bool>, mask: Seq<bool>)
    requires
        data.len() == mask.len(),
    ensures
        be_bits(data, mask, mask.len() as int).len() == pcount(mask),
{
    lemma_be_len(data, mask, mask.len() as int);
    crate::bits::lemma_pcount_take_all(mask);
}

/// The forward extraction from `i` up has one bit per remaining set position.
pub proof fn lemma_befwd_len(data: Seq<bool>, mask: Seq<bool>, i: int)
    requires
        0 <= i <= mask.len(),
    ensures
        befwd_bits(data, mask, i).len() == pcount(mask) - pcount(mask.take(i)),
    decreases mask.len() - i,
{
    if i == mask.len() {
        crate::bits::lemma_pcount_take_all(mask);
    } else {
        lemma_befwd_len(data, mask, i + 1);
        crate::bits::lemma_pcount_take_step(mask, i);
        crate::bits::lemma_pcount_take_mono(mask, i + 1, mask.len() as int);
    }
}

/// In a backward extraction, the bit for set position `j` sits at the
/// index counting the set positions above `j`.
pub proof fn lemma_be_index(data: Seq<bool>, mask: Seq<bool>, i: int, j: int)
    requires
        0 <= j < i <= mask.len(),
        mask[j],
    ensures
        pcount(mask.subrange(j + 1, i)) < be_bits(data, mask, i).len(),
        be_bits(data, mask, i)[pcount(mask.subrange(j + 1, i)) as int] == data[j],
    decreases i,
{
    lemma_be_len(data, mask, i);
    if i - 1 == j {
        assert(mask.subrange(j + 1, i) =~= Seq::<bool>::empty());
    } else {
        assert(mask.subrange(j + 1, i).drop_last() =~= mask.subrange(j + 1, i - 1));
        assert(mask.subrange(j + 1, i).last() == mask[i - 1]);
        lemma_be_index(data, mask, i - 1, j);
    }
}

/// In a forward extraction from `i`, the bit for set position `j` sits at
/// the index counting the set positions in between.
pub proof fn lemma_befwd_index(data: Seq<bool>, mask: Seq<bool>, i: int, j: int)
    requires
        0 <= i <= j < mask.len(),
        mask[j],
    ensures
        pcount(mask.subrange(i, j)) < befwd_bits(data, mask, i).len(),
        befwd_bits(data, mask, i)[pcount(mask.subrange(i, j)) as int] == data[j],
    decreases j - i,
{
    if i == j {
        assert(mask.subrange(i, j) =~= Seq::<bool>::empty());
    } else {
        assert(mask.subrange(i, j).drop_first() =~= mask.subrange(i + 1, j));
        crate::bits::lemma_pcount_drop_first(mask.subrange(i, j));
        lemma_befwd_index(data, mask, i + 1, j);
    }
}

/// The count of set positions above `j` (the stream index of `j`'s bit in
/// a backward extraction).
pub open spec fn rank_from_top(mask: Seq<bool>, j: int) -> nat {
    pcount(mask.subrange(j + 1, mask.len() as int))
}

/// The count of set positions below `j` (the stream index of `j`'s bit in
/// a forward extraction).
pub open spec fn rank_from_bot(mask: Seq<bool>, j: int) -> nat {
    pcount(mask.take(j))
}

/// Overwrite `base` at the set positions of `mask` with the bits of `ks`,
/// which are given highest position first.
pub open spec fn insert_bits(base: Seq<bool>, mask: Seq<bool>, ks: Seq<bool>) -> Seq<bool>
    recommends
        base.len() == mask.len(),
        ks.len() == pcount(mask),
{
    Seq::new(
        base.len(),
        |j: int|
            if mask[j] {
                ks[rank_from_top(mask, j) as int]
            } else {
                base[j]
            },
    )
}

/// Inserting what bit extraction emitted restores the data at every set
/// mask position and leaves the rest of the base untouched.
pub proof fn lemma_extract_insert(data: Seq<bool>, mask: Seq<bool>, base: Seq<bool>)
    requires
        data.len() == mask.len(),
        base.len() == mask.len(),
    ensures
        insert_bits(base, mask, be_bits(data, mask, mask.len() as int)).len() == base.len(),
        forall|j: int|
            0 <= j < mask.len() && mask[j] ==> #[trigger] insert_bits(
                base,
                mask,
                be_bits(data, mask, mask.len() as int),
            )[j] == data[j],
        forall|j: int|
            0 <= j < mask.len() && !mask[j] ==> #[trigger] insert_bits(
                base,
                mask,
                be_bits(data, mask, mask.len() as int),
            )[j] == base[j],
{
    assert forall|j: int| 0 <= j < mask.len() && mask[j] implies #[trigger] insert_bits(
        base,
        mask,
        be_bits(data, mask, mask.len() as int),
    )[j] == data[j] by {
        lemma_be_index(data, mask, mask.len() as int, j);
    }
}

// ------------------------------------------------------------------
// Horizontal exclusive-or of a mask, and its inverse.
// ------------------------------------------------------------------

/// Each position combined with its successor; the last position is kept.
pub open spec fn hxor(m: Seq<bool>) -> Seq<bool> {
    Seq::new(
        m.len(),
        |i: int|
            if i == m.len() - 1 {
                m[i]
            } else {
                m[i] != m[i + 1]
            },
    )
}

/// The parity of the bits of `h` from position `i` to the end.
pub open spec fn tail_parity(h: Seq<bool>, i: int) -> bool
    decreases h.len() - i,
{
    if i < 0 || i >= h.len() {
        false
    } else {
        h[i] != tail_parity(h, i + 1)
    }
}

/// The inverse of the horizontal exclusive-or.
pub open spec fn unhxor(h: Seq<bool>) -> Seq<bool> {
    Seq::new(h.len(), |i: int| tail_parity(h, i))
}

proof fn lemma_tail_parity_hxor(m: Seq<bool>, i: int)
    requires
        0 <= i < m.len(),
    ensures
        tail_parity(hxor(m), i) == m[i],
    decreases m.len() - i,
{
    if i < m.len() - 1 {
        lemma_tail_parity_hxor(m, i + 1);
        assert(hxor(m)[i] == (m[i] != m[i + 1]));
    } else {
        assert(tail_parity(hxor(m), i + 1) == false);
        assert(hxor(m)[i] == m[i]);
    }
}

/// Undoing the horizontal exclusive-or restores the mask.
pub proof fn lemma_unhxor_hxor(m: Seq<bool>)
    ensures
        unhxor(hxor(m)) == m,
{
    assert forall|i: int| 0 <= i < m.len() implies unhxor(hxor(m))[i] == m[i] by {
        lemma_tail_parity_hxor(m, i);
    }
    assert(unhxor(hxor(m)) =~= m);
}

/// The horizontal exclusive-or is the mask combined with its left shift.
pub proof fn lemma_hxor_shl(m: Seq<bool>)
    ensures
        hxor(m) == crate::bits::seq_xor(m, crate::bits::shl1(m)),
{
    assert(hxor(m) =~= crate::bits::seq_xor(m, crate::bits::shl1(m)));
}

} // verus!
