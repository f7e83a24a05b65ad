//! Error values of the compressor and decompressor.

use vstd::prelude::*;

verus! {

use vstd::string::StringExecFns;

broadcast use vstd::string::to_string_from_display_ensures_for_str;

/// Everything that can go wrong while compressing or decompressing.
#[derive(Clone, Debug, PartialEq, Eq)]
pub enum PocketError {
    /// The packet size is zero, not a multiple of 8 bits, or too large.
    InvalidPacketSize(usize),
    /// The robustness parameter is outside 0..=7.
    InvalidRobustness(usize),
    /// An input length does not match the expected packet layout.
    InvalidInputLength { expected: usize, actual: usize },
    /// A compressed buffer ended before a whole packet could be read.
    UnexpectedEndOfInput,
    /// A value in the compressed stream violates the wire format.
    InvalidFormat(String),
    /// The compressed output would exceed the output size cap.
    BufferOverflow,
    /// A bit read ran past the end of the input.
    Underflow,
    /// A bit count outside the range a read accepts.
    InvalidLength,
}

/// The character of a decimal digit.
pub open spec fn digit_char(d: nat) -> char {
    if d == 0 {
        '0'
    } else if d == 1 {
        '1'
    } else if d == 2 {
        '2'
    } else if d == 3 {
        '3'
    } else if d == 4 {
        '4'
    } else if d == 5 {
        '5'
    } else if d == 6 {
        '6'
    } else if d == 7 {
        '7'
    } else if d == 8 {
        '8'
    } else {
        '9'
    }
}

/// The decimal writing of a number, most significant digit first.
pub open spec fn dec_str(n: nat) -> Seq<char>
    decreases n,
{
    if n < 10 {
        seq![digit_char(n)]
    } else {
        dec_str(n / 10) + seq![digit_char(n % 10)]
    }
}

/// The digit characters of `ds`, last digit first.
spec fn chars_rev(ds: Seq<u8>) -> Seq<char>
    decreases ds.len(),
{
    if ds.len() == 0 {
        Seq::<char>::empty()
    } else {
        seq![digit_char(ds.last() as nat)] + chars_rev(ds.drop_last())
    }
}

/// Reversed digit characters emit the first stored digit last.
proof fn lemma_chars_rev_first(ds: Seq<u8>)
    requires
        ds.len() > 0,
    ensures
        chars_rev(ds) == chars_rev(ds.drop_first()) + seq![digit_char(ds[0] as nat)],
    decreases ds.len(),
{
    if ds.len() == 1 {
        assert(ds.drop_first() =~= Seq::<u8>::empty());
        assert(ds.drop_last() =~= Seq::<u8>::empty());
        assert(chars_rev(ds) =~= chars_rev(ds.drop_first()) + seq![digit_char(ds[0] as nat)]);
    } else {
        lemma_chars_rev_first(ds.drop_last());
        assert(ds.drop_last().drop_first() =~= ds.drop_first().drop_last());
        assert(ds.drop_first().last() == ds.last());
        assert(ds.drop_last()[0] == ds[0]);
        assert(chars_rev(ds.drop_first()) == seq![digit_char(ds.last() as nat)] + chars_rev(
            ds.drop_first().drop_last(),
        ));
        assert(chars_rev(ds) == seq![digit_char(ds.last() as nat)] + (chars_rev(
            ds.drop_last().drop_first(),
        ) + seq![digit_char(ds[0] as nat)]));
        assert(chars_rev(ds) =~= chars_rev(ds.drop_first()) + seq![digit_char(ds[0] as nat)]);
    }
}

/// Append one decimal digit character to a string.
fn append_digit(out: &mut String, d: u8)
    requires
        d < 10,
    ensures
        final(out)@ == old(out)@ + seq![digit_char(d as nat)],
{
    proof {
        reveal_strlit("0");
        reveal_strlit("1");
        reveal_strlit("2");
        reveal_strlit("3");
        reveal_strlit("4");
        reveal_strlit("5");
        reveal_strlit("6");
        reveal_strlit("7");
        reveal_strlit("8");
        reveal_strlit("9");
    }
    match d {
        0 => out.append("0"),
        1 => out.append("1"),
        2 => out.append("2"),
        3 => out.append("3"),
        4 => out.append("4"),
        5 => out.append("5"),
        6 => out.append("6"),
        7 => out.append("7"),
        8 => out.append("8"),
        _ => out.append("9"),
    }
}

/// The decimal writing of `n`.
#[verifier::loop_isolation(false)]
pub fn decimal_string(n: usize) -> (r: String)
    ensures
        r@ == dec_str(n as nat),
{
    let mut digits: Vec<u8> = Vec::new();
    let mut x = n;
    if x == 0 {
        let mut out = String::new();
        append_digit(&mut out, 0);
        proof {
            assert(out@ =~= dec_str(0));
        }
        return out;
    }
    while x > 0
        invariant
            x > 0 ==> dec_str(n as nat) == dec_str(x as nat) + chars_rev(digits@),
            x == 0 ==> dec_str(n as nat) == chars_rev(digits@),
            forall|j: int| 0 <= j < digits@.len() ==> #[trigger] digits@[j] < 10,
        decreases x,
    {
        let d = (x % 10) as u8;
        let ghost before = digits@;
        digits.push(d);
        proof {
            assert(digits@.drop_last() =~= before);
            if x >= 10 {
                assert(dec_str(x as nat) == dec_str((x as nat) / 10) + seq![digit_char(
                    (x as nat) % 10,
                )]);
                assert(dec_str((x / 10) as nat) + chars_rev(digits@) =~= dec_str(x as nat)
                    + chars_rev(before));
            } else {
                assert(dec_str(x as nat) == seq![digit_char(x as nat)]);
                assert(chars_rev(digits@) =~= dec_str(x as nat) + chars_rev(before));
            }
        }
        x = x / 10;
    }
    let mut out = String::new();
    let len = digits.len();
    let mut i: usize = 0;
    proof {
        assert(digits@.subrange(len as int, len as int) =~= Seq::<u8>::empty());
    }
    while i < len
        invariant
            i <= len,
            len == digits@.len(),
            forall|j: int| 0 <= j < digits@.len() ==> #[trigger] digits@[j] < 10,
            out@ == chars_rev(digits@.subrange((len - i) as int, len as int)),
        decreases len - i,
    {
        proof {
            let sub = digits@.subrange((len - i - 1) as int, len as int);
            lemma_chars_rev_first(sub);
            assert(sub.drop_first() =~= digits@.subrange((len - i) as int, len as int));
            assert(sub[0] == digits@[(len - i - 1) as int]);
        }
        append_digit(&mut out, digits[len - 1 - i]);
        i = i + 1;
    }
    proof {
        assert(digits@.subrange(0, len as int) =~= digits@);
    }
    out
}

impl PocketError {
    /// A description of the error, as a reader would print it.
    pub fn message(&self) -> (r: String)
        ensures
            (self matches PocketError::InvalidPacketSize(size) ==> r@ == "invalid packet size: "@
                + dec_str(size as nat) + " (must be > 0 and divisible by 8)"@),
            (self matches PocketError::InvalidRobustness(level) ==> r@ == "invalid robustness: "@
                + dec_str(level as nat) + " (must be 0-7)"@),
            (self matches PocketError::InvalidInputLength { expected, actual } ==> r@
                == "invalid input length: expected "@ + dec_str(expected as nat) + ", got "@
                + dec_str(actual as nat)),
            (self matches PocketError::UnexpectedEndOfInput ==> r@ == "unexpected end of input"@),
            (self matches PocketError::InvalidFormat(m) ==> r@ == "invalid format: "@ + m@),
            (self matches PocketError::BufferOverflow ==> r@ == "buffer overflow"@),
            (self matches PocketError::Underflow ==> r@
                == "not enough bits remaining in input"@),
            (self matches PocketError::InvalidLength ==> r@ == "invalid length parameter"@),
    {
        match self {
            PocketError::InvalidPacketSize(size) => {
                let mut m = "invalid packet size: ".to_string();
                let num = decimal_string(*size);
                m.append(num.as_str());
                m.append(" (must be > 0 and divisible by 8)");
                m
            },
            PocketError::InvalidRobustness(level) => {
                let mut m = "invalid robustness: ".to_string();
                let num = decimal_string(*level);
                m.append(num.as_str());
                m.append(" (must be 0-7)");
                m
            },
            PocketError::InvalidInputLength { expected, actual } => {
                let mut m = "invalid input length: expected ".to_string();
                let num = decimal_string(*expected);
                m.append(num.as_str());
                m.append(", got ");
                let num2 = decimal_string(*actual);
                m.append(num2.as_str());
                m
            },
            PocketError::UnexpectedEndOfInput => "unexpected end of input".to_string(),
            PocketError::InvalidFormat(msg) => {
                let mut m = "invalid format: ".to_string();
                m.append(msg.as_str());
                m
            },
            PocketError::BufferOverflow => "buffer overflow".to_string(),
            PocketError::Underflow => "not enough bits remaining in input".to_string(),
            PocketError::InvalidLength => "invalid length parameter".to_string(),
        }
    }
}

} // verus!
