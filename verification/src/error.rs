//! The failures that packing and parsing report.

use crate::render::{decimal, decimal_bytes, decimal_digits};
use vstd::prelude::*;
use vstd::string::StringExecFns;

verus! {

/// The mathematical content of a [`PakxError`]: which rule was broken, and by what.
pub enum Fault {
    /// The value does not fit the width under strict packing.
    Range { value: int, bits: nat, signed: bool },
    /// A negative value was given to strict unsigned packing.
    Sign { value: int },
    /// A hex token holds an odd number of nibbles.
    OddNibble { token: Seq<char> },
    /// A hex token holds something that is no hex digit.
    InvalidHex { token: Seq<char> },
    /// An integer literal is neither decimal nor `0x` hexadecimal, or does not fit the scalar.
    ParseLiteral { literal: Seq<char> },
    /// A width outside 8, 16, 32, 64 and 128.
    UnsupportedWidth,
}

/// Why an operation was refused.
#[derive(Debug, PartialEq, Eq)]
pub enum PakxError {
    /// The value does not fit the width under strict packing.
    Range { value: i128, bits: u32, signed: bool },
    /// A negative value was given to strict unsigned packing.
    Sign { value: i128 },
    /// A hex token holds an odd number of nibbles; `token` is the token as it was written.
    OddNibble { token: String },
    /// A hex token holds something that is no hex digit; `token` is the token as it was written.
    InvalidHex { token: String },
    /// An integer literal could not be read; `literal` is the text as it was given.
    ParseLiteral { literal: String },
    /// A width outside 8, 16, 32, 64 and 128.
    UnsupportedWidth,
}

impl View for PakxError {
    type V = Fault;

    open spec fn view(&self) -> Fault {
        match *self {
            PakxError::Range { value, bits, signed } => Fault::Range {
                value: value as int,
                bits: bits as nat,
                signed,
            },
            PakxError::Sign { value } => Fault::Sign { value: value as int },
            PakxError::OddNibble { token } => Fault::OddNibble { token: token@ },
            PakxError::InvalidHex { token } => Fault::InvalidHex { token: token@ },
            PakxError::ParseLiteral { literal } => Fault::ParseLiteral { literal: literal@ },
            PakxError::UnsupportedWidth => Fault::UnsupportedWidth,
        }
    }
}

/// The characters that the ASCII bytes `bytes` stand for.
pub open spec fn ascii_text(bytes: Seq<u8>) -> Seq<char> {
    bytes.map_values(|b: u8| b as char)
}

/// The message that describes `fault` to a person.
pub open spec fn message_text(fault: Fault) -> Seq<char> {
    match fault {
        Fault::Range { value, bits, signed } => "value "@ + ascii_text(decimal(value)) + (if signed {
            " does not fit in signed "@
        } else {
            " does not fit in unsigned "@
        }) + ascii_text(decimal(bits as int)) + "-bit"@,
        Fault::Sign { value } => "negative value "@ + ascii_text(decimal(value))
            + " not allowed for unsigned (use --signed or remove --strict)"@,
        Fault::OddNibble { token } => "odd number of hex nibbles in token: "@ + token,
        Fault::InvalidHex { token } => "non-hex digit in token: "@ + token,
        Fault::ParseLiteral { literal } => "invalid integer literal: "@ + literal,
        Fault::UnsupportedWidth => "width must be one of: 8, 16, 32, 64, 128"@,
    }
}

/// Decimal text holds digits and, at most, a minus sign.
pub proof fn lemma_decimal_alphabet(v: int)
    ensures
        forall|i: int|
            0 <= i < decimal(v).len() ==> {
                let b = #[trigger] decimal(v)[i];
                b == '-' as u8 || ('0' as u8 <= b <= '9' as u8)
            },
{
    let m: nat = if v < 0 {
        (-v) as nat
    } else {
        v as nat
    };
    lemma_digits_alphabet(m);
}

proof fn lemma_digits_alphabet(n: nat)
    ensures
        forall|i: int|
            0 <= i < decimal_digits(n).len() ==> '0' as u8 <= #[trigger] decimal_digits(n)[i]
                <= '9' as u8,
    decreases n,
{
    if n >= 10 {
        lemma_digits_alphabet(n / 10);
        let higher = decimal_digits(n / 10);
        assert forall|i: int| 0 <= i < decimal_digits(n).len() implies '0' as u8
            <= #[trigger] decimal_digits(n)[i] <= '9' as u8 by {
            if i < higher.len() {
                assert(decimal_digits(n)[i] == higher[i]);
            }
        }
    }
}

/// The one-character text of a digit or a minus sign.
fn ascii_str(b: u8) -> (s: &'static str)
    requires
        b == '-' as u8 || ('0' as u8 <= b <= '9' as u8),
    ensures
        s@ == seq![b as char],
{
    proof {
        reveal_strlit("0");
        reveal_strlit("1");
        reveal_strlit("2");
        reveal_strlit("3");
        reveal_strlit("4");
        reveal_strlit("5");
        reveal_strlit("6");
        reveal_strlit("7");
        reveal_strlit("8");
        reveal_strlit("9");
        reveal_strlit("-");
    }
    if b == 0x30 {
        "0"
    } else if b == 0x31 {
        "1"
    } else if b == 0x32 {
        "2"
    } else if b == 0x33 {
        "3"
    } else if b == 0x34 {
        "4"
    } else if b == 0x35 {
        "5"
    } else if b == 0x36 {
        "6"
    } else if b == 0x37 {
        "7"
    } else if b == 0x38 {
        "8"
    } else if b == 0x39 {
        "9"
    } else {
        "-"
    }
}

/// Appends `v` in plain decimal to `m`.
fn push_decimal(m: &mut String, v: i128)
    ensures
        final(m)@ == old(m)@ + ascii_text(decimal(v as int)),
{
    let digits = decimal_bytes(v);
    let mut i: usize = 0;
    proof {
        lemma_decimal_alphabet(v as int);
    }
    while i < digits.len()
        invariant
            i <= digits@.len(),
            digits@ == decimal(v as int),
            forall|k: int|
                0 <= k < digits@.len() ==> {
                    let b = #[trigger] digits@[k];
                    b == '-' as u8 || ('0' as u8 <= b <= '9' as u8)
                },
            m@ == old(m)@ + ascii_text(digits@.take(i as int)),
        decreases digits@.len() - i,
    {
        let b = digits[i];
        m.append(ascii_str(b));
        proof {
            assert(ascii_text(digits@.take(i + 1)) =~= ascii_text(digits@.take(i as int)).push(
                b as char,
            ));
        }
        i = i + 1;
    }
}

impl PakxError {
    /// The message that describes this error to a person. A fault in a token or a literal
    /// names the text as it was written.
    pub fn message(&self) -> (m: String)
        ensures
            m@ == message_text(self@),
    {
        match self {
            PakxError::Range { value, bits, signed } => {
                let mut m = String::from_str("value ");
                push_decimal(&mut m, *value);
                if *signed {
                    m.append(" does not fit in signed ");
                } else {
                    m.append(" does not fit in unsigned ");
                }
                push_decimal(&mut m, *bits as i128);
                m.append("-bit");
                m
            },
            PakxError::Sign { value } => {
                let mut m = String::from_str("negative value ");
                push_decimal(&mut m, *value);
                m.append(" not allowed for unsigned (use --signed or remove --strict)");
                m
            },
            PakxError::OddNibble { token } => {
                let mut m = String::from_str("odd number of hex nibbles in token: ");
                m.append(token.as_str());
                m
            },
            PakxError::InvalidHex { token } => {
                let mut m = String::from_str("non-hex digit in token: ");
                m.append(token.as_str());
                m
            },
            PakxError::ParseLiteral { literal } => {
                let mut m = String::from_str("invalid integer literal: ");
                m.append(literal.as_str());
                m
            },
            PakxError::UnsupportedWidth => String::from_str(
                "width must be one of: 8, 16, 32, 64, 128",
            ),
        }
    }
}

} // verus!
