//! The byte formatter: bytes as raw output, hex text or escape text, and scalars as decimal
//! text.

use crate::scalar::reversed;
use vstd::prelude::*;
use vstd::utf8::encode_utf8;

verus! {

/// How bytes are written out.
#[derive(Copy, Clone, Debug, PartialEq, Eq, Structural)]
pub enum OutFmt {
    /// The bytes as they are, with nothing after them.
    Raw,
    /// Two hex digits to a byte, a separator between bytes, a newline at the end.
    Hex,
    /// `\xHH` for each byte, a newline at the end.
    C,
    /// The same escapes between `b"` and `"`, a newline at the end.
    Py,
}

/// The ASCII hex digit of the nibble `n`.
pub open spec fn hex_digit(n: nat, uppercase: bool) -> u8 {
    if n < 10 {
        ('0' as u8 + n) as u8
    } else if uppercase {
        ('A' as u8 + n - 10) as u8
    } else {
        ('a' as u8 + n - 10) as u8
    }
}

/// The two hex digits of `b`, high nibble first.
pub open spec fn hex_pair(b: u8, uppercase: bool) -> Seq<u8> {
    seq![hex_digit((b / 16) as nat, uppercase), hex_digit((b % 16) as nat, uppercase)]
}

/// The hex pairs of `data` with `sep` between each two of them.
pub open spec fn joined_pairs(data: Seq<u8>, sep: Seq<u8>, uppercase: bool) -> Seq<u8>
    decreases data.len(),
{
    if data.len() == 0 {
        Seq::empty()
    } else if data.len() == 1 {
        hex_pair(data[0], uppercase)
    } else {
        joined_pairs(data.drop_last(), sep, uppercase) + sep + hex_pair(data.last(), uppercase)
    }
}

/// `\x` and its hex pair for each byte of `data`, with nothing between them.
pub open spec fn escaped(data: Seq<u8>, uppercase: bool) -> Seq<u8>
    decreases data.len(),
{
    if data.len() == 0 {
        Seq::empty()
    } else {
        escaped(data.drop_last(), uppercase) + seq!['\\' as u8, 'x' as u8] + hex_pair(
            data.last(),
            uppercase,
        )
    }
}

/// What `data` is written as in the format `outfmt`; `sep` is the separator's bytes.
pub open spec fn rendering(outfmt: OutFmt, data: Seq<u8>, sep: Seq<u8>, uppercase: bool) -> Seq<
    u8,
> {
    match outfmt {
        OutFmt::Raw => data,
        OutFmt::Hex => joined_pairs(data, sep, uppercase) + seq!['\n' as u8],
        OutFmt::C => escaped(data, uppercase) + seq!['\n' as u8],
        OutFmt::Py => seq!['b' as u8, '"' as u8] + escaped(data, uppercase) + seq![
            '"' as u8,
            '\n' as u8,
        ],
    }
}

/// The ASCII decimal digits of `n`, most significant first, without leading zeros.
pub open spec fn decimal_digits(n: nat) -> Seq<u8>
    decreases n,
{
    if n < 10 {
        seq![('0' as u8 + n) as u8]
    } else {
        decimal_digits(n / 10).push(('0' as u8 + n % 10) as u8)
    }
}

/// `v` in plain decimal, as ASCII: a `-` before the digits of a negative number.
pub open spec fn decimal(v: int) -> Seq<u8> {
    if v < 0 {
        seq!['-' as u8] + decimal_digits((-v) as nat)
    } else {
        decimal_digits(v as nat)
    }
}

/// Each of `values` in plain decimal, each followed by a newline.
pub open spec fn decimal_lines(values: Seq<i128>) -> Seq<u8>
    decreases values.len(),
{
    if values.len() == 0 {
        Seq::empty()
    } else {
        decimal_lines(values.drop_last()) + decimal(values.last() as int) + seq!['\n' as u8]
    }
}

/// The ASCII hex digit of the nibble `n`.
fn hex_digit_byte(n: u8, uppercase: bool) -> (d: u8)
    requires
        n < 16,
    ensures
        d == hex_digit(n as nat, uppercase),
{
    if n < 10 {
        0x30 + n
    } else if uppercase {
        0x41 + (n - 10)
    } else {
        0x61 + (n - 10)
    }
}

/// Appends the two hex digits of `b` to `out`.
fn push_pair(out: &mut Vec<u8>, b: u8, uppercase: bool)
    ensures
        final(out)@ == old(out)@ + hex_pair(b, uppercase),
{
    let hi = hex_digit_byte(b / 16, uppercase);
    let lo = hex_digit_byte(b % 16, uppercase);
    out.push(hi);
    out.push(lo);
}

/// Appends `\x` and its hex pair for each byte of `data` to `out`.
fn push_escaped(out: &mut Vec<u8>, data: &[u8], uppercase: bool)
    ensures
        final(out)@ == old(out)@ + escaped(data@, uppercase),
{
    let mut i: usize = 0;
    while i < data.len()
        invariant
            i <= data@.len(),
            out@ == old(out)@ + escaped(data@.take(i as int), uppercase),
        decreases data@.len() - i,
    {
        let ghost seen = data@.take(i as int);
        out.push(0x5c);
        out.push(0x78);
        push_pair(out, data[i], uppercase);
        proof {
            assert(data@.take(i + 1).drop_last() =~= seen);
            assert(out@ =~= old(out)@ + (escaped(seen, uppercase) + seq!['\\' as u8, 'x' as u8]
                + hex_pair(data@[i as int], uppercase)));
        }
        i = i + 1;
    }
    proof {
        assert(data@.take(data@.len() as int) =~= data@);
    }
}

/// Renders `data` in the format `outfmt`: the bytes to write out.
///
/// `sep` stands between the hex pairs of the format `Hex`, in UTF-8; `uppercase` picks the
/// case of the hex digits. Every format but `Raw` ends in a newline.
pub fn render_bytes(outfmt: OutFmt, data: &[u8], sep: &str, uppercase: bool) -> (out: Vec<u8>)
    ensures
        out@ == rendering(outfmt, data@, encode_utf8(sep@), uppercase),
{
    let mut out: Vec<u8> = Vec::new();
    match outfmt {
        OutFmt::Raw => {
            out.extend_from_slice(data);
        },
        OutFmt::Hex => {
            let sep_bytes = sep.as_bytes();
            let mut i: usize = 0;
            while i < data.len()
                invariant
                    i <= data@.len(),
                    sep_bytes@ == encode_utf8(sep@),
                    out@ == joined_pairs(data@.take(i as int), sep_bytes@, uppercase),
                decreases data@.len() - i,
            {
                proof {
                    assert(data@.take(i + 1).drop_last() =~= data@.take(i as int));
                }
                if i > 0 {
                    out.extend_from_slice(sep_bytes);
                }
                push_pair(&mut out, data[i], uppercase);
                i = i + 1;
            }
            proof {
                assert(data@.take(data@.len() as int) =~= data@);
            }
            out.push(0x0a);
        },
        OutFmt::C => {
            push_escaped(&mut out, data, uppercase);
            out.push(0x0a);
        },
        OutFmt::Py => {
            out.push(0x62);
            out.push(0x22);
            push_escaped(&mut out, data, uppercase);
            out.push(0x22);
            out.push(0x0a);
            proof {
                assert(out@ =~= seq!['b' as u8, '"' as u8] + escaped(data@, uppercase) + seq![
                    '"' as u8,
                    '\n' as u8,
                ]);
            }
        },
    }
    out
}

/// `v` in plain decimal, as ASCII.
pub fn decimal_bytes(v: i128) -> (out: Vec<u8>)
    ensures
        out@ == decimal(v as int),
{
    let magnitude: u128 = if v >= 0 {
        v as u128
    } else {
        (-(v + 1)) as u128 + 1
    };
    let mut low_first: Vec<u8> = Vec::new();
    let mut cur: u128 = magnitude;
    while cur >= 10
        invariant
            decimal_digits(magnitude as nat) == decimal_digits(cur as nat) + low_first@.reverse(),
        decreases cur,
    {
        let d: u8 = 0x30 + (cur % 10) as u8;
        proof {
            let higher = decimal_digits((cur / 10) as nat);
            assert(higher.push(d) + low_first@.reverse() =~= higher + (seq![d]
                + low_first@.reverse()));
        }
        low_first.push(d);
        cur = cur / 10;
    }
    let d: u8 = 0x30 + cur as u8;
    low_first.push(d);
    let digits = reversed(low_first.as_slice());
    if v < 0 {
        let mut out: Vec<u8> = Vec::new();
        out.push(0x2d);
        out.extend_from_slice(digits.as_slice());
        out
    } else {
        digits
    }
}

/// Each of `values` in plain decimal, one to a line.
pub fn render_decimal_lines(values: &[i128]) -> (out: Vec<u8>)
    ensures
        out@ == decimal_lines(values@),
{
    let mut out: Vec<u8> = Vec::new();
    let mut i: usize = 0;
    while i < values.len()
        invariant
            i <= values@.len(),
            out@ == decimal_lines(values@.take(i as int)),
        decreases values@.len() - i,
    {
        proof {
            assert(values@.take(i + 1).drop_last() =~= values@.take(i as int));
        }
        let text = decimal_bytes(values[i]);
        out.extend_from_slice(text.as_slice());
        out.push(0x0a);
        i = i + 1;
    }
    proof {
        assert(values@.take(values@.len() as int) =~= values@);
    }
    out
}

} // verus!
