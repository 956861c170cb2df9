//! The four operations: pack, unpack, byte swap and byte passthrough. Each takes what a
//! command line and standard input gave and returns the bytes to write out.

use crate::error::{Fault, PakxError};
use crate::hex::{hex_bytes, parse_hex_str, InFmt};
use crate::literal::{literal_value, parse_int};
use crate::render::{decimal_lines, render_bytes, render_decimal_lines, rendering, OutFmt};
use crate::scalar::{
    decode, encode, pack_fault, pack_scalar, reversed, supported_width, unpack_scalar,
    width_bytes, Endian,
};
use vstd::prelude::*;
use vstd::slice::slice_subrange;
use vstd::utf8::encode_utf8;

verus! {

/// What was read from standard input, and how it is to be understood.
#[derive(Debug)]
pub enum Input {
    /// Bytes that stand for themselves.
    Raw(Vec<u8>),
    /// Text that holds hex byte tokens.
    Hex(String),
}

impl Input {
    /// The bytes that the input stands for, or the fault in its hex text.
    pub open spec fn bytes(self) -> Result<Seq<u8>, Fault> {
        match self {
            Input::Raw(data) => Ok(data@),
            Input::Hex(text) => hex_bytes(text@),
        }
    }

    /// The format that the input came in.
    pub fn format(&self) -> (f: InFmt)
        ensures
            f == (match *self {
                Input::Raw(_) => InFmt::Raw,
                Input::Hex(_) => InFmt::Hex,
            }),
    {
        match self {
            Input::Raw(_) => InFmt::Raw,
            Input::Hex(_) => InFmt::Hex,
        }
    }

    /// The bytes that the input stands for: raw bytes as they are, hex text parsed.
    pub fn to_bytes(&self) -> (r: Result<Vec<u8>, PakxError>)
        ensures
            match self.bytes() {
                Ok(data) => r matches Ok(v) && v@ == data,
                Err(fault) => r matches Err(e) && e@ == fault,
            },
    {
        match self {
            Input::Raw(data) => {
                let mut copy: Vec<u8> = Vec::new();
                copy.extend_from_slice(data.as_slice());
                Ok(copy)
            },
            Input::Hex(text) => parse_hex_str(text.as_str()),
        }
    }
}

/// The bytes of the literal `text` at the given width, or the fault that refuses it: the
/// literal's own, or that of strict packing.
pub open spec fn packed_literal(
    text: Seq<char>,
    width_bits: u32,
    endian: Endian,
    signed: bool,
    strict: bool,
) -> Result<Seq<u8>, Fault> {
    match literal_value(text) {
        None => Err(Fault::ParseLiteral { literal: text }),
        Some(n) => match pack_fault(n, width_bits, signed, strict) {
            Some(fault) => Err(fault),
            None => Ok(encode(n, width_bits, endian)),
        },
    }
}

/// The bytes of all of `values`, in their order, or the fault of the first literal that
/// is refused.
pub open spec fn packed_all(
    values: Seq<String>,
    width_bits: u32,
    endian: Endian,
    signed: bool,
    strict: bool,
) -> Result<Seq<u8>, Fault>
    decreases values.len(),
{
    if values.len() == 0 {
        Ok(Seq::empty())
    } else {
        match packed_all(values.drop_last(), width_bits, endian, signed, strict) {
            Err(fault) => Err(fault),
            Ok(head) => match packed_literal(values.last()@, width_bits, endian, signed, strict) {
                Err(fault) => Err(fault),
                Ok(tail) => Ok(head + tail),
            },
        }
    }
}

/// `pattern` written `times` times over.
pub open spec fn repeated(pattern: Seq<u8>, times: nat) -> Seq<u8>
    decreases times,
{
    if times == 0 {
        Seq::empty()
    } else {
        repeated(pattern, (times - 1) as nat) + pattern
    }
}

/// How often the packed pattern is written: once, unless a repeat count above one is given.
pub open spec fn repeat_times(repeat: Option<usize>) -> nat {
    match repeat {
        Some(times) => if times > 1 {
            times as nat
        } else {
            1
        },
        None => 1,
    }
}

/// How many scalars are read from `len` bytes: one for each full chunk of
/// `width_bits / 8` bytes, and no more than `count` where it is given.
pub open spec fn chunks_read(len: nat, width_bits: u32, count: Option<usize>) -> nat {
    let full = len / ((width_bits / 8) as nat);
    match count {
        Some(most) => if (most as nat) < full {
            most as nat
        } else {
            full
        },
        None => full,
    }
}

/// The `i`-th chunk of `width_bits / 8` bytes of `data`.
pub open spec fn chunk(data: Seq<u8>, width_bits: u32, i: int) -> Seq<u8> {
    let width = (width_bits / 8) as int;
    data.subrange(i * width, (i + 1) * width)
}

/// The scalars that the chunks of `data` hold, in order. Bytes after the last full chunk,
/// and chunks beyond `count`, are left unread.
pub open spec fn unpacked(
    data: Seq<u8>,
    width_bits: u32,
    endian: Endian,
    signed: bool,
    count: Option<usize>,
) -> Seq<i128> {
    Seq::new(
        chunks_read(data.len(), width_bits, count),
        |i: int| decode(chunk(data, width_bits, i), width_bits, endian, signed) as i128,
    )
}

/// An empty pattern stays empty however often it is repeated.
pub proof fn lemma_repeated_empty(times: nat)
    ensures
        repeated(Seq::<u8>::empty(), times) == Seq::<u8>::empty(),
    decreases times,
{
    if times > 0 {
        lemma_repeated_empty((times - 1) as nat);
    }
}

/// Swapping the bytes of the big-endian encoding gives the little-endian encoding.
pub proof fn lemma_swap_of_big_endian(n: int, width_bits: u32)
    ensures
        encode(n, width_bits, Endian::Big).reverse() == encode(n, width_bits, Endian::Little),
        encode(n, width_bits, Endian::Little).reverse() == encode(n, width_bits, Endian::Big),
{
}

/// Parses the literal `text` and packs it.
pub fn pack_literal(text: &str, width_bits: u32, endian: Endian, signed: bool, strict: bool) -> (r:
    Result<Vec<u8>, PakxError>)
    requires
        supported_width(width_bits),
    ensures
        match packed_literal(text@, width_bits, endian, signed, strict) {
            Ok(bytes) => r matches Ok(v) && v@ == bytes,
            Err(fault) => r matches Err(e) && e@ == fault,
        },
{
    match parse_int(text) {
        Err(e) => Err(e),
        Ok(n) => pack_scalar(n, width_bits, endian, signed, strict),
    }
}

/// The pack operation: packs each literal of `values` with the same settings, joins the
/// bytes in the order of the literals, writes the joined pattern `repeat` times where
/// `repeat` is above one, and renders the result.
///
/// The first literal that cannot be read or packed ends the operation with its fault, and
/// nothing is rendered.
pub fn run_pack(
    width_bits: u32,
    values: &[String],
    endian: Endian,
    signed: bool,
    outfmt: OutFmt,
    sep: &str,
    uppercase: bool,
    strict: bool,
    repeat: Option<usize>,
) -> (r: Result<Vec<u8>, PakxError>)
    requires
        supported_width(width_bits),
    ensures
        match packed_all(values@, width_bits, endian, signed, strict) {
            Ok(bytes) => r matches Ok(out) && out@ == rendering(
                outfmt,
                repeated(bytes, repeat_times(repeat)),
                encode_utf8(sep@),
                uppercase,
            ),
            Err(fault) => r matches Err(e) && e@ == fault,
        },
{
    let mut buf: Vec<u8> = Vec::new();
    let mut i: usize = 0;
    while i < values.len()
        invariant
            supported_width(width_bits),
            i <= values@.len(),
            packed_all(values@.take(i as int), width_bits, endian, signed, strict) == Ok::<
                Seq<u8>,
                Fault,
            >(buf@),
        decreases values@.len() - i,
    {
        proof {
            assert(values@.take(i + 1).drop_last() =~= values@.take(i as int));
        }
        match pack_literal(values[i].as_str(), width_bits, endian, signed, strict) {
            Err(e) => {
                proof {
                    lemma_packed_all_fault(values@, i + 1, width_bits, endian, signed, strict);
                }
                return Err(e);
            },
            Ok(bytes) => {
                let ghost before = buf@;
                buf.extend_from_slice(bytes.as_slice());
                proof {
                    assert(buf@ =~= before + bytes@);
                }
            },
        }
        i = i + 1;
    }
    proof {
        assert(values@.take(values@.len() as int) =~= values@);
    }
    let times: usize = match repeat {
        Some(t) => if t > 1 {
            t
        } else {
            1
        },
        None => 1,
    };
    if times > 1 && buf.len() > 0 {
        let mut pattern: Vec<u8> = Vec::new();
        pattern.extend_from_slice(buf.as_slice());
        let mut done: usize = 1;
        proof {
            assert(pattern@ =~= buf@);
            assert(repeated(pattern@, 1) =~= pattern@) by {
                reveal_with_fuel(repeated, 2);
            }
        }
        while done < times
            invariant
                1 <= done <= times,
                buf@ == repeated(pattern@, done as nat),
            decreases times - done,
        {
            buf.extend_from_slice(pattern.as_slice());
            done = done + 1;
        }
    } else {
        proof {
            if buf@.len() == 0 {
                lemma_repeated_empty(times as nat);
            } else {
                assert(repeated(buf@, 1) =~= buf@) by {
                    reveal_with_fuel(repeated, 2);
                }
            }
        }
    }
    Ok(render_bytes(outfmt, buf.as_slice(), sep, uppercase))
}

/// A fault among the first `k` literals is the fault of them all.
proof fn lemma_packed_all_fault(
    values: Seq<String>,
    k: int,
    width_bits: u32,
    endian: Endian,
    signed: bool,
    strict: bool,
)
    requires
        0 <= k <= values.len(),
        packed_all(values.take(k), width_bits, endian, signed, strict) is Err,
    ensures
        packed_all(values, width_bits, endian, signed, strict) == packed_all(
            values.take(k),
            width_bits,
            endian,
            signed,
            strict,
        ),
    decreases values.len() - k,
{
    if k == values.len() {
        assert(values.take(k) =~= values);
    } else {
        assert(values.drop_last().take(k) =~= values.take(k));
        lemma_packed_all_fault(values.drop_last(), k, width_bits, endian, signed, strict);
    }
}

/// Reads the scalars that the chunks of `data` hold, at most `count` of them where `count`
/// is given. A last chunk that is not full is left unread.
pub fn unpack_chunks(
    data: &[u8],
    width_bits: u32,
    endian: Endian,
    signed: bool,
    count: Option<usize>,
) -> (values: Vec<i128>)
    requires
        supported_width(width_bits),
    ensures
        values@ == unpacked(data@, width_bits, endian, signed, count),
{
    let width = width_bytes(width_bits);
    let len = data.len();
    let full = len / width;
    let limit: usize = match count {
        Some(most) => if most < full {
            most
        } else {
            full
        },
        None => full,
    };
    let mut values: Vec<i128> = Vec::new();
    let mut k: usize = 0;
    let mut pos: usize = 0;
    proof {
        assert(full * width <= len) by (nonlinear_arith)
            requires
                full == len as int / (width as int),
                width > 0,
        ;
    }
    while k < limit
        invariant
            supported_width(width_bits),
            width == width_bits / 8,
            limit <= full,
            len == data@.len(),
            full * width <= len,
            k <= limit,
            pos == k * width,
            values@.len() == k,
            forall|i: int|
                0 <= i < k ==> values@[i] == decode(
                    chunk(data@, width_bits, i),
                    width_bits,
                    endian,
                    signed,
                ),
        decreases limit - k,
    {
        proof {
            assert((k + 1) * width <= full * width) by (nonlinear_arith)
                requires
                    k + 1 <= full,
                    width > 0,
            ;
            assert((k + 1) * width == k * width + width) by (nonlinear_arith);
        }
        let piece = slice_subrange(data, pos, pos + width);
        let v = unpack_scalar(piece, width_bits, endian, signed);
        values.push(v);
        k = k + 1;
        pos = pos + width;
    }
    values
}

/// The unpack operation: reads the input's bytes, decodes their full chunks, at most
/// `count` of them, and writes each scalar in plain decimal on a line of its own.
///
/// A fault in hex input ends the operation, and nothing is written.
pub fn run_unpack(
    width_bits: u32,
    input: &Input,
    endian: Endian,
    signed: bool,
    count: Option<usize>,
) -> (r: Result<Vec<u8>, PakxError>)
    requires
        supported_width(width_bits),
    ensures
        match input.bytes() {
            Ok(data) => r matches Ok(out) && out@ == decimal_lines(
                unpacked(data, width_bits, endian, signed, count),
            ),
            Err(fault) => r matches Err(e) && e@ == fault,
        },
{
    match input.to_bytes() {
        Err(e) => Err(e),
        Ok(data) => {
            let values = unpack_chunks(data.as_slice(), width_bits, endian, signed, count);
            Ok(render_decimal_lines(values.as_slice()))
        },
    }
}

/// The byte-swap operation: packs the literal `value` as big-endian, unsigned and
/// truncating, whatever byte order is in use elsewhere, reverses the bytes and renders
/// them.
pub fn run_bswap(width_bits: u32, value: &str, outfmt: OutFmt, sep: &str, uppercase: bool) -> (r:
    Result<Vec<u8>, PakxError>)
    requires
        supported_width(width_bits),
    ensures
        match literal_value(value@) {
            Some(n) => r matches Ok(out) && out@ == rendering(
                outfmt,
                encode(n, width_bits, Endian::Big).reverse(),
                encode_utf8(sep@),
                uppercase,
            ),
            None => r matches Err(e) && e@ == (Fault::ParseLiteral { literal: value@ }),
        },
{
    match pack_literal(value, width_bits, Endian::Big, false, false) {
        Err(e) => Err(e),
        Ok(bytes) => {
            let swapped = reversed(bytes.as_slice());
            Ok(render_bytes(outfmt, swapped.as_slice(), sep, uppercase))
        },
    }
}

/// The byte-passthrough operation: reads the input's bytes and renders them, unchanged,
/// in the format asked for.
pub fn run_bytes(input: &Input, outfmt: OutFmt, sep: &str, uppercase: bool) -> (r: Result<
    Vec<u8>,
    PakxError,
>)
    ensures
        match input.bytes() {
            Ok(data) => r matches Ok(out) && out@ == rendering(
                outfmt,
                data,
                encode_utf8(sep@),
                uppercase,
            ),
            Err(fault) => r matches Err(e) && e@ == fault,
        },
{
    match input.to_bytes() {
        Err(e) => Err(e),
        Ok(data) => Ok(render_bytes(outfmt, data.as_slice(), sep, uppercase)),
    }
}

/// The byte order that the big-endian switch asks for; little-endian where it is off.
pub fn endian_from(be: bool, _le: bool) -> (e: Endian)
    ensures
        e == (if be {
            Endian::Big
        } else {
            Endian::Little
        }),
{
    if be {
        Endian::Big
    } else {
        Endian::Little
    }
}

} // verus!
