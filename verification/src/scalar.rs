//! The scalar codec: a signed integer to and from its fixed-width bytes.

use crate::error::{Fault, PakxError};
use vstd::arithmetic::div_mod::{lemma_mod_breakdown, lemma_mod_mod, lemma_small_mod};
use vstd::arithmetic::power2::{
    lemma2_to64, lemma_pow2_adds, lemma_pow2_pos, lemma_pow2_strictly_increases, pow2,
};
use vstd::prelude::*;

verus! {

/// Byte order of a fixed-width encoding. It orders the bytes and never changes the value.
#[derive(Copy, Clone, Debug, PartialEq, Eq, Structural)]
pub enum Endian {
    /// Least-significant byte first.
    Little,
    /// Most-significant byte first.
    Big,
}

/// The widths, in bits, that a scalar can be packed to.
pub open spec fn supported_width(width_bits: u32) -> bool {
    width_bits == 8 || width_bits == 16 || width_bits == 32 || width_bits == 64 || width_bits
        == 128
}

/// The residue of `n` modulo `2^bits`: what two's-complement truncation to `bits` bits keeps.
pub open spec fn wrap(n: int, bits: nat) -> nat {
    (n % (pow2(bits) as int)) as nat
}

/// The `len` low bytes of `v`, least-significant first.
pub open spec fn le_bytes(v: nat, len: nat) -> Seq<u8>
    decreases len,
{
    if len == 0 {
        Seq::empty()
    } else {
        seq![(v % 256) as u8] + le_bytes(v / 256, (len - 1) as nat)
    }
}

/// The number whose least-significant-first bytes are `bytes`.
pub open spec fn le_value(bytes: Seq<u8>) -> nat
    decreases bytes.len(),
{
    if bytes.len() == 0 {
        0
    } else {
        bytes[0] as nat + 256 * le_value(bytes.drop_first())
    }
}

/// Bytes between wire order and least-significant-first order. The map is its own inverse.
pub open spec fn reorder(bytes: Seq<u8>, endian: Endian) -> Seq<u8> {
    match endian {
        Endian::Little => bytes,
        Endian::Big => bytes.reverse(),
    }
}

/// The bytes of `n` at `width_bits` bits: the residue modulo `2^width_bits`, split into
/// `width_bits / 8` bytes in the order `endian` asks for.
pub open spec fn encode(n: int, width_bits: u32, endian: Endian) -> Seq<u8> {
    reorder(le_bytes(wrap(n, width_bits as nat), (width_bits / 8) as nat), endian)
}

/// The unsigned number that `bytes` hold in the order `endian` names.
pub open spec fn magnitude(bytes: Seq<u8>, endian: Endian) -> nat {
    le_value(reorder(bytes, endian))
}

/// The scalar that `bytes` stand for at `width_bits` bits.
///
/// A signed reading takes `2^width_bits` off a magnitude whose top bit is set. An unsigned
/// reading is the magnitude itself, except at 128 bits: the scalar has no room for
/// magnitudes from `2^127` on, and they come out as their two's-complement reading.
pub open spec fn decode(bytes: Seq<u8>, width_bits: u32, endian: Endian, signed: bool) -> int {
    let m = magnitude(bytes, endian);
    if (signed || width_bits == 128) && m >= pow2((width_bits - 1) as nat) {
        m - pow2(width_bits as nat)
    } else {
        m as int
    }
}

/// The fault, if any, with which strict packing refuses `n`.
///
/// Truncating packing refuses nothing. Strict signed packing refuses what lies outside
/// `[-2^(bits-1), 2^(bits-1) - 1]`. Strict unsigned packing refuses a negative value as a
/// sign fault, and a value above `2^bits - 1` as a range fault.
pub open spec fn pack_fault(n: int, width_bits: u32, signed: bool, strict: bool) -> Option<Fault> {
    let bits = width_bits as nat;
    if !strict {
        None
    } else if signed {
        if n < -pow2((bits - 1) as nat) || n > pow2((bits - 1) as nat) - 1 {
            Some(Fault::Range { value: n, bits, signed: true })
        } else {
            None
        }
    } else if n < 0 {
        Some(Fault::Sign { value: n })
    } else if n > pow2(bits) - 1 {
        Some(Fault::Range { value: n, bits, signed: false })
    } else {
        None
    }
}

/// The powers of two at the supported widths and at their sign bits.
pub proof fn lemma_width_powers()
    ensures
        pow2(7) == 0x80,
        pow2(8) == 0x100,
        pow2(15) == 0x8000,
        pow2(16) == 0x1_0000,
        pow2(31) == 0x8000_0000,
        pow2(32) == 0x1_0000_0000,
        pow2(63) == 0x8000_0000_0000_0000,
        pow2(64) == 0x1_0000_0000_0000_0000,
        pow2(127) == 0x8000_0000_0000_0000_0000_0000_0000_0000,
        pow2(128) == 0x1_0000_0000_0000_0000_0000_0000_0000_0000,
{
    lemma2_to64();
    lemma_pow2_adds(63, 1);
    lemma_pow2_adds(64, 63);
    lemma_pow2_adds(64, 64);
}

/// `le_bytes` yields exactly `len` bytes.
pub proof fn lemma_le_bytes_len(v: nat, len: nat)
    ensures
        le_bytes(v, len).len() == len,
    decreases len,
{
    if len > 0 {
        lemma_le_bytes_len(v / 256, (len - 1) as nat);
    }
}

/// A number read from `n` bytes lies below `2^(8n)`.
pub proof fn lemma_le_value_bound(bytes: Seq<u8>)
    ensures
        le_value(bytes) < pow2(8 * bytes.len()),
    decreases bytes.len(),
{
    if bytes.len() == 0 {
        lemma2_to64();
    } else {
        let rest = bytes.drop_first();
        lemma_le_value_bound(rest);
        lemma2_to64();
        lemma_pow2_adds(8, 8 * rest.len());
    }
}

/// Splitting a number into `len` bytes and reading them back keeps it modulo `2^(8 len)`.
pub proof fn lemma_le_value_of_le_bytes(v: nat, len: nat)
    ensures
        le_value(le_bytes(v, len)) == v % pow2(8 * len),
    decreases len,
{
    lemma2_to64();
    if len > 0 {
        let rest = le_bytes(v / 256, (len - 1) as nat);
        let all = le_bytes(v, len);
        lemma_le_value_of_le_bytes(v / 256, (len - 1) as nat);
        assert(all.drop_first() =~= rest);
        let m = pow2(8 * (len - 1) as nat);
        lemma_pow2_pos(8 * (len - 1) as nat);
        lemma_pow2_adds(8, 8 * (len - 1) as nat);
        lemma_mod_breakdown(v as int, 256, m as int);
    }
}

/// Reading `bytes` as a number and splitting it into as many bytes gives `bytes` back.
pub proof fn lemma_le_bytes_of_le_value(bytes: Seq<u8>)
    ensures
        le_bytes(le_value(bytes), bytes.len()) == bytes,
    decreases bytes.len(),
{
    if bytes.len() > 0 {
        let rest = bytes.drop_first();
        lemma_le_bytes_of_le_value(rest);
        assert(le_value(bytes) % 256 == bytes[0] as nat);
        assert(le_value(bytes) / 256 == le_value(rest));
    }
}

/// Reordering twice under one byte order gives the bytes back.
pub proof fn lemma_reorder_involution(bytes: Seq<u8>, endian: Endian)
    ensures
        reorder(reorder(bytes, endian), endian) == bytes,
        reorder(bytes, endian).len() == bytes.len(),
{
}

/// Truncating to `b` bits and then to `a <= b` bits is truncating to `a` bits.
pub proof fn lemma_wrap_wrap(n: int, a: nat, b: nat)
    requires
        a <= b,
    ensures
        wrap(wrap(n, b) as int, a) == wrap(n, a),
{
    lemma_pow2_pos(a);
    lemma_pow2_pos((b - a) as nat);
    lemma_pow2_adds(a, (b - a) as nat);
    lemma_mod_mod(n, pow2(a) as int, pow2((b - a) as nat) as int);
}

/// The magnitude of an encoding is the value's residue modulo `2^width_bits`.
pub proof fn lemma_magnitude_of_encode(x: int, width_bits: u32, endian: Endian)
    requires
        supported_width(width_bits),
    ensures
        magnitude(encode(x, width_bits, endian), endian) == wrap(x, width_bits as nat),
        encode(x, width_bits, endian).len() == width_bits / 8,
        wrap(x, width_bits as nat) < pow2(width_bits as nat),
{
    let bits = width_bits as nat;
    let len = (width_bits / 8) as nat;
    let low_first = le_bytes(wrap(x, bits), len);
    lemma_pow2_pos(bits);
    lemma_le_bytes_len(wrap(x, bits), len);
    lemma_reorder_involution(low_first, endian);
    lemma_le_value_of_le_bytes(wrap(x, bits), len);
    lemma_small_mod(wrap(x, bits), pow2(bits));
}

/// Unsigned round trip: packing any integer without strictness and unpacking the bytes
/// as unsigned, at the same width and byte order, gives the integer's residue modulo
/// `2^width_bits`.
///
/// At 128 bits this holds of the residues below `2^127`, the ones that the scalar can hold;
/// [`lemma_roundtrip_full_width`] covers that width.
pub proof fn lemma_roundtrip_unsigned(x: int, width_bits: u32, endian: Endian)
    requires
        supported_width(width_bits),
        width_bits < 128 || wrap(x, 128) < pow2(127),
    ensures
        pack_fault(x, width_bits, false, false) is None,
        decode(encode(x, width_bits, endian), width_bits, endian, false) == wrap(
            x,
            width_bits as nat,
        ),
{
    lemma_magnitude_of_encode(x, width_bits, endian);
}

/// Signed round trip: a value within `[-2^(bits-1), 2^(bits-1) - 1]` is accepted by strict
/// signed packing, and unpacking its bytes as signed, at the same width and byte order,
/// gives the value back exactly.
pub proof fn lemma_roundtrip_signed(x: int, width_bits: u32, endian: Endian)
    requires
        supported_width(width_bits),
        -pow2((width_bits - 1) as nat) <= x <= pow2((width_bits - 1) as nat) - 1,
    ensures
        pack_fault(x, width_bits, true, true) is None,
        decode(encode(x, width_bits, endian), width_bits, endian, true) == x,
{
    let bits = width_bits as nat;
    lemma_magnitude_of_encode(x, width_bits, endian);
    lemma_pow2_adds((bits - 1) as nat, 1);
    lemma2_to64();
    let m = pow2(bits) as int;
    if x >= 0 {
        lemma_small_mod(x as nat, pow2(bits));
    } else {
        vstd::arithmetic::div_mod::lemma_fundamental_div_mod_converse(x, m, -1, x + m);
    }
}

/// Round trip at 128 bits: every scalar comes back unchanged, packed without strictness
/// and unpacked as signed or as unsigned.
pub proof fn lemma_roundtrip_full_width(x: i128, endian: Endian, signed: bool)
    ensures
        decode(encode(x as int, 128, endian), 128, endian, signed) == x,
{
    lemma_width_powers();
    lemma_roundtrip_signed(x as int, 128, endian);
}

/// Every scalar that a full chunk holds fits the scalar type.
pub proof fn lemma_decode_fits(bytes: Seq<u8>, width_bits: u32, endian: Endian, signed: bool)
    requires
        supported_width(width_bits),
        bytes.len() == width_bits / 8,
    ensures
        i128::MIN <= decode(bytes, width_bits, endian, signed) <= i128::MAX,
{
    lemma_width_powers();
    lemma_le_value_bound(reorder(bytes, endian));
}

/// Unpacking and packing again: the bytes of a full chunk come back unchanged, whatever
/// the signedness of the reading.
pub proof fn lemma_pack_inverts_unpack(
    bytes: Seq<u8>,
    width_bits: u32,
    endian: Endian,
    signed: bool,
)
    requires
        supported_width(width_bits),
        bytes.len() == width_bits / 8,
    ensures
        encode(decode(bytes, width_bits, endian, signed), width_bits, endian) == bytes,
{
    let bits = width_bits as nat;
    let low_first = reorder(bytes, endian);
    let m = le_value(low_first);
    let p = pow2(bits) as int;
    lemma_le_value_bound(low_first);
    lemma_le_bytes_of_le_value(low_first);
    let n = decode(bytes, width_bits, endian, signed);
    assert(wrap(n, bits) == m) by {
        if n == m {
            lemma_small_mod(m, pow2(bits));
        } else {
            vstd::arithmetic::div_mod::lemma_fundamental_div_mod_converse(n, p, -1, m as int);
        }
    }
}

/// Whether `width_bits` is one of the supported widths.
pub fn is_supported_width(width_bits: u32) -> (ok: bool)
    ensures
        ok == supported_width(width_bits),
{
    width_bits == 8 || width_bits == 16 || width_bits == 32 || width_bits == 64 || width_bits
        == 128
}

/// The number of bytes that a scalar of `width_bits` bits occupies.
pub fn width_bytes(width_bits: u32) -> (n: usize)
    requires
        supported_width(width_bits),
    ensures
        n == width_bits / 8,
        n * 8 == width_bits,
{
    if width_bits == 8 {
        1
    } else if width_bits == 16 {
        2
    } else if width_bits == 32 {
        4
    } else if width_bits == 64 {
        8
    } else {
        16
    }
}

/// The mask `2^width_bits - 1`.
fn width_mask(width_bits: u32) -> (mask: u128)
    requires
        supported_width(width_bits),
    ensures
        mask == pow2(width_bits as nat) - 1,
{
    proof {
        lemma_width_powers();
    }
    if width_bits == 8 {
        0xff
    } else if width_bits == 16 {
        0xffff
    } else if width_bits == 32 {
        0xffff_ffff
    } else if width_bits == 64 {
        0xffff_ffff_ffff_ffff
    } else {
        u128::MAX
    }
}

/// The 128-bit two's-complement pattern of `n`, as an unsigned number.
fn to_unsigned(n: i128) -> (u: u128)
    ensures
        u == wrap(n as int, 128),
{
    proof {
        lemma_width_powers();
    }
    if n >= 0 {
        n as u128
    } else {
        u128::MAX - ((-(n + 1)) as u128)
    }
}

/// The signed number whose 128-bit two's-complement pattern is `u`.
fn to_signed(u: u128) -> (n: i128)
    ensures
        n == (if u >= pow2(127) {
            u - pow2(128)
        } else {
            u as int
        }),
{
    proof {
        lemma_width_powers();
    }
    if u > 0x7fff_ffff_ffff_ffff_ffff_ffff_ffff_ffff {
        -((u128::MAX - u) as i128) - 1
    } else {
        u as i128
    }
}

/// The low `width_bits` bits of `u`.
fn truncate(u: u128, width_bits: u32) -> (v: u128)
    requires
        supported_width(width_bits),
    ensures
        v == wrap(u as int, width_bits as nat),
{
    let mask = width_mask(width_bits);
    let v = u & mask;
    proof {
        lemma_width_powers();
        assert(u & 0xff == u % 0x100) by (bit_vector);
        assert(u & 0xffff == u % 0x1_0000) by (bit_vector);
        assert(u & 0xffff_ffff == u % 0x1_0000_0000) by (bit_vector);
        assert(u & 0xffff_ffff_ffff_ffff == u % 0x1_0000_0000_0000_0000) by (bit_vector);
        assert(u & 0xffff_ffff_ffff_ffff_ffff_ffff_ffff_ffff == u) by (bit_vector);
        if width_bits == 128 {
            lemma_small_mod(u as nat, pow2(128));
        }
    }
    v
}

/// The `len` low bytes of `v`, least-significant first.
fn split_le(v: u128, len: usize) -> (out: Vec<u8>)
    ensures
        out@ == le_bytes(v as nat, len as nat),
{
    let mut out: Vec<u8> = Vec::new();
    let mut cur: u128 = v;
    let mut i: usize = 0;
    while i < len
        invariant
            i <= len,
            le_bytes(v as nat, len as nat) == out@ + le_bytes(cur as nat, (len - i) as nat),
        decreases len - i,
    {
        let b: u8 = (cur % 256) as u8;
        out.push(b);
        cur = cur / 256;
        i = i + 1;
    }
    out
}

/// The number whose least-significant-first bytes are `bytes`.
fn join_le(bytes: &[u8]) -> (v: u128)
    requires
        bytes@.len() <= 16,
    ensures
        v == le_value(bytes@),
{
    let mut acc: u128 = 0;
    let mut i: usize = bytes.len();
    while i > 0
        invariant
            i <= bytes@.len() <= 16,
            acc == le_value(bytes@.skip(i as int)),
        decreases i,
    {
        proof {
            let tail = bytes@.skip(i as int);
            let next = bytes@.skip(i - 1);
            assert(next.drop_first() =~= tail);
            lemma_le_value_bound(tail);
            lemma_pow2_adds(8, 120);
            lemma_width_powers();
            if 8 * tail.len() < 120 {
                lemma_pow2_strictly_increases(8 * tail.len(), 120);
            }
        }
        i = i - 1;
        acc = acc * 256 + bytes[i] as u128;
    }
    proof {
        assert(bytes@.skip(0) =~= bytes@);
    }
    acc
}

/// The bytes of `bytes` in the opposite order.
pub fn reversed(bytes: &[u8]) -> (out: Vec<u8>)
    ensures
        out@ == bytes@.reverse(),
{
    let mut out: Vec<u8> = Vec::new();
    let mut i: usize = bytes.len();
    while i > 0
        invariant
            i <= bytes@.len(),
            out@.len() == bytes@.len() - i,
            forall|k: int| 0 <= k < out@.len() ==> out@[k] == bytes@[bytes@.len() - 1 - k],
        decreases i,
    {
        i = i - 1;
        out.push(bytes[i]);
    }
    out
}

/// Packs `n` into `width_bits / 8` bytes in the byte order `endian`.
///
/// Under `strict`, a value outside the range of the width and signedness is refused with
/// the fault that [`pack_fault`] names. Otherwise the value is reduced modulo
/// `2^width_bits`, whatever `signed` says.
pub fn pack_scalar(n: i128, width_bits: u32, endian: Endian, signed: bool, strict: bool) -> (r:
    Result<Vec<u8>, PakxError>)
    requires
        supported_width(width_bits),
    ensures
        match r {
            Ok(bytes) => {
                &&& pack_fault(n as int, width_bits, signed, strict) is None
                &&& bytes@ == encode(n as int, width_bits, endian)
                &&& bytes@.len() == width_bits / 8
            },
            Err(e) => pack_fault(n as int, width_bits, signed, strict) == Some(e@),
        },
{
    let len = width_bytes(width_bits);
    proof {
        lemma_width_powers();
    }
    if strict {
        if signed {
            if width_bits < 128 {
                let half: u128 = (width_mask(width_bits) - 1) / 2 + 1;
                let top: i128 = half as i128;
                if n < -top || n > top - 1 {
                    return Err(PakxError::Range { value: n, bits: width_bits, signed: true });
                }
            }
        } else {
            if n < 0 {
                return Err(PakxError::Sign { value: n });
            }
            if n as u128 > width_mask(width_bits) {
                return Err(PakxError::Range { value: n, bits: width_bits, signed: false });
            }
        }
    }
    let v = truncate(to_unsigned(n), width_bits);
    proof {
        lemma_wrap_wrap(n as int, width_bits as nat, 128);
        lemma_le_bytes_len(v as nat, len as nat);
    }
    let low_first = split_le(v, len);
    match endian {
        Endian::Little => Ok(low_first),
        Endian::Big => Ok(reversed(low_first.as_slice())),
    }
}

/// Reads the scalar that `bytes` hold at `width_bits` bits in the byte order `endian`.
///
/// `bytes` must hold exactly `width_bits / 8` bytes.
pub fn unpack_scalar(bytes: &[u8], width_bits: u32, endian: Endian, signed: bool) -> (n: i128)
    requires
        supported_width(width_bits),
        bytes@.len() == width_bits / 8,
    ensures
        n == decode(bytes@, width_bits, endian, signed),
{
    let m: u128 = match endian {
        Endian::Little => join_le(bytes),
        Endian::Big => {
            let low_first = reversed(bytes);
            join_le(low_first.as_slice())
        },
    };
    proof {
        lemma_width_powers();
        lemma_le_value_bound(reorder(bytes@, endian));
    }
    if width_bits == 128 {
        to_signed(m)
    } else if signed && m > (width_mask(width_bits) - 1) / 2 {
        m as i128 - (width_mask(width_bits) as i128) - 1
    } else {
        m as i128
    }
}

} // verus!
