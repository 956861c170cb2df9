//! Fixed-width integers to bytes and back, for building and inspecting byte sequences.
//!
//! The crate has four parts:
//!
//! - [`scalar`], the codec between a signed scalar and its bytes at a width of 8, 16, 32,
//!   64 or 128 bits, in either byte order, signed or unsigned, strict or truncating;
//! - [`hex`], the parser of text that holds hex byte tokens;
//! - [`render`], the formatter of bytes as raw output, hex pairs or escape text, and of
//!   scalars as decimal lines;
//! - [`ops`], the four operations that a command line offers over these: pack, unpack,
//!   byte swap and byte passthrough.
//!
//! [`literal`] reads the integer literals and width names of a command line, [`text`]
//! classifies characters, and [`error`] names what can be refused. [`inverse`] proves that
//! the parsers read back what the formatter writes.
//!
//! Nothing here reads or writes: every operation takes what was given and returns the
//! bytes to write. Every function states what it returns as a mathematical function of its
//! arguments, and is proved to return just that.

pub mod error;
pub mod hex;
pub mod inverse;
pub mod literal;
pub mod ops;
pub mod render;
pub mod scalar;
pub mod text;

pub use crate::error::{Fault, PakxError};
pub use crate::hex::{parse_hex_str, InFmt};
pub use crate::literal::{parse_int, parse_width};
pub use crate::ops::{
    endian_from, pack_literal, run_bswap, run_bytes, run_pack, run_unpack, unpack_chunks, Input,
};
pub use crate::render::{decimal_bytes, render_bytes, render_decimal_lines, OutFmt};
pub use crate::scalar::{
    is_supported_width, pack_scalar, reversed, unpack_scalar, width_bytes, Endian,
};
