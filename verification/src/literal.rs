//! Integer literals and width names, as they are written on a command line.

use crate::error::{Fault, PakxError};
use crate::scalar::lemma_width_powers;
use crate::text::{
    all_digits, chars_of, digit_of, digits_value, has_hex_prefix, is_space, leading_spaces,
    lemma_digits_value_prefix, trailing_spaces, trim,
};
use vstd::arithmetic::power2::pow2;
use vstd::prelude::*;

verus! {

/// The number that the digits `d` write in the radix `radix`, where there is at least one
/// digit, all are digits of the radix, and the number is at most `limit`.
pub open spec fn digits_within(d: Seq<char>, radix: nat, limit: nat) -> Option<nat> {
    if d.len() > 0 && all_digits(d, radix) && digits_value(d, radix) <= limit {
        Some(digits_value(d, radix))
    } else {
        None
    }
}

/// The scalar that the literal `s` writes, if it writes one.
///
/// Whitespace at either end does not count. What begins with `0x` or `0X` is hexadecimal:
/// at least one hex digit, no sign, at most `2^127 - 1`. Anything else is decimal: an
/// optional `+` or `-`, then at least one digit, within `[-2^127, 2^127 - 1]`.
pub open spec fn literal_value(s: Seq<char>) -> Option<int> {
    let t = trim(s);
    if has_hex_prefix(t) {
        match digits_within(t.skip(2), 16, (pow2(127) - 1) as nat) {
            Some(m) => Some(m as int),
            None => None,
        }
    } else if t.len() > 0 && t[0] == '-' {
        match digits_within(t.skip(1), 10, pow2(127)) {
            Some(m) => Some(-(m as int)),
            None => None,
        }
    } else if t.len() > 0 && t[0] == '+' {
        match digits_within(t.skip(1), 10, (pow2(127) - 1) as nat) {
            Some(m) => Some(m as int),
            None => None,
        }
    } else {
        match digits_within(t, 10, (pow2(127) - 1) as nat) {
            Some(m) => Some(m as int),
            None => None,
        }
    }
}

/// The width that the text `s` names: exactly one of `8`, `16`, `32`, `64`, `128`.
pub open spec fn width_named(s: Seq<char>) -> Option<u32> {
    if s == seq!['8'] {
        Some(8u32)
    } else if s == seq!['1', '6'] {
        Some(16u32)
    } else if s == seq!['3', '2'] {
        Some(32u32)
    } else if s == seq!['6', '4'] {
        Some(64u32)
    } else if s == seq!['1', '2', '8'] {
        Some(128u32)
    } else {
        None
    }
}

/// Reads the digits `cs[start..end]` in the radix `radix`, up to `limit`.
fn read_digits(cs: &Vec<char>, start: usize, end: usize, radix: u8, limit: u128) -> (r: Option<
    u128,
>)
    requires
        start <= end <= cs@.len(),
        2 <= radix <= 36,
        limit >= 36,
    ensures
        match r {
            Some(v) => digits_within(
                cs@.subrange(start as int, end as int),
                radix as nat,
                limit as nat,
            ) == Some(v as nat),
            None => digits_within(
                cs@.subrange(start as int, end as int),
                radix as nat,
                limit as nat,
            ) is None,
        },
{
    let ghost all = cs@.subrange(start as int, end as int);
    if start == end {
        return None;
    }
    let mut acc: u128 = 0;
    let mut j: usize = start;
    while j < end
        invariant
            start <= j <= end <= cs@.len(),
            2 <= radix <= 36,
            limit >= 36,
            all == cs@.subrange(start as int, end as int),
            all_digits(cs@.subrange(start as int, j as int), radix as nat),
            acc == digits_value(cs@.subrange(start as int, j as int), radix as nat),
            acc <= limit,
        decreases end - j,
    {
        let ghost seen = cs@.subrange(start as int, j as int);
        let ghost next = cs@.subrange(start as int, j + 1);
        proof {
            assert(next.drop_last() =~= seen);
            assert(next.last() == cs@[j as int]);
            assert(all.take(j + 1 - start) =~= next);
        }
        match digit_of(cs[j], radix) {
            None => {
                return None;
            },
            Some(d) => {
                let room: u128 = (limit - d as u128) / (radix as u128);
                if acc > room {
                    proof {
                        lemma_digits_value_prefix(all, radix as nat, j + 1 - start);
                        assert(acc * radix + d > limit) by (nonlinear_arith)
                            requires
                                acc >= (limit - d) / (radix as int) + 1,
                                radix >= 2,
                                limit >= d,
                        ;
                    }
                    return None;
                }
                proof {
                    assert(acc * radix + d <= limit) by (nonlinear_arith)
                        requires
                            acc <= (limit - d) / (radix as int),
                            radix >= 2,
                            limit >= d,
                            acc >= 0,
                    ;
                }
                acc = acc * (radix as u128) + d as u128;
            },
        }
        j = j + 1;
    }
    Some(acc)
}

/// Reads an integer literal: decimal with an optional sign, or hexadecimal after `0x` or
/// `0X`, with whitespace allowed at either end.
pub fn parse_int(s: &str) -> (r: Result<i128, PakxError>)
    ensures
        match r {
            Ok(v) => literal_value(s@) == Some(v as int),
            Err(e) => literal_value(s@) is None && e@ == (Fault::ParseLiteral { literal: s@ }),
        },
{
    let cs = chars_of(s);
    let n = cs.len();
    let mut a: usize = 0;
    proof {
        assert(s@.skip(0) =~= s@);
    }
    while a < n && is_space(cs[a])
        invariant
            cs@ == s@,
            n == cs@.len(),
            a <= n,
            leading_spaces(s@) == a + leading_spaces(s@.skip(a as int)),
        decreases n - a,
    {
        proof {
            assert(s@.skip(a as int).drop_first() =~= s@.skip(a + 1));
        }
        a = a + 1;
    }
    let ghost rest = s@.skip(a as int);
    let mut b: usize = n;
    while b > a && is_space(cs[b - 1])
        invariant
            cs@ == s@,
            n == cs@.len(),
            a <= b <= n,
            rest == s@.skip(a as int),
            trailing_spaces(rest) == (n - b) + trailing_spaces(s@.subrange(a as int, b as int)),
        decreases b,
    {
        proof {
            assert(s@.subrange(a as int, b as int).drop_last() =~= s@.subrange(a as int, b - 1));
        }
        b = b - 1;
    }
    let ghost t = s@.subrange(a as int, b as int);
    proof {
        assert(trim(s@) =~= t);
        lemma_width_powers();
    }
    let top: u128 = 0x7fff_ffff_ffff_ffff_ffff_ffff_ffff_ffff;
    let value: Option<i128> = if b - a >= 2 && cs[a] == '0' && (cs[a + 1] == 'x' || cs[a + 1]
        == 'X') {
        proof {
            assert(t.skip(2) =~= cs@.subrange(a + 2, b as int));
        }
        match read_digits(&cs, a + 2, b, 16, top) {
            Some(m) => Some(m as i128),
            None => None,
        }
    } else if a < b && cs[a] == '-' {
        proof {
            assert(t.skip(1) =~= cs@.subrange(a + 1, b as int));
        }
        match read_digits(&cs, a + 1, b, 10, top + 1) {
            Some(m) => Some(
                if m > top {
                    i128::MIN
                } else {
                    -(m as i128)
                },
            ),
            None => None,
        }
    } else if a < b && cs[a] == '+' {
        proof {
            assert(t.skip(1) =~= cs@.subrange(a + 1, b as int));
        }
        match read_digits(&cs, a + 1, b, 10, top) {
            Some(m) => Some(m as i128),
            None => None,
        }
    } else {
        match read_digits(&cs, a, b, 10, top) {
            Some(m) => Some(m as i128),
            None => None,
        }
    };
    match value {
        Some(v) => Ok(v),
        None => Err(PakxError::ParseLiteral { literal: s.to_owned() }),
    }
}

/// Reads the name of a width: one of `8`, `16`, `32`, `64`, `128`, written exactly so.
pub fn parse_width(s: &str) -> (r: Result<u32, PakxError>)
    ensures
        match r {
            Ok(w) => width_named(s@) == Some(w),
            Err(e) => width_named(s@) is None && e@ == Fault::UnsupportedWidth,
        },
{
    let cs = chars_of(s);
    let n = cs.len();
    if n == 1 && cs[0] == '8' {
        proof {
            assert(s@ =~= seq!['8']);
        }
        Ok(8)
    } else if n == 2 && cs[0] == '1' && cs[1] == '6' {
        proof {
            assert(s@ =~= seq!['1', '6']);
        }
        Ok(16)
    } else if n == 2 && cs[0] == '3' && cs[1] == '2' {
        proof {
            assert(s@ =~= seq!['3', '2']);
        }
        Ok(32)
    } else if n == 2 && cs[0] == '6' && cs[1] == '4' {
        proof {
            assert(s@ =~= seq!['6', '4']);
        }
        Ok(64)
    } else if n == 3 && cs[0] == '1' && cs[1] == '2' && cs[2] == '8' {
        proof {
            assert(s@ =~= seq!['1', '2', '8']);
        }
        Ok(128)
    } else {
        Err(PakxError::UnsupportedWidth)
    }
}

} // verus!
