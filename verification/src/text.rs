//! Characters: whitespace, separators, digits and their values.

use vstd::prelude::*;

verus! {

/// The characters that Unicode classes as white space.
pub open spec fn is_whitespace(c: char) -> bool {
    let u = c as u32;
    ||| 0x09 <= u <= 0x0d
    ||| u == 0x20
    ||| u == 0x85
    ||| u == 0xa0
    ||| u == 0x1680
    ||| 0x2000 <= u <= 0x200a
    ||| u == 0x2028
    ||| u == 0x2029
    ||| u == 0x202f
    ||| u == 0x205f
    ||| u == 0x3000
}

/// What parts the tokens of a hex stream: whitespace, or one of `:`, `,`, `-`, `;`.
pub open spec fn is_separator(c: char) -> bool {
    is_whitespace(c) || c == ':' || c == ',' || c == '-' || c == ';'
}

/// The value of `c` as a digit: 0 to 9 for `0-9`, 10 to 35 for `a-z` and for `A-Z`. Any
/// other character gets 256, which is a digit of no radix.
pub open spec fn digit_value(c: char) -> nat {
    let u = c as u32;
    if 0x30 <= u <= 0x39 {
        (u - 0x30) as nat
    } else if 0x61 <= u <= 0x7a {
        (u - 0x61 + 10) as nat
    } else if 0x41 <= u <= 0x5a {
        (u - 0x41 + 10) as nat
    } else {
        256
    }
}

/// Whether `c` is a digit of the radix `radix`.
pub open spec fn is_digit(c: char, radix: nat) -> bool {
    digit_value(c) < radix
}

/// Whether every character of `s` is a digit of the radix `radix`.
pub open spec fn all_digits(s: Seq<char>, radix: nat) -> bool {
    forall|i: int| 0 <= i < s.len() ==> is_digit(#[trigger] s[i], radix)
}

/// The number that the digits `s` write in the radix `radix`, most significant first.
pub open spec fn digits_value(s: Seq<char>, radix: nat) -> nat
    decreases s.len(),
{
    if s.len() == 0 {
        0
    } else {
        digits_value(s.drop_last(), radix) * radix + digit_value(s.last())
    }
}

/// The number of bytes that `c` takes in UTF-8.
pub open spec fn utf8_width(c: char) -> nat {
    let u = c as u32;
    if u < 0x80 {
        1
    } else if u < 0x800 {
        2
    } else if u < 0x1_0000 {
        3
    } else {
        4
    }
}

/// The number of bytes that `s` takes in UTF-8.
pub open spec fn utf8_len(s: Seq<char>) -> nat
    decreases s.len(),
{
    if s.len() == 0 {
        0
    } else {
        utf8_len(s.drop_last()) + utf8_width(s.last())
    }
}

/// Whether `s` begins with `0x` or `0X`.
pub open spec fn has_hex_prefix(s: Seq<char>) -> bool {
    s.len() >= 2 && s[0] == '0' && (s[1] == 'x' || s[1] == 'X')
}

/// The number of whitespace characters that `s` begins with.
pub open spec fn leading_spaces(s: Seq<char>) -> nat
    decreases s.len(),
{
    if s.len() > 0 && is_whitespace(s[0]) {
        1 + leading_spaces(s.drop_first())
    } else {
        0
    }
}

/// The number of whitespace characters that `s` ends with.
pub open spec fn trailing_spaces(s: Seq<char>) -> nat
    decreases s.len(),
{
    if s.len() > 0 && is_whitespace(s.last()) {
        1 + trailing_spaces(s.drop_last())
    } else {
        0
    }
}

/// `s` without the whitespace at its two ends.
pub open spec fn trim(s: Seq<char>) -> Seq<char> {
    let rest = s.skip(leading_spaces(s) as int);
    rest.take(rest.len() - trailing_spaces(rest))
}

/// A longer digit string writes no smaller number than its prefix.
pub proof fn lemma_digits_value_prefix(s: Seq<char>, radix: nat, k: int)
    requires
        0 <= k <= s.len(),
        radix >= 1,
    ensures
        digits_value(s.take(k), radix) <= digits_value(s, radix),
    decreases s.len() - k,
{
    if k == s.len() {
        assert(s.take(k) =~= s);
    } else {
        lemma_digits_value_prefix(s.drop_last(), radix, k);
        assert(s.drop_last().take(k) =~= s.take(k));
        let shorter = digits_value(s.drop_last(), radix);
        assert(shorter * radix >= shorter) by (nonlinear_arith)
            requires
                radix >= 1,
                shorter >= 0,
        ;
    }
}

/// Whether Unicode classes `c` as white space.
pub fn is_space(c: char) -> (b: bool)
    ensures
        b == is_whitespace(c),
{
    let u: u32 = c as u32;
    (0x09 <= u && u <= 0x0d) || u == 0x20 || u == 0x85 || u == 0xa0 || u == 0x1680 || (0x2000
        <= u && u <= 0x200a) || u == 0x2028 || u == 0x2029 || u == 0x202f || u == 0x205f || u
        == 0x3000
}

/// Whether `c` parts the tokens of a hex stream.
pub fn is_sep(c: char) -> (b: bool)
    ensures
        b == is_separator(c),
{
    is_space(c) || c == ':' || c == ',' || c == '-' || c == ';'
}

/// The value of `c` as a digit of the radix `radix`, if it is one.
pub fn digit_of(c: char, radix: u8) -> (d: Option<u8>)
    ensures
        match d {
            Some(v) => is_digit(c, radix as nat) && v == digit_value(c),
            None => !is_digit(c, radix as nat),
        },
{
    let u: u32 = c as u32;
    let v: u32 = if 0x30 <= u && u <= 0x39 {
        u - 0x30
    } else if 0x61 <= u && u <= 0x7a {
        u - 0x61 + 10
    } else if 0x41 <= u && u <= 0x5a {
        u - 0x41 + 10
    } else {
        256
    };
    if v < radix as u32 {
        Some(v as u8)
    } else {
        None
    }
}

/// Whether `c` takes an odd number of bytes in UTF-8.
pub fn odd_width(c: char) -> (b: bool)
    ensures
        b == (utf8_width(c) % 2 == 1),
{
    let u: u32 = c as u32;
    u < 0x80 || (0x800 <= u && u < 0x1_0000)
}

/// The characters of `s`, in order.
pub fn chars_of(s: &str) -> (v: Vec<char>)
    ensures
        v@ == s@,
{
    broadcast use vstd::string::group_string_axioms;

    let mut v: Vec<char> = Vec::new();
    for c in it: s.chars()
        invariant
            it.seq() == s@,
            v@ == s@.take(it.index()),
    {
        v.push(c);
    }
    v
}

} // verus!
