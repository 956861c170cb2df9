//! Parsing inverts rendering: the hex text that the formatter writes for some bytes is text
//! that the hex token parser reads as those bytes, and the decimal text that it writes for a
//! scalar is a literal of that scalar.

use crate::error::{ascii_text, Fault};
use crate::hex::{
    byte_pairs, hex_bytes, lemma_hex_bytes_step, lemma_token_len_bound, prepend, token_bytes,
    token_len,
};
use crate::literal::literal_value;
use crate::render::{
    decimal, decimal_digits, hex_digit, hex_pair, joined_pairs, rendering, OutFmt,
};
use crate::scalar::lemma_width_powers;
use crate::text::{
    all_digits, digit_value, digits_value, is_digit, is_separator, is_whitespace, trim, utf8_len,
};
use vstd::prelude::*;
use vstd::utf8::{encode_utf8, is_ascii_chars, is_ascii_chars_encode_utf8};

verus! {

/// The bytes of `first`, then those of `rest`; the fault of whichever fails first.
pub open spec fn then_bytes(first: Result<Seq<u8>, Fault>, rest: Result<Seq<u8>, Fault>) -> Result<
    Seq<u8>,
    Fault,
> {
    match first {
        Ok(head) => prepend(head, rest),
        Err(fault) => Err(fault),
    }
}

/// Whether every character of `sep` parts tokens.
pub open spec fn all_separators(sep: Seq<char>) -> bool {
    forall|i: int| 0 <= i < sep.len() ==> is_separator(#[trigger] sep[i])
}

/// The two hex digits of `b` as characters.
pub open spec fn pair_text(b: u8, uppercase: bool) -> Seq<char> {
    seq![
        hex_digit((b / 16) as nat, uppercase) as char,
        hex_digit((b % 16) as nat, uppercase) as char,
    ]
}

/// The hex pairs of `data` as characters, with `sep` between each two of them.
pub open spec fn hex_text(data: Seq<u8>, sep: Seq<char>, uppercase: bool) -> Seq<char>
    decreases data.len(),
{
    if data.len() == 0 {
        Seq::empty()
    } else if data.len() == 1 {
        pair_text(data[0], uppercase)
    } else {
        hex_text(data.drop_last(), sep, uppercase) + sep + pair_text(data.last(), uppercase)
    }
}

/// The first token of a text does not change when more text follows a separator, and
/// runs on into what follows where the text holds no separator.
pub proof fn lemma_token_len_append(s: Seq<char>, u: Seq<char>)
    ensures
        token_len(s) < s.len() ==> token_len(s + u) == token_len(s),
        token_len(s) >= s.len() ==> token_len(s + u) == s.len() + token_len(u),
    decreases s.len(),
{
    if s.len() == 0 {
        assert(s + u =~= u);
    } else if !is_separator(s[0]) {
        assert((s + u).drop_first() =~= s.drop_first() + u);
        lemma_token_len_append(s.drop_first(), u);
    }
}

/// Text before a separator and text after it parse apart.
pub proof fn lemma_hex_bytes_split(s: Seq<char>, c: char, u: Seq<char>)
    requires
        is_separator(c),
    ensures
        hex_bytes(s + seq![c] + u) == then_bytes(hex_bytes(s), hex_bytes(u)),
    decreases s.len(),
{
    let after = seq![c] + u;
    let whole = s + seq![c] + u;
    let n = token_len(s);
    assert(whole =~= s + after);
    lemma_token_len_bound(s);
    lemma_token_len_append(s, after);
    lemma_hex_bytes_step(whole);
    lemma_hex_bytes_step(s);
    if n < s.len() {
        let later = s.skip(n as int + 1);
        assert(whole.take(n as int) =~= s.take(n as int));
        assert(whole.skip(n as int + 1) =~= later + seq![c] + u);
        lemma_hex_bytes_split(later, c, u);
        if let Ok(head) = token_bytes(s.take(n as int)) {
            if let Ok(mid) = hex_bytes(later) {
                if let Ok(tail) = hex_bytes(u) {
                    assert(head + (mid + tail) =~= (head + mid) + tail);
                }
            }
        }
    } else {
        assert(whole.take(n as int) =~= s);
        assert(s.take(n as int) =~= s);
        assert(whole.skip(n as int + 1) =~= u);
    }
}

/// Separators at the start of a text add nothing to its parse.
pub proof fn lemma_hex_bytes_skips_separators(sep: Seq<char>, u: Seq<char>)
    requires
        all_separators(sep),
    ensures
        hex_bytes(sep + u) == hex_bytes(u),
    decreases sep.len(),
{
    if sep.len() == 0 {
        assert(sep + u =~= u);
    } else {
        let rest = sep.drop_first();
        let none = Seq::<char>::empty();
        assert(sep + u =~= none + seq![sep[0]] + (rest + u));
        lemma_hex_bytes_split(none, sep[0], rest + u);
        lemma_hex_bytes_step(none);
        if let Ok(tail) = hex_bytes(rest + u) {
            assert(Seq::<u8>::empty() + tail =~= tail);
        }
        assert forall|i: int| 0 <= i < rest.len() implies is_separator(#[trigger] rest[i]) by {
            assert(rest[i] == sep[i + 1]);
        }
        lemma_hex_bytes_skips_separators(rest, u);
    }
}

/// A pair's characters are two hex digits that write the byte.
pub proof fn lemma_pair_text(b: u8, uppercase: bool)
    ensures
        pair_text(b, uppercase).len() == 2,
        is_digit(pair_text(b, uppercase)[0], 16),
        is_digit(pair_text(b, uppercase)[1], 16),
        16 * digit_value(pair_text(b, uppercase)[0]) + digit_value(pair_text(b, uppercase)[1])
            == b,
        is_ascii_chars(pair_text(b, uppercase)),
        encode_utf8(pair_text(b, uppercase)) == hex_pair(b, uppercase),
{
    let text = pair_text(b, uppercase);
    is_ascii_chars_encode_utf8(text);
}

/// A hex digit parts no tokens, takes one byte in UTF-8, and is neither `x` nor `X`.
pub proof fn lemma_hex_digit_is_plain(c: char)
    requires
        is_digit(c, 16),
    ensures
        !is_separator(c),
        (c as u32) < 0x80,
        c != 'x',
        c != 'X',
{
}

/// The UTF-8 of two texts in a row is the UTF-8 of the first, then that of the second.
pub proof fn lemma_encode_utf8_concat(a: Seq<char>, b: Seq<char>)
    ensures
        encode_utf8(a + b) == encode_utf8(a) + encode_utf8(b),
    decreases a.len(),
{
    if a.len() == 0 {
        assert(a + b =~= b);
    } else {
        assert((a + b).drop_first() =~= a.drop_first() + b);
        lemma_encode_utf8_concat(a.drop_first(), b);
    }
}

/// The text of the hex pairs is the rendered hex line, read as UTF-8.
pub proof fn lemma_hex_text_encodes(data: Seq<u8>, sep: Seq<char>, uppercase: bool)
    ensures
        encode_utf8(hex_text(data, sep, uppercase)) == joined_pairs(
            data,
            encode_utf8(sep),
            uppercase,
        ),
        encode_utf8(hex_text(data, sep, uppercase) + seq!['\n']) == rendering(
            OutFmt::Hex,
            data,
            encode_utf8(sep),
            uppercase,
        ),
    decreases data.len(),
{
    let text = hex_text(data, sep, uppercase);
    if data.len() == 1 {
        lemma_pair_text(data[0], uppercase);
    } else if data.len() > 1 {
        let init = hex_text(data.drop_last(), sep, uppercase);
        lemma_hex_text_encodes(data.drop_last(), sep, uppercase);
        lemma_pair_text(data.last(), uppercase);
        lemma_encode_utf8_concat(init, sep);
        lemma_encode_utf8_concat(init + sep, pair_text(data.last(), uppercase));
    }
    let newline = seq!['\n'];
    lemma_encode_utf8_concat(text, newline);
    is_ascii_chars_encode_utf8(newline);
    assert(encode_utf8(newline) =~= seq!['\n' as u8]);
}

/// Two digits more at the end of a digit string: the string stays one of digits, and grows
/// by two bytes and by one byte pair.
pub proof fn lemma_pair_appended(t: Seq<char>, b: u8, uppercase: bool)
    requires
        all_digits(t, 16),
        t.len() % 2 == 0,
    ensures
        all_digits(t + pair_text(b, uppercase), 16),
        utf8_len(t + pair_text(b, uppercase)) == utf8_len(t) + 2,
        byte_pairs(t + pair_text(b, uppercase)) == byte_pairs(t).push(b),
    decreases t.len(),
{
    let pair = pair_text(b, uppercase);
    let all = t + pair;
    lemma_pair_text(b, uppercase);
    assert forall|i: int| 0 <= i < all.len() implies is_digit(#[trigger] all[i], 16) by {
        if i < t.len() {
            assert(all[i] == t[i]);
        } else {
            assert(all[i] == pair[i - t.len()]);
        }
    }
    assert(utf8_len(all) == utf8_len(t) + 2) by {
        assert(all.drop_last().drop_last() =~= t);
        reveal_with_fuel(utf8_len, 2);
    }
    if t.len() == 0 {
        assert(all =~= pair);
        assert(all.skip(2) =~= Seq::<char>::empty());
        reveal_with_fuel(byte_pairs, 2);
    } else {
        let rest = t.skip(2);
        assert(all.skip(2) =~= rest + pair);
        assert forall|i: int| 0 <= i < rest.len() implies is_digit(#[trigger] rest[i], 16) by {
            assert(rest[i] == t[i + 2]);
        }
        lemma_pair_appended(rest, b, uppercase);
    }
}

/// A text without separators is one token.
pub proof fn lemma_one_token(t: Seq<char>)
    requires
        forall|i: int| 0 <= i < t.len() ==> !is_separator(#[trigger] t[i]),
    ensures
        token_len(t) == t.len(),
        hex_bytes(t) == token_bytes(t),
    decreases t.len(),
{
    if t.len() > 0 {
        let rest = t.drop_first();
        assert forall|i: int| 0 <= i < rest.len() implies !is_separator(#[trigger] rest[i]) by {
            assert(rest[i] == t[i + 1]);
        }
        lemma_one_token(rest);
    }
    lemma_hex_bytes_step(t);
    assert(t.take(t.len() as int) =~= t);
}

/// Hex pairs with nothing between them are digits, two to a byte, that write the bytes.
pub proof fn lemma_pairs_in_a_row(data: Seq<u8>, uppercase: bool)
    ensures
        all_digits(hex_text(data, Seq::empty(), uppercase), 16),
        hex_text(data, Seq::empty(), uppercase).len() == 2 * data.len(),
        utf8_len(hex_text(data, Seq::empty(), uppercase)) == 2 * data.len(),
        byte_pairs(hex_text(data, Seq::empty(), uppercase)) == data,
        hex_bytes(hex_text(data, Seq::empty(), uppercase)) == Ok::<Seq<u8>, Fault>(data),
    decreases data.len(),
{
    let none = Seq::<char>::empty();
    let text = hex_text(data, none, uppercase);
    if data.len() == 0 {
        assert(byte_pairs(text) =~= data);
    } else {
        let init = hex_text(data.drop_last(), none, uppercase);
        let pair = pair_text(data.last(), uppercase);
        lemma_pairs_in_a_row(data.drop_last(), uppercase);
        lemma_pair_appended(init, data.last(), uppercase);
        if data.len() == 1 {
            assert(init + pair =~= text);
        } else {
            assert(init + none + pair =~= init + pair);
        }
        assert(data.drop_last().push(data.last()) =~= data);
    }
    assert forall|i: int| 0 <= i < text.len() implies !is_separator(#[trigger] text[i]) by {
        lemma_hex_digit_is_plain(text[i]);
    }
    lemma_one_token(text);
    if text.len() >= 2 {
        lemma_hex_digit_is_plain(text[1]);
    }
}

/// The text of the hex pairs of `data`, with separators between them or with nothing,
/// parses to `data`.
pub proof fn lemma_hex_text_parses(data: Seq<u8>, sep: Seq<char>, uppercase: bool)
    requires
        all_separators(sep),
    ensures
        hex_bytes(hex_text(data, sep, uppercase)) == Ok::<Seq<u8>, Fault>(data),
    decreases data.len(),
{
    let none = Seq::<char>::empty();
    if sep.len() == 0 {
        assert(sep =~= none);
        lemma_pairs_in_a_row(data, uppercase);
    } else if data.len() <= 1 {
        lemma_pairs_in_a_row(data, uppercase);
    } else {
        let init = hex_text(data.drop_last(), sep, uppercase);
        let pair = pair_text(data.last(), uppercase);
        let last = seq![data.last()];
        lemma_hex_text_parses(data.drop_last(), sep, uppercase);
        assert(init + sep + pair =~= init + seq![sep[0]] + (sep.drop_first() + pair));
        lemma_hex_bytes_split(init, sep[0], sep.drop_first() + pair);
        assert forall|i: int| 0 <= i < sep.drop_first().len() implies is_separator(
            #[trigger] sep.drop_first()[i],
        ) by {
            assert(sep.drop_first()[i] == sep[i + 1]);
        }
        lemma_hex_bytes_skips_separators(sep.drop_first(), pair);
        lemma_pairs_in_a_row(last, uppercase);
        assert(data.drop_last() + last =~= data);
    }
}

/// Parsing inverts rendering: text whose UTF-8 is the hex rendering of `data`, with a
/// separator made of separator characters or with none at all, parses to `data`. The case
/// of the digits does not matter.
pub proof fn lemma_parse_inverts_render(
    text: Seq<char>,
    data: Seq<u8>,
    sep: Seq<char>,
    uppercase: bool,
)
    requires
        all_separators(sep),
        encode_utf8(text) == rendering(OutFmt::Hex, data, encode_utf8(sep), uppercase),
    ensures
        hex_bytes(text) == Ok::<Seq<u8>, Fault>(data),
{
    let line = hex_text(data, sep, uppercase);
    let written = line + seq!['\n'];
    lemma_hex_text_encodes(data, sep, uppercase);
    vstd::utf8::encode_utf8_decode_utf8(text);
    vstd::utf8::encode_utf8_decode_utf8(written);
    lemma_hex_text_parses(data, sep, uppercase);
    let none = Seq::<char>::empty();
    lemma_hex_bytes_split(line, '\n', none);
    lemma_one_token(none);
}

/// The decimal digits of a number are digits that write the number.
pub proof fn lemma_digits_of_decimal(n: nat)
    ensures
        decimal_digits(n).len() >= 1,
        all_digits(ascii_text(decimal_digits(n)), 10),
        digits_value(ascii_text(decimal_digits(n)), 10) == n,
    decreases n,
{
    let text = ascii_text(decimal_digits(n));
    if n < 10 {
        reveal_with_fuel(digits_value, 2);
    } else {
        let higher = ascii_text(decimal_digits(n / 10));
        lemma_digits_of_decimal(n / 10);
        assert(text.drop_last() =~= higher);
        assert forall|i: int| 0 <= i < text.len() implies is_digit(#[trigger] text[i], 10) by {
            if i < higher.len() {
                assert(text[i] == higher[i]);
            }
        }
    }
}

/// Reading inverts writing: the plain decimal text of a scalar is a literal that writes
/// the scalar.
pub proof fn lemma_literal_of_decimal(v: int)
    requires
        i128::MIN <= v <= i128::MAX,
    ensures
        literal_value(ascii_text(decimal(v))) == Some(v),
{
    let text = ascii_text(decimal(v));
    let m: nat = if v < 0 {
        (-v) as nat
    } else {
        v as nat
    };
    let digits = ascii_text(decimal_digits(m));
    lemma_digits_of_decimal(m);
    lemma_width_powers();
    assert(is_digit(digits[0], 10) && is_digit(digits.last(), 10));
    if v < 0 {
        assert(text =~= seq!['-'] + digits);
        assert(text.skip(1) =~= digits);
    } else {
        assert(text =~= digits);
        if text.len() >= 2 {
            assert(is_digit(text[1], 10));
        }
    }
    assert(!is_whitespace(text[0]) && !is_whitespace(text.last()));
    assert(text.skip(0) =~= text);
    assert(trim(text) =~= text);
}

} // verus!
