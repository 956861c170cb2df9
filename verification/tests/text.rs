use pakx::text::{chars_of, digit_of, is_sep, is_space, odd_width};

#[test]
fn is_space_agrees_with_unicode_white_space() {
    for u in 0..=0x10ffffu32 {
        if let Some(c) = char::from_u32(u) {
            assert_eq!(is_space(c), c.is_whitespace(), "U+{:04X}", u);
        }
    }
}

#[test]
fn separators_are_whitespace_and_four_marks() {
    for u in 0..=0x10ffffu32 {
        if let Some(c) = char::from_u32(u) {
            let expected = c.is_whitespace() || c == ':' || c == ',' || c == '-' || c == ';';
            assert_eq!(is_sep(c), expected, "U+{:04X}", u);
        }
    }
}

#[test]
fn digit_of_agrees_with_to_digit() {
    for radix in [2u8, 8, 10, 16, 36] {
        for u in 0..=0x10ffffu32 {
            if let Some(c) = char::from_u32(u) {
                let expected = c.to_digit(radix as u32).map(|d| d as u8);
                assert_eq!(digit_of(c, radix), expected, "U+{:04X} radix {}", u, radix);
            }
        }
    }
}

#[test]
fn no_radix_makes_a_digit_of_another_character() {
    assert_eq!(digit_of('0', 0), None);
    assert_eq!(digit_of('0', 1), Some(0));
    assert_eq!(digit_of('1', 1), None);
    for radix in [37u8, 100, 255] {
        assert_eq!(digit_of('z', radix), Some(35));
        assert_eq!(digit_of('Z', radix), Some(35));
        assert_eq!(digit_of('{', radix), None);
        assert_eq!(digit_of(' ', radix), None);
        assert_eq!(digit_of('\u{e9}', radix), None);
    }
}

#[test]
fn hex_digits_have_their_values() {
    assert_eq!(digit_of('0', 16), Some(0));
    assert_eq!(digit_of('9', 16), Some(9));
    assert_eq!(digit_of('a', 16), Some(10));
    assert_eq!(digit_of('f', 16), Some(15));
    assert_eq!(digit_of('A', 16), Some(10));
    assert_eq!(digit_of('F', 16), Some(15));
    assert_eq!(digit_of('g', 16), None);
    assert_eq!(digit_of('G', 16), None);
    assert_eq!(digit_of('a', 10), None);
    assert_eq!(digit_of('/', 10), None);
    assert_eq!(digit_of(':', 10), None);
}

#[test]
fn odd_width_is_the_parity_of_the_utf8_length() {
    for u in 0..=0x10ffffu32 {
        if let Some(c) = char::from_u32(u) {
            assert_eq!(odd_width(c), c.len_utf8() % 2 == 1, "U+{:04X}", u);
        }
    }
}

#[test]
fn chars_of_lists_the_characters() {
    assert_eq!(chars_of(""), Vec::<char>::new());
    assert_eq!(chars_of("a\u{e9}\u{3000}\u{1f600}z"), vec!['a', '\u{e9}', '\u{3000}', '\u{1f600}', 'z']);
}
