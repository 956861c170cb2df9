use pakx::{parse_hex_str, PakxError};

fn odd(token: &str) -> PakxError {
    PakxError::OddNibble { token: token.to_string() }
}

fn invalid(token: &str) -> PakxError {
    PakxError::InvalidHex { token: token.to_string() }
}

/// The same grammar, written with the standard library's splitting and parsing.
fn by_std(s: &str) -> Result<Vec<u8>, PakxError> {
    let mut out = Vec::new();
    for raw in s.split(|c: char| c.is_whitespace() || [':', ',', '-', ';'].contains(&c)) {
        let t = raw.strip_prefix("0x").or_else(|| raw.strip_prefix("0X")).unwrap_or(raw);
        if t.len() % 2 != 0 {
            return Err(odd(raw));
        }
        if !t.chars().all(|c| c.is_ascii_hexdigit()) {
            return Err(invalid(raw));
        }
        for i in (0..t.len()).step_by(2) {
            out.push(u8::from_str_radix(&t[i..i + 2], 16).unwrap());
        }
    }
    Ok(out)
}

#[test]
fn mixed_separators_and_a_prefix() {
    assert_eq!(
        parse_hex_str("de:ad, be ef  0x00").unwrap(),
        vec![0xde, 0xad, 0xbe, 0xef, 0x00]
    );
}

#[test]
fn single_nibble_tokens_are_odd() {
    assert_eq!(parse_hex_str("0 a b cc d").unwrap_err(), odd("0"));
}

#[test]
fn empty_text_has_no_bytes() {
    assert_eq!(parse_hex_str("").unwrap(), Vec::<u8>::new());
    assert_eq!(parse_hex_str(" \t\r\n").unwrap(), Vec::<u8>::new());
    assert_eq!(parse_hex_str(":,;-").unwrap(), Vec::<u8>::new());
}

#[test]
fn each_separator_parts_tokens() {
    for sep in [" ", "\t", "\n", "\r\n", ":", ",", "-", ";", "\u{a0}", "\u{2003}", "\u{3000}", "\u{85}"] {
        let text = format!("01{}02", sep);
        assert_eq!(parse_hex_str(&text).unwrap(), vec![1, 2], "separator {:?}", sep);
    }
}

#[test]
fn separators_at_the_ends_and_in_a_row() {
    assert_eq!(parse_hex_str("  01,,02;;  ").unwrap(), vec![1, 2]);
    assert_eq!(parse_hex_str("-01-").unwrap(), vec![1]);
}

#[test]
fn a_token_may_hold_many_bytes() {
    assert_eq!(parse_hex_str("deadbeef").unwrap(), vec![0xde, 0xad, 0xbe, 0xef]);
    assert_eq!(parse_hex_str("0xDEADbeef 0X0102").unwrap(), vec![0xde, 0xad, 0xbe, 0xef, 1, 2]);
}

#[test]
fn digits_of_either_case() {
    assert_eq!(parse_hex_str("aB Cd eF").unwrap(), vec![0xab, 0xcd, 0xef]);
    assert_eq!(parse_hex_str("00 ff 7f 80").unwrap(), vec![0x00, 0xff, 0x7f, 0x80]);
}

#[test]
fn a_lone_prefix_is_ignored() {
    assert_eq!(parse_hex_str("0x").unwrap(), Vec::<u8>::new());
    assert_eq!(parse_hex_str("01 0X 02").unwrap(), vec![1, 2]);
}

#[test]
fn the_prefix_is_stripped_once() {
    assert_eq!(parse_hex_str("0x0x12").unwrap_err(), invalid("0x0x12"));
    assert_eq!(parse_hex_str("0x0").unwrap_err(), odd("0x0"));
    assert_eq!(parse_hex_str("x12").unwrap_err(), odd("x12"));
    assert_eq!(parse_hex_str("0x12").unwrap(), vec![0x12]);
}

#[test]
fn what_is_no_hex_digit_is_invalid() {
    assert_eq!(parse_hex_str("gg").unwrap_err(), invalid("gg"));
    assert_eq!(parse_hex_str("12 3g").unwrap_err(), invalid("3g"));
    assert_eq!(parse_hex_str("+1").unwrap_err(), invalid("+1"));
    assert_eq!(parse_hex_str("1.").unwrap_err(), invalid("1."));
}

#[test]
fn oddness_is_judged_before_digits() {
    assert_eq!(parse_hex_str("ggg").unwrap_err(), odd("ggg"));
    assert_eq!(parse_hex_str("0xg").unwrap_err(), odd("0xg"));
}

#[test]
fn length_is_counted_in_utf8_bytes() {
    assert_eq!(parse_hex_str("\u{e9}").unwrap_err(), invalid("\u{e9}"));
    assert_eq!(parse_hex_str("\u{e9}a").unwrap_err(), odd("\u{e9}a"));
    assert_eq!(parse_hex_str("ab\u{20ac}").unwrap_err(), odd("ab\u{20ac}"));
    assert_eq!(parse_hex_str("a\u{20ac}").unwrap_err(), invalid("a\u{20ac}"));
    assert_eq!(parse_hex_str("\u{1f600}").unwrap_err(), invalid("\u{1f600}"));
}

#[test]
fn the_first_bad_token_is_reported() {
    assert_eq!(parse_hex_str("zz 0").unwrap_err(), invalid("zz"));
    assert_eq!(parse_hex_str("0 zz").unwrap_err(), odd("0"));
    assert_eq!(parse_hex_str("01 02 abc zz").unwrap_err(), odd("abc"));
}

#[test]
fn agrees_with_the_standard_library_on_generated_text() {
    let alphabet: Vec<char> = "0123456789abcdefABCDEFxXgz :,;-\t\n\u{a0}\u{e9}\u{20ac}+".chars().collect();
    let mut state: u64 = 0x9e37_79b9_7f4a_7c15;
    for round in 0..4000 {
        let mut text = String::new();
        let len = round % 24;
        for _ in 0..len {
            state = state.wrapping_mul(6364136223846793005).wrapping_add(1442695040888963407);
            // Favour digits, so that many texts parse.
            let pick = (state >> 33) as usize % (alphabet.len() + 40);
            let c = if pick < alphabet.len() { alphabet[pick] } else { alphabet[pick % 22] };
            text.push(c);
        }
        assert_eq!(parse_hex_str(&text), by_std(&text), "text {:?}", text);
    }
}
