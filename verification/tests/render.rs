use pakx::{decimal_bytes, render_bytes, render_decimal_lines, OutFmt};

fn text(bytes: Vec<u8>) -> String {
    String::from_utf8(bytes).unwrap()
}

#[test]
fn raw_is_the_bytes_themselves() {
    assert_eq!(render_bytes(OutFmt::Raw, &[], " ", false), Vec::<u8>::new());
    assert_eq!(render_bytes(OutFmt::Raw, &[0, 255, 10, 0x80], ":", true), vec![0, 255, 10, 0x80]);
}

#[test]
fn hex_joins_pairs_and_ends_the_line() {
    assert_eq!(text(render_bytes(OutFmt::Hex, &[0xde, 0xad, 0xbe, 0xef, 0x00], " ", false)), "de ad be ef 00\n");
    assert_eq!(text(render_bytes(OutFmt::Hex, &[0xde, 0xad, 0xbe, 0xef], " ", true)), "DE AD BE EF\n");
    assert_eq!(text(render_bytes(OutFmt::Hex, &[0x0a], " ", false)), "0a\n");
    assert_eq!(text(render_bytes(OutFmt::Hex, &[0x0a, 0xf0], "", false)), "0af0\n");
    assert_eq!(text(render_bytes(OutFmt::Hex, &[1, 2, 3], ", ", false)), "01, 02, 03\n");
}

#[test]
fn hex_of_nothing_is_an_empty_line() {
    assert_eq!(text(render_bytes(OutFmt::Hex, &[], " ", false)), "\n");
    assert_eq!(text(render_bytes(OutFmt::Hex, &[], "::", true)), "\n");
}

#[test]
fn the_separator_is_written_in_utf8() {
    assert_eq!(text(render_bytes(OutFmt::Hex, &[1, 2, 3], "\u{2192}", false)), "01\u{2192}02\u{2192}03\n");
    assert_eq!(
        render_bytes(OutFmt::Hex, &[1, 2], "\u{e9}", false),
        vec![b'0', b'1', 0xc3, 0xa9, b'0', b'2', b'\n']
    );
}

#[test]
fn c_escapes_have_no_separator() {
    assert_eq!(text(render_bytes(OutFmt::C, &[0x41], " ", true)), "\\x41\n");
    assert_eq!(text(render_bytes(OutFmt::C, &[0xde, 0xad], " ", false)), "\\xde\\xad\n");
    assert_eq!(text(render_bytes(OutFmt::C, &[0xde, 0xad], "--", true)), "\\xDE\\xAD\n");
    assert_eq!(text(render_bytes(OutFmt::C, &[], " ", false)), "\n");
}

#[test]
fn python_escapes_are_quoted() {
    assert_eq!(text(render_bytes(OutFmt::Py, &[0x41, 0x42], " ", false)), "b\"\\x41\\x42\"\n");
    assert_eq!(text(render_bytes(OutFmt::Py, &[0xff], ":", true)), "b\"\\xFF\"\n");
    assert_eq!(text(render_bytes(OutFmt::Py, &[], " ", false)), "b\"\"\n");
}

#[test]
fn every_byte_renders_as_its_two_digits() {
    for b in 0..=255u8 {
        assert_eq!(text(render_bytes(OutFmt::Hex, &[b], " ", false)), format!("{:02x}\n", b));
        assert_eq!(text(render_bytes(OutFmt::Hex, &[b], " ", true)), format!("{:02X}\n", b));
        assert_eq!(text(render_bytes(OutFmt::C, &[b], " ", false)), format!("\\x{:02x}\n", b));
        assert_eq!(text(render_bytes(OutFmt::Py, &[b], " ", true)), format!("b\"\\x{:02X}\"\n", b));
    }
}

#[test]
fn decimal_text_of_scalars() {
    assert_eq!(text(decimal_bytes(0)), "0");
    assert_eq!(text(decimal_bytes(7)), "7");
    assert_eq!(text(decimal_bytes(10)), "10");
    assert_eq!(text(decimal_bytes(-1)), "-1");
    assert_eq!(text(decimal_bytes(1094861636)), "1094861636");
    assert_eq!(text(decimal_bytes(i128::MAX)), "170141183460469231731687303715884105727");
    assert_eq!(text(decimal_bytes(i128::MIN)), "-170141183460469231731687303715884105728");
}

#[test]
fn decimal_text_agrees_with_the_standard_library() {
    let mut state: u128 = 0xfeed_face_cafe_beef_0bad_f00d_dead_c0de;
    for round in 0..3000u32 {
        state = state
            .wrapping_mul(0x5851_f42d_4c95_7f2d_1405_7b7e_f767_814f)
            .wrapping_add(0x9e37_79b9_7f4a_7c15);
        let value = (state as i128) >> (round % 128);
        assert_eq!(text(decimal_bytes(value)), format!("{}", value));
    }
}

#[test]
fn decimal_lines_put_each_scalar_on_a_line() {
    assert_eq!(text(render_decimal_lines(&[])), "");
    assert_eq!(text(render_decimal_lines(&[42])), "42\n");
    assert_eq!(text(render_decimal_lines(&[42, -43, 0])), "42\n-43\n0\n");
}
