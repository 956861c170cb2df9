use pakx::{run_bswap, run_pack, run_unpack, Endian, Input, OutFmt, PakxError};

fn strings(values: &[&str]) -> Vec<String> {
    values.iter().map(|v| v.to_string()).collect()
}

fn text(out: Result<Vec<u8>, PakxError>) -> String {
    String::from_utf8(out.unwrap()).unwrap()
}

fn hex_input(s: &str) -> Input {
    Input::Hex(s.to_string())
}

#[test]
fn pack32_be_hex() {
    let out = run_pack(32, &strings(&["0x41424344"]), Endian::Big, false, OutFmt::Hex, " ", false, false, None);
    assert_eq!(text(out).to_lowercase(), "41 42 43 44\n");
}

#[test]
fn p64_sugar_le_default_hex() {
    let out = run_pack(64, &strings(&["0x0102030405060708"]), Endian::Little, false, OutFmt::Hex, " ", false, false, None);
    assert_eq!(text(out), "08 07 06 05 04 03 02 01\n");
}

#[test]
fn p64_be_hex() {
    let out = run_pack(64, &strings(&["0x0102030405060708"]), Endian::Big, false, OutFmt::Hex, " ", false, false, None);
    assert_eq!(text(out), "01 02 03 04 05 06 07 08\n");
}

#[test]
fn bswap64_hex() {
    let out = run_bswap(64, "0x4142434445464748", OutFmt::Hex, " ", false);
    assert_eq!(text(out), "48 47 46 45 44 43 42 41\n");
}

#[test]
fn unpack32_hex_be() {
    let out = run_unpack(32, &hex_input("41 42 43 44\n"), Endian::Big, false, None);
    assert_eq!(text(out), "1094861636\n");
}

#[test]
fn strict_overflow_errors() {
    let out = run_pack(8, &strings(&["0x1ff"]), Endian::Little, false, OutFmt::Raw, " ", false, true, None);
    let err = out.unwrap_err();
    assert!(err.message().contains("does not fit"));
    assert_eq!(err, PakxError::Range { value: 0x1ff, bits: 8, signed: false });
}

#[test]
fn pack_signed_negative_strict_ok() {
    let out = run_pack(16, &strings(&["-1"]), Endian::Little, true, OutFmt::Hex, " ", false, true, None);
    assert_eq!(text(out), "ff ff\n");
}

#[test]
fn unpack_signed_vs_unsigned() {
    let signed = run_unpack(16, &hex_input("ff ff\n"), Endian::Little, true, None);
    assert_eq!(text(signed), "-1\n");

    let uns = run_unpack(16, &hex_input("ff ff\n"), Endian::Little, false, None);
    assert_eq!(text(uns), "65535\n");
}

#[test]
fn count_limits_output() {
    let out = run_unpack(32, &hex_input("00 00 00 2a 00 00 00 2b\n"), Endian::Big, false, Some(1));
    assert_eq!(text(out), "42\n");
}

#[test]
fn repeat_sequence() {
    let out = run_pack(16, &strings(&["0x4142", "0x4344"]), Endian::Big, false, OutFmt::Hex, " ", false, false, Some(3));
    assert_eq!(text(out), "41 42 43 44 41 42 43 44 41 42 43 44\n");
}

#[test]
fn hex_separator_and_uppercase() {
    let out = run_pack(32, &strings(&["0x41424344"]), Endian::Big, false, OutFmt::Hex, ":", true, false, None);
    assert_eq!(text(out), "41:42:43:44\n");
}

#[test]
fn c_and_py_formats() {
    let cfmt = run_pack(8, &strings(&["0x41"]), Endian::Little, false, OutFmt::C, " ", true, false, None);
    assert_eq!(text(cfmt), "\\x41\n");
    let pyfmt = run_pack(16, &strings(&["0x4142"]), Endian::Big, false, OutFmt::Py, " ", false, false, None);
    assert_eq!(text(pyfmt), "b\"\\x41\\x42\"\n");
}
