use pakx::{run_bytes, run_unpack, Endian, Input, OutFmt, PakxError};

#[test]
fn bytes_hex_to_hex_normalizes_separators() {
    let input = Input::Hex("de:ad, be ef  0x00\n".to_string());
    let out = run_bytes(&input, OutFmt::Hex, " ", false).unwrap();
    assert_eq!(String::from_utf8(out).unwrap(), "de ad be ef 00\n");
}

#[test]
fn bytes_hex_odd_nibbles_is_error() {
    let input = Input::Hex("0 a b cc d".to_string());
    let err = run_bytes(&input, OutFmt::Hex, " ", false).unwrap_err();
    assert!(err.message().contains("odd number of hex nibbles"));
    assert_eq!(err, PakxError::OddNibble { token: "0".to_string() });
}

#[test]
fn unpack_hex_bad_byte_errors() {
    let input = Input::Hex("gg\n".to_string());
    let err = run_unpack(8, &input, Endian::Little, false, None).unwrap_err();
    let message = err.message();
    assert!(
        message.contains("non-hex digit")
            || message.contains("invalid")
            || message.contains("bad hex byte")
    );
    assert_eq!(err, PakxError::InvalidHex { token: "gg".to_string() });
}
