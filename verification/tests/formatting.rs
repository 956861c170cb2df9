use pakx::{run_bswap, run_pack, run_unpack, Endian, Input, OutFmt};

fn pack_hex(width_bits: u32, value: &str, endian: Endian) -> String {
    let values = vec![value.to_string()];
    let out = run_pack(width_bits, &values, endian, false, OutFmt::Hex, " ", false, false, None);
    String::from_utf8(out.unwrap()).unwrap()
}

#[test]
fn p32_le_default() {
    assert_eq!(pack_hex(32, "0x11223344", Endian::Little), "44 33 22 11\n");
}

#[test]
fn p32_be() {
    assert_eq!(pack_hex(32, "0x11223344", Endian::Big), "11 22 33 44\n");
}

#[test]
fn u64_hex_le_vs_be() {
    let data = "01 02 03 04 05 06 07 08\n";
    let le = run_unpack(64, &Input::Hex(data.to_string()), Endian::Little, false, None).unwrap();
    assert_eq!(String::from_utf8(le).unwrap(), "578437695752307201\n");

    let be = run_unpack(64, &Input::Hex(data.to_string()), Endian::Big, false, None).unwrap();
    assert_eq!(String::from_utf8(be).unwrap(), "72623859790382856\n");
}

#[test]
fn bswap16_32() {
    let s16 = run_bswap(16, "0x1234", OutFmt::Hex, " ", false).unwrap();
    assert_eq!(String::from_utf8(s16).unwrap(), "34 12\n");

    let s32 = run_bswap(32, "0x11223344", OutFmt::Hex, " ", false).unwrap();
    assert_eq!(String::from_utf8(s32).unwrap(), "44 33 22 11\n");
}
