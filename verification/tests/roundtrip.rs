use pakx::{pack_scalar, unpack_scalar, Endian};

const WIDTHS: [u32; 5] = [8, 16, 32, 64, 128];

fn mask(bits: u32, x: i128) -> i128 {
    if bits == 128 {
        x
    } else {
        let m = (1i128 << bits) - 1;
        x & m
    }
}

/// A fixed sequence of scalars that covers the corners and a spread of bit patterns.
fn samples() -> Vec<i128> {
    let mut out = vec![
        0,
        1,
        -1,
        2,
        -2,
        127,
        128,
        -128,
        -129,
        255,
        256,
        511,
        32767,
        32768,
        -32768,
        -32769,
        65535,
        65536,
        i32::MAX as i128,
        i32::MIN as i128,
        u32::MAX as i128,
        u32::MAX as i128 + 1,
        i64::MAX as i128,
        i64::MIN as i128,
        u64::MAX as i128,
        u64::MAX as i128 + 1,
        i128::MAX,
        i128::MIN,
        i128::MAX - 1,
        i128::MIN + 1,
    ];
    let mut state: u128 = 0x2545_f491_4f6c_dd1d_9e37_79b9_7f4a_7c15;
    for _ in 0..2000 {
        state = state
            .wrapping_mul(0x5851_f42d_4c95_7f2d_1405_7b7e_f767_814f)
            .wrapping_add(0x1405_7b7e_f767_814f_5851_f42d_4c95_7f2d);
        out.push(state as i128);
        out.push((state >> 64) as i128);
        out.push(-((state >> 96) as i128));
    }
    out
}

#[test]
fn roundtrip_unsigned() {
    for width in WIDTHS {
        for endian in [Endian::Little, Endian::Big] {
            for x in samples() {
                let b = pack_scalar(x, width, endian, false, false).unwrap();
                assert_eq!(b.len(), (width / 8) as usize);
                let y = unpack_scalar(&b, width, endian, false);
                assert_eq!(y, mask(width, x));
            }
        }
    }
}

#[test]
fn roundtrip_signed_in_range() {
    for width in [8u32, 16, 32, 64] {
        let bits = width;
        let min = -((1i128) << (bits - 1));
        let max = ((1i128) << (bits - 1)) - 1;
        for endian in [Endian::Little, Endian::Big] {
            for x in samples() {
                let xi = ((x as i32) as i128).clamp(min, max);
                let b = pack_scalar(xi, width, endian, true, true).unwrap();
                let y = unpack_scalar(&b, width, endian, true);
                assert_eq!(y, xi);
            }
        }
    }
}

#[test]
fn roundtrip_signed_full_range_of_each_width() {
    for width in WIDTHS {
        let min = if width == 128 { i128::MIN } else { -((1i128) << (width - 1)) };
        let max = if width == 128 { i128::MAX } else { ((1i128) << (width - 1)) - 1 };
        for endian in [Endian::Little, Endian::Big] {
            for x in samples() {
                let xi = x.clamp(min, max);
                let b = pack_scalar(xi, width, endian, true, true).unwrap();
                assert_eq!(unpack_scalar(&b, width, endian, true), xi);
            }
        }
    }
}

#[test]
fn roundtrip_at_128_bits_returns_the_scalar() {
    for endian in [Endian::Little, Endian::Big] {
        for signed in [false, true] {
            for x in samples() {
                let b = pack_scalar(x, 128, endian, false, false).unwrap();
                assert_eq!(unpack_scalar(&b, 128, endian, signed), x);
            }
        }
    }
}

#[test]
fn unpack_then_pack_returns_the_bytes() {
    for width in WIDTHS {
        let len = (width / 8) as usize;
        for endian in [Endian::Little, Endian::Big] {
            for signed in [false, true] {
                for x in samples().into_iter().take(300) {
                    let bytes: Vec<u8> = x.to_le_bytes()[..len].to_vec();
                    let v = unpack_scalar(&bytes, width, endian, signed);
                    let back = pack_scalar(v, width, endian, signed, false).unwrap();
                    assert_eq!(back, bytes);
                }
            }
        }
    }
}
