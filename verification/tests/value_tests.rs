use wasm_calling::value::{f32_bits_to_usize, f64_bits_to_usize, value_to_usize};
use wasm_calling::wasm::ConstValue;

#[test]
fn integers_convert_as_casts_do() {
    assert_eq!(value_to_usize(ConstValue::I32(5)), 5);
    assert_eq!(value_to_usize(ConstValue::I32(-1)), (-1i32) as usize);
    assert_eq!(value_to_usize(ConstValue::I64(-2)), (-2i64) as usize);
    assert_eq!(value_to_usize(ConstValue::I64(1 << 40)), (1i64 << 40) as usize);
    assert_eq!(value_to_usize(ConstValue::V128(u128::MAX)), u128::MAX as usize);
    assert_eq!(value_to_usize(ConstValue::V128(3)), 3);
}

#[test]
fn doubles_truncate_and_saturate() {
    let cases: [f64; 18] = [
        0.0, -0.0, 0.5, 1.0, 1.5, 2.999, 3.7, 1e3, -1.0, -1e30, 1e30, f64::NAN, f64::INFINITY,
        f64::NEG_INFINITY, 4503599627370496.5, 9007199254740993.0, 18446744073709551615.0,
        f64::MIN_POSITIVE,
    ];
    for v in cases {
        assert_eq!(f64_bits_to_usize(v.to_bits()), v as usize, "{v}");
        assert_eq!(value_to_usize(ConstValue::F64Bits(v.to_bits())), v as usize, "{v}");
    }
}

#[test]
fn floats_truncate_and_saturate() {
    let cases: [f32; 14] = [
        0.0, -0.0, 0.25, 1.0, 7.9, 16777216.0, 3e9, -2.5, 1e20, 1e38, f32::NAN, f32::INFINITY,
        f32::NEG_INFINITY, f32::MIN_POSITIVE,
    ];
    for v in cases {
        assert_eq!(f32_bits_to_usize(v.to_bits()), v as usize, "{v}");
        assert_eq!(value_to_usize(ConstValue::F32Bits(v.to_bits())), v as usize, "{v}");
    }
}

#[test]
fn every_exponent_of_a_double() {
    for exp in 0u64..0x800 {
        for frac in [0u64, 1, 0x8_0000_0000_0000, 0xF_FFFF_FFFF_FFFF] {
            for sign in [0u64, 1] {
                let bits = (sign << 63) | (exp << 52) | frac;
                assert_eq!(f64_bits_to_usize(bits), f64::from_bits(bits) as usize, "{bits:#x}");
            }
        }
    }
}

#[test]
fn every_exponent_of_a_float() {
    for exp in 0u32..0x100 {
        for frac in [0u32, 1, 0x40_0000, 0x7F_FFFF] {
            for sign in [0u32, 1] {
                let bits = (sign << 31) | (exp << 23) | frac;
                assert_eq!(f32_bits_to_usize(bits), f32::from_bits(bits) as usize, "{bits:#x}");
            }
        }
    }
}
