use thesislib::codec::{decompose, fheint32_to_ieee754, recompose, DecomposedFloat, KernelError};
use thesislib::ieee754::{
    ieee754_extract_exponent, ieee754_extract_mantissa, ieee754_extract_sign, significand,
    u32_to_ieee754, u32_to_ieee754_2nd,
};
use thesislib::ops::Plain;

#[test]
fn decompose_thirty_six() {
    let d = decompose(36).unwrap();
    assert_eq!(d.sign, 0);
    assert_eq!(d.unbiased_exponent(), 5);
    assert_eq!(d.mantissa, 0x100000);
    assert_eq!(d.significand(), 0x900000);
    assert_eq!(recompose(d), 0x42100000);
}

#[test]
fn decompose_zero_fails() {
    assert_eq!(decompose(0), Err(KernelError::ZeroInput));
}

#[test]
fn decompose_too_wide_fails() {
    assert_eq!(decompose(1 << 24), Err(KernelError::WidthOverflow));
    assert_eq!(decompose(u32::MAX), Err(KernelError::WidthOverflow));
}

#[test]
fn round_trip_matches_single_precision() {
    let mut samples: Vec<u32> = (1..70000).collect();
    samples.extend([0x7F_FFFF, 0x80_0000, 0x80_0001, 0xFF_FFFF, 0xAB_CDEF]);
    for x in samples {
        let d = decompose(x).unwrap();
        assert_eq!(recompose(d), (x as f32).to_bits(), "x = {}", x);
    }
}

#[test]
fn recompose_packs_fields() {
    let d = DecomposedFloat { sign: 1, exponent: 0x80, mantissa: 0x40_0000 };
    assert_eq!(recompose(d), 0xC040_0000);
}

#[test]
fn extract_fields() {
    assert_eq!(ieee754_extract_sign(0x42100000), 0);
    assert_eq!(ieee754_extract_sign(0xC2100000), 1);
    assert_eq!(ieee754_extract_exponent(0x42100000), 5);
    // The sign bit is not part of the exponent: -36.0.
    assert_eq!(ieee754_extract_exponent(0xC2100000), 5);
    // Below 1.0 the unbiased exponent is negative: 0.25.
    assert_eq!(ieee754_extract_exponent(0x3E80_0000), -2);
    assert_eq!(ieee754_extract_exponent(0), -127);
    assert_eq!(ieee754_extract_mantissa(0x42100000), 0x100000);
    assert_eq!(significand(0x42100000), 0x900000);
    assert_eq!(significand(0x3F80_0000), 0x80_0000);
}

#[test]
fn stepwise_encoder() {
    assert_eq!(u32_to_ieee754(36), Some(0x42100000));
    assert_eq!(u32_to_ieee754(1), Some(0x3F80_0000));
    assert_eq!(u32_to_ieee754(0xFF_FFFF), Some((0xFF_FFFFu32 as f32).to_bits()));
    assert_eq!(u32_to_ieee754(0), None);
    assert_eq!(u32_to_ieee754(1 << 24), None);
}

#[test]
fn scanning_encoder() {
    assert_eq!(u32_to_ieee754_2nd(36), 0x42100000);
    assert_eq!(u32_to_ieee754_2nd(1), 0x3F80_0000);
    // The leading bit already sits at the hidden-bit position: no shift.
    assert_eq!(u32_to_ieee754_2nd(0x80_0000), 0x4B00_0000);
    assert_eq!(u32_to_ieee754_2nd(0xFF_FFFF), 0x4B7F_FFFF);
}

#[test]
fn encoders_agree() {
    for x in (1u32..0x100_0000).step_by(997) {
        let a = u32_to_ieee754(x).unwrap();
        let b = u32_to_ieee754_2nd(x);
        let mut p = Plain::new();
        let c = fheint32_to_ieee754(&mut p, &(x as u64));
        assert_eq!(a, b);
        assert_eq!(a as u64, c);
        assert_eq!(p.ops(), 72);
    }
}
