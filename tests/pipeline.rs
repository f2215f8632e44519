use thesislib::codec::KernelError;
use thesislib::pipeline::{float_sqrt, isqrt_homo, oblivious_float_sqrt};
use thesislib::ops::Plain;

#[test]
fn float_sqrt_of_thirty_six() {
    assert_eq!(float_sqrt(0x42100000), Ok(0x40C00000));
}

#[test]
fn float_sqrt_of_four_keeps_the_exponent() {
    assert_eq!(float_sqrt(4.0f32.to_bits()), Ok(2.0f32.to_bits()));
    assert_eq!(float_sqrt(1.0f32.to_bits()), Ok(1.0f32.to_bits()));
}

#[test]
fn float_sqrt_of_perfect_squares() {
    for n in 1u32..=2048 {
        let square = ((n * n) as f32).to_bits();
        assert_eq!(float_sqrt(square), Ok((n as f32).to_bits()), "n = {}", n);
    }
}

#[test]
fn float_sqrt_below_one() {
    assert_eq!(float_sqrt(0.25f32.to_bits()), Ok(0.5f32.to_bits()));
    assert_eq!(float_sqrt(0.0625f32.to_bits()), Ok(0.25f32.to_bits()));
}

#[test]
fn float_sqrt_rejects_negative() {
    assert_eq!(float_sqrt((-4.0f32).to_bits()), Err(KernelError::NegativeInput));
    assert_eq!(float_sqrt(0x8000_0000), Err(KernelError::NegativeInput));
}

#[test]
fn float_sqrt_rejects_zero() {
    assert_eq!(float_sqrt(0), Err(KernelError::ZeroInput));
    assert_eq!(float_sqrt(1), Err(KernelError::ZeroInput));
}

#[test]
fn float_sqrt_truncates_other_values() {
    // sqrt(2) = 1.41421356..., whose single-precision significand truncated
    // is 0xB504F3.
    assert_eq!(float_sqrt(2.0f32.to_bits()), Ok(0x3FB5_04F3));
}

#[test]
fn oblivious_pipeline_counts() {
    let mut p = Plain::new();
    assert_eq!(oblivious_float_sqrt(&mut p, &0x42100000), 0x40C00000);
    assert_eq!(p.ops(), 186);
    let mut q = Plain::new();
    oblivious_float_sqrt(&mut q, &0x3F80_0001);
    assert_eq!(q.ops(), 186);
}

#[test]
fn isqrt_homo_on_mantissa_width() {
    let mut p = Plain::new();
    assert_eq!(isqrt_homo(&mut p, &(1u64 << 46)), 1 << 23);
    assert_eq!(isqrt_homo(&mut p, &((1u64 << 48) - 1)), (1 << 24) - 1);
    assert_eq!(isqrt_homo(&mut p, &(0x90_0000u64 << 24)), 0xC0_0000);
}
