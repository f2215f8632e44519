use vstd::prelude::*;
use vstd::arithmetic::power2::{pow2, lemma_pow2_adds, lemma_pow2_pos, lemma_pow2_strictly_increases, lemma2_to64, lemma2_to64_rest};
use vstd::bits::lemma_u64_shl_is_mul;
use crate::codec::KernelError;
use crate::ieee754::{lemma_pack_narrow, encodes, exponent_field, mantissa_field, sign_field, lemma_pack_significand};
use crate::ops::{Plain, ValueOps};
use crate::oblivious::{integer_sqrt, integer_sqrt_cost};
use crate::sqrt::{in_order, is_root, lemma_root_unique};

verus! {

/// The width of the stored mantissa, which fixes the order of every radicand
/// that the pipeline roots.
pub const SQRT_ORDER: u32 = 23;

/// Comparisons and selects spent by `oblivious_float_sqrt`.
pub open spec fn float_sqrt_cost() -> nat {
    2 + integer_sqrt_cost(23)
}

/// The radicand that the pipeline roots for the word `w`: the significand
/// shifted left by 24 where the unbiased exponent is odd, by 23 where it is
/// even, so that the exponent left over is even.
pub open spec fn radicand_of(w: u32) -> int {
    (mantissa_field(w) + 0x80_0000) * (if exponent_field(w) % 2 == 0 {
        pow2(24)
    } else {
        pow2(23)
    })
}

/// `r` is the square root that the pipeline gives for `w`: sign 0, the
/// exponent halved (rounding the unbiased exponent down), and as significand
/// the integer square root of the radicand.
pub open spec fn is_sqrt_word(w: u32, r: u32) -> bool {
    &&& sign_field(r) == 0
    &&& exponent_field(r) == (exponent_field(w) + 127) / 2
    &&& is_root(radicand_of(w), mantissa_field(r) + 0x80_0000)
}

/// Integer square root of a radicand of order 23, the width of the
/// mantissa, in a fixed number of rounds.
pub fn isqrt_homo<P: ValueOps>(p: &mut P, x: &P::Value) -> (r: P::Value)
    requires
        in_order(P::value_of(x) as int, 23),
        old(p).tally() + integer_sqrt_cost(23) <= u64::MAX,
    ensures
        is_root(P::value_of(x) as int, P::value_of(&r) as int),
        final(p).tally() == old(p).tally() + integer_sqrt_cost(23),
{
    integer_sqrt(p, x, SQRT_ORDER)
}

/// Reading the fields of a 64-bit word below `2^31` as a 32-bit word.
proof fn lemma_narrow_fields(w: u64)
    requires
        w < 0x8000_0000,
    ensures
        sign_field(w as u32) == 0,
        exponent_field(w as u32) == w >> 23,
        mantissa_field(w as u32) == w & 0x7f_ffff,
        (w & 0x7f_ffff) | 0x80_0000 == (w & 0x7f_ffff) + 0x80_0000,
        (w & 0x7f_ffff) < 0x80_0000,
        w >> 23 < 256,
        (w >> 23) & 1 == (w >> 23) % 2,
{
    assert(((w as u32) >> 31) == 0 && (((w as u32) >> 23) & 0xff) == w >> 23 && ((w as u32) & 0x7f_ffff)
        == w & 0x7f_ffff && (w & 0x7f_ffff) | 0x80_0000 == (w & 0x7f_ffff) + 0x80_0000 && (w & 0x7f_ffff)
        < 0x80_0000 && w >> 23 < 256 && (w >> 23) & 1 == (w >> 23) % 2) by (bit_vector)
        requires
            w < 0x8000_0000,
    ;
}

/// The square root of a radicand in `[2^46, 2^48)` lies in `[2^23, 2^24)`.
proof fn lemma_root_range(n: int, r: int)
    requires
        0x4000_0000_0000 <= n < 0x1_0000_0000_0000,
        is_root(n, r),
    ensures
        0x80_0000 <= r < 0x100_0000,
{
    if r >= 0x100_0000 {
        assert(r * r >= 0x100_0000 * 0x100_0000) by (nonlinear_arith)
            requires
                r >= 0x100_0000,
        ;
    }
    if r < 0x80_0000 {
        assert((r + 1) * (r + 1) <= 0x80_0000 * 0x80_0000) by (nonlinear_arith)
            requires
                0 <= r < 0x80_0000,
        ;
    }
}

/// Square root of a packed single-precision word with sign 0 and a non-zero
/// exponent, without branching on it: both radicands are formed and one is
/// selected, and the recurrence runs its full 23 rounds.
pub fn oblivious_float_sqrt<P: ValueOps>(p: &mut P, word: &P::Value) -> (r: P::Value)
    requires
        0x80_0000 <= P::value_of(word) < 0x8000_0000,
        old(p).tally() + float_sqrt_cost() <= u64::MAX,
    ensures
        P::value_of(&r) < 0x1_0000_0000,
        is_sqrt_word(P::value_of(word) as u32, P::value_of(&r) as u32),
        final(p).tally() == old(p).tally() + float_sqrt_cost(),
{
    let ghost wv: u64 = P::value_of(word);
    proof {
        lemma_narrow_fields(wv);
        lemma2_to64();
        lemma2_to64_rest();
    }
    let exponent: P::Value = p.shr(word, 23);
    let mask: P::Value = p.constant(0x7F_FFFF);
    let mantissa: P::Value = p.and(word, &mask);
    let hidden: P::Value = p.constant(0x80_0000);
    let significand: P::Value = p.or(&mantissa, &hidden);
    let one: P::Value = p.constant(1);
    let zero: P::Value = p.constant(0);
    let low_bit: P::Value = p.and(&exponent, &one);
    // An even biased exponent is an odd unbiased one.
    let odd: P::Flag = p.equal(&low_bit, &zero);
    let ghost sv: u64 = P::value_of(&significand);
    proof {
        assert(0x80_0000 <= sv < 0x100_0000);
        lemma_pow2_strictly_increases(48, 64);
        lemma_u64_shl_is_mul(sv, 24);
        lemma_u64_shl_is_mul(sv, 23);
        assert(sv * pow2(24) < 0x1_0000_0000_0000) by (nonlinear_arith)
            requires
                sv < 0x100_0000,
                pow2(24) == 0x100_0000,
        ;
        assert(sv * pow2(23) >= 0x4000_0000_0000) by (nonlinear_arith)
            requires
                sv >= 0x80_0000,
                pow2(23) == 0x80_0000,
        ;
        assert(sv * pow2(23) <= sv * pow2(24)) by (nonlinear_arith)
            requires
                sv >= 0,
                pow2(23) <= pow2(24),
        ;
    }
    let wide: P::Value = p.shl(&significand, 24);
    let narrow: P::Value = p.shl(&significand, 23);
    let radicand: P::Value = p.select(&odd, &wide, &narrow);
    proof {
        assert(pow2(46) == 0x4000_0000_0000);
        assert(pow2(48) == 0x1_0000_0000_0000);
        assert(2 * 23 + 2 == 48);
    }
    let root: P::Value = isqrt_homo(p, &radicand);
    proof {
        lemma_root_range(P::value_of(&radicand) as int, P::value_of(&root) as int);
    }
    let bias: P::Value = p.constant(127);
    let biased: P::Value = p.add(&exponent, &bias);
    let halved: P::Value = p.shr(&biased, 1);
    let high: P::Value = p.shl(&halved, 23);
    let low: P::Value = p.and(&root, &mask);
    let r: P::Value = p.or(&high, &low);
    proof {
        let e = P::value_of(&halved);
        let t = P::value_of(&root);
        vstd::bits::lemma_u64_shr_is_div(P::value_of(&biased), 1);
        lemma_pack_narrow(e, t);
        lemma_pack_significand(e as u32, t as u32);
    }
    r
}

/// Square root of a packed single-precision word. A set sign bit is
/// rejected as `NegativeInput`; an exponent field of 0 (zero, and the
/// subnormals that this format leaves out) as `ZeroInput`.
pub fn float_sqrt(word: u32) -> (r: Result<u32, KernelError>)
    ensures
        sign_field(word) == 1 <==> r == Err::<u32, KernelError>(KernelError::NegativeInput),
        sign_field(word) == 0 && exponent_field(word) == 0 <==> r == Err::<u32, KernelError>(
            KernelError::ZeroInput,
        ),
        sign_field(word) == 0 && exponent_field(word) != 0 <==> r is Ok,
        r matches Ok(v) ==> is_sqrt_word(word, v),
{
    proof {
        assert((word >> 31) < 2 && ((word >> 31) == 0 ==> word < 0x8000_0000) && (((word >> 23) & 0xff)
            != 0 ==> word >= 0x80_0000) && ((word >> 31) == 0 ==> (word as u64) < 0x8000_0000)) by (bit_vector);
    }
    if word >> 31 == 1 {
        return Err(KernelError::NegativeInput);
    }
    if (word >> 23) & 0xFF == 0 {
        return Err(KernelError::ZeroInput);
    }
    let mut p: Plain = Plain::new();
    let r: u64 = oblivious_float_sqrt(&mut p, &(word as u64));
    Ok(r as u32)
}

/// The square root of the word that encodes a perfect square `n²`, with
/// `1 ≤ n ≤ 2^11`, is the word that encodes `n`.
pub proof fn lemma_perfect_square_root(n: int, w: u32, r: u32)
    requires
        1 <= n <= 0x800,
        encodes(w, n * n),
        is_sqrt_word(w, r),
    ensures
        encodes(r, n),
{
    let e = exponent_field(w) as int;
    let sig = mantissa_field(w) + 0x80_0000;
    let shift: nat = (150 - e) as nat;
    // The radicand is `n² · 2^(2h)`, with `h` the shift that the result's
    // exponent asks for.
    let h: nat = if e % 2 == 0 {
        ((174 - e) / 2) as nat
    } else {
        ((173 - e) / 2) as nat
    };
    lemma2_to64();
    lemma_pow2_pos(shift);
    lemma_pow2_pos(h);
    if e % 2 == 0 {
        lemma_pow2_adds(shift, 24);
        assert(shift + 24 == 2 * h);
    } else {
        lemma_pow2_adds(shift, 23);
        assert(shift + 23 == 2 * h);
    }
    lemma_pow2_adds(h, h);
    let q = n * pow2(h);
    let rad = radicand_of(w);
    assert(rad == n * n * pow2(2 * h)) by (nonlinear_arith)
        requires
            rad == sig * (if e % 2 == 0 {
                pow2(24)
            } else {
                pow2(23)
            }),
            sig == n * n * pow2(shift),
            e % 2 == 0 ==> pow2(shift) * pow2(24) == pow2(2 * h),
            e % 2 != 0 ==> pow2(shift) * pow2(23) == pow2(2 * h),
    ;
    assert(q * q == rad) by (nonlinear_arith)
        requires
            q == n * pow2(h),
            rad == n * n * pow2(2 * h),
            pow2(h) * pow2(h) == pow2(2 * h),
    ;
    assert(q >= 0) by (nonlinear_arith)
        requires
            n >= 1,
            pow2(h) > 0,
            q == n * pow2(h),
    ;
    lemma_root_unique(rad, mantissa_field(r) + 0x80_0000, q);
    assert(150 - exponent_field(r) == h);
}

} // verus!
