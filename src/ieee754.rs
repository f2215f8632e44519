use vstd::prelude::*;
use vstd::arithmetic::power2::{pow2, lemma_pow2_adds, lemma_pow2_pos, lemma_pow2_strictly_increases, lemma2_to64};
use crate::oblivious::leading_bit_shift;
use crate::ops::Plain;

verus! {

/// Width of the stored mantissa.
pub const MANTISSA_SIZE: u32 = 23;

/// Offset added to the exponent in the packed word.
pub const EXPONENT_BIAS: u32 = 127;

/// The stored mantissa bits.
pub const MANTISSA_MASK: u32 = 0x7F_FFFF;

/// The implicit leading bit of a normalised significand.
pub const HIDDEN_BIT: u32 = 0x80_0000;

/// Bit 31 of a packed word.
pub open spec fn sign_field(w: u32) -> u32 {
    w >> 31
}

/// Bits 30 to 23 of a packed word, still biased.
pub open spec fn exponent_field(w: u32) -> u32 {
    (w >> 23) & 0xff
}

/// Bits 22 to 0 of a packed word.
pub open spec fn mantissa_field(w: u32) -> u32 {
    w & 0x7f_ffff
}

/// The packed word with sign `s`, biased exponent `e` and mantissa `m`.
pub open spec fn pack(s: u32, e: u32, m: u32) -> u32 {
    (s << 31) | (e << 23) | m
}

/// The packed word `w` stands for the positive integer `v`: its sign is 0,
/// its exponent lies between 0 and 23 once unbiased, and its significand
/// (the mantissa with the hidden bit) is `v · 2^(23 - exponent)`.
pub open spec fn encodes(w: u32, v: int) -> bool {
    &&& sign_field(w) == 0
    &&& 127 <= exponent_field(w) <= 150
    &&& mantissa_field(w) + 0x80_0000 == v * pow2((150 - exponent_field(w)) as nat)
}

/// The integer that a packed word with an exponent between 0 and 23 stands
/// for: its significand scaled down by `2^(23 - exponent)`.
pub open spec fn integer_value(w: u32) -> int {
    (mantissa_field(w) + 0x80_0000) as int / pow2((150 - exponent_field(w)) as nat) as int
}

/// The fields of a packed word read back what was packed.
pub proof fn lemma_pack_fields(s: u32, e: u32, m: u32)
    requires
        s < 2,
        e < 256,
        m < 0x80_0000,
    ensures
        sign_field(pack(s, e, m)) == s,
        exponent_field(pack(s, e, m)) == e,
        mantissa_field(pack(s, e, m)) == m,
        pack(s, e, m) == s * 0x8000_0000 + e * 0x80_0000 + m,
{
    assert(((((s << 31) | (e << 23) | m) >> 31) == s) && ((((s << 31) | (e << 23) | m) >> 23) & 0xff)
        == e && ((((s << 31) | (e << 23) | m) & 0x7f_ffff) == m) && ((s << 31) | (e << 23) | m) == s
        * 0x8000_0000 + e * 0x80_0000 + m) by (bit_vector)
        requires
            s < 2,
            e < 256,
            m < 0x80_0000,
    ;
}

/// A word is rebuilt from its three fields.
pub proof fn lemma_fields_pack(w: u32)
    ensures
        pack(sign_field(w), exponent_field(w), mantissa_field(w)) == w,
        sign_field(w) < 2,
        exponent_field(w) < 256,
        mantissa_field(w) < 0x80_0000,
{
    assert(((w >> 31) << 31 | ((w >> 23) & 0xff) << 23 | (w & 0x7f_ffff)) == w && (w >> 31) < 2
        && ((w >> 23) & 0xff) < 256 && (w & 0x7f_ffff) < 0x80_0000) by (bit_vector);
}

/// A significand in `[2^23, 2^24)` with its exponent encodes the integer it
/// scales down to, and that integer is the word's value.
pub proof fn lemma_encodes_value(w: u32, v: int)
    requires
        encodes(w, v),
    ensures
        integer_value(w) == v,
{
    let d = pow2((150 - exponent_field(w)) as nat) as int;
    lemma_pow2_pos((150 - exponent_field(w)) as nat);
    assert((v * d) / d == v) by (nonlinear_arith)
        requires
            d > 0,
    ;
}

/// Sign bit of a packed word.
pub fn ieee754_extract_sign(input: u32) -> (r: u32)
    ensures
        r == sign_field(input),
{
    input >> 31
}

/// Unbiased exponent of a packed word: bits 30 to 23 less the bias.
pub fn ieee754_extract_exponent(input: u32) -> (r: i32)
    ensures
        r == exponent_field(input) - 127,
{
    proof {
        lemma_fields_pack(input);
    }
    ((input >> 23) & 0xFF) as i32 - EXPONENT_BIAS as i32
}

/// Stored mantissa of a packed word, without the hidden bit.
pub fn ieee754_extract_mantissa(input: u32) -> (r: u32)
    ensures
        r == mantissa_field(input),
{
    input & 0x7FFFFF
}

/// Significand of a packed word: the mantissa with the hidden bit set.
pub fn significand(input: u32) -> (r: u32)
    ensures
        r == mantissa_field(input) + 0x80_0000,
{
    proof {
        assert((input & 0x7f_ffff) | 0x80_0000 == (input & 0x7f_ffff) + 0x80_0000) by (bit_vector);
    }
    (input & MANTISSA_MASK) | HIDDEN_BIT
}

/// Bit 23 of a value below `2^24` is clear exactly when the value is below
/// `2^23`.
pub proof fn lemma_hidden_bit_clear(y: u32)
    requires
        y < 0x100_0000,
    ensures
        ((y & 0x80_0000) == 0) == (y < 0x80_0000),
{
    assert(((y & 0x80_0000) == 0) == (y < 0x80_0000)) by (bit_vector)
        requires
            y < 0x100_0000,
    ;
}

/// A biased exponent `e` packed with the low bits of a significand `t` in
/// `[2^23, 2^24)` reads back as sign 0, exponent `e` and significand `t`.
pub proof fn lemma_pack_significand(e: u32, t: u32)
    requires
        e < 256,
        0x80_0000 <= t < 0x100_0000,
    ensures
        sign_field((e << 23) | (t & 0x7f_ffff)) == 0,
        exponent_field((e << 23) | (t & 0x7f_ffff)) == e,
        mantissa_field((e << 23) | (t & 0x7f_ffff)) + 0x80_0000 == t,
{
    assert(t & 0x7f_ffff == t - 0x80_0000) by (bit_vector)
        requires
            0x80_0000 <= t < 0x100_0000,
    ;
    lemma_pack_fields(0, e, (t & 0x7f_ffff) as u32);
    assert(pack(0, e, (t & 0x7f_ffff) as u32) == (e << 23) | (t & 0x7f_ffff)) by (bit_vector);
}

/// Packs a normalised significand `t = x · 2^shifts` with the exponent that
/// undoes the shifts, and shows that the word encodes `x`.
pub proof fn lemma_pack_normalised(x: int, t: u32, shifts: nat)
    requires
        0x80_0000 <= t < 0x100_0000,
        shifts <= 23,
        t == x * pow2(shifts),
    ensures
        encodes(((150 - shifts) as u32) << 23 | (t & 0x7f_ffff), x),
{
    lemma_pack_significand((150 - shifts) as u32, t);
}

/// Packs a magnitude in `(0, 2^24)` as a single-precision word, aligning its
/// leading bit with the hidden bit one shift at a time; `None` outside that
/// range.
pub fn u32_to_ieee754(significand: u32) -> (r: Option<u32>)
    ensures
        r.is_some() == (0 < significand < 0x100_0000),
        r matches Some(w) ==> encodes(w, significand as int),
{
    if significand == 0 || significand >= 0x100_0000 {
        return None;
    }
    let mut shifts: u32 = 0;
    let mut temp_significand: u32 = significand;
    proof {
        lemma2_to64();
        lemma_hidden_bit_clear(temp_significand);
    }
    while temp_significand & HIDDEN_BIT == 0
        invariant
            0 < significand < 0x100_0000,
            0 < temp_significand < 0x100_0000,
            shifts <= 23,
            temp_significand == significand * pow2(shifts as nat),
        decreases 23 - shifts,
    {
        proof {
            lemma_hidden_bit_clear(temp_significand);
            lemma_pow2_adds(shifts as nat, 1);
            lemma2_to64();
            lemma_pow2_pos(shifts as nat);
            if shifts == 23 {
                assert(significand * pow2(23) >= pow2(23)) by (nonlinear_arith)
                    requires
                        significand >= 1,
                        pow2(23) > 0,
                ;
            }
            assert(temp_significand << 1 == temp_significand * 2) by (bit_vector)
                requires
                    temp_significand < 0x80_0000,
            ;
            assert(significand * pow2(shifts as nat) * 2 == significand * (pow2(shifts as nat) * 2)) by (nonlinear_arith);
        }
        temp_significand = temp_significand << 1;
        shifts = shifts + 1;
    }
    proof {
        lemma_hidden_bit_clear(temp_significand);
        lemma_pack_normalised(significand as int, temp_significand, shifts as nat);
    }
    let exponent: u32 = EXPONENT_BIAS + MANTISSA_SIZE - shifts;
    let merged: u32 = (exponent << 23) | (temp_significand & 0x7FFFFF);
    Some(merged)
}

/// Packs a magnitude in `(0, 2^24)` as a single-precision word, counting the
/// shifts with the fixed-length scan of `leading_bit_shift` on plain words.
pub fn u32_to_ieee754_2nd(input: u32) -> (r: u32)
    requires
        0 < input < 0x100_0000,
    ensures
        encodes(r, input as int),
{
    let mut p: Plain = Plain::new();
    proof {
        lemma2_to64();
    }
    let shifts: u64 = leading_bit_shift(&mut p, &(input as u64), MANTISSA_SIZE);
    let shifts: u32 = shifts as u32;
    proof {
        lemma_pow2_strictly_increases(24, 32);
        vstd::bits::lemma_u32_shl_is_mul(input, shifts);
        assert(input * pow2(shifts as nat) < 0x100_0000);
    }
    let exponent: u32 = EXPONENT_BIAS + MANTISSA_SIZE - shifts;
    let normalised: u32 = input << shifts;
    proof {
        lemma_pack_normalised(input as int, normalised, shifts as nat);
    }
    (exponent << 23) | (normalised & MANTISSA_MASK)
}

/// A 64-bit word holding a biased exponent and the low bits of a
/// significand in `[2^23, 2^24)` fits in 32 bits and is the same as its
/// 32-bit packing.
pub proof fn lemma_pack_narrow(e: u64, t: u64)
    requires
        e < 256,
        0x80_0000 <= t < 0x100_0000,
    ensures
        (e << 23) | (t & 0x7f_ffff) < 0x1_0000_0000,
        ((e << 23) | (t & 0x7f_ffff)) as u32 == ((e as u32) << 23) | ((t as u32) & 0x7f_ffff),
{
    assert((e << 23) | (t & 0x7f_ffff) < 0x1_0000_0000 && ((e << 23) | (t & 0x7f_ffff)) as u32 == ((
    e as u32) << 23) | ((t as u32) & 0x7f_ffff)) by (bit_vector)
        requires
            e < 256,
            0x80_0000 <= t < 0x100_0000,
    ;
}

} // verus!
