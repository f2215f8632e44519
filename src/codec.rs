use vstd::prelude::*;
use vstd::arithmetic::power2::{pow2, lemma_pow2_pos, lemma_pow2_strictly_increases, lemma2_to64};
use vstd::bits::lemma_u64_shl_is_mul;
use crate::ieee754::{lemma_pack_narrow, encodes, integer_value, pack, lemma_fields_pack, lemma_pack_fields, lemma_pack_normalised, lemma_encodes_value};
use crate::oblivious::{is_leading_shift, leading_bit_shift, leading_bit_shift_cost};
use crate::ops::{Plain, ValueOps};

verus! {

/// What the kernel reports on an input it cannot work on.
#[derive(Debug, Clone, Copy, PartialEq, Eq, Structural)]
pub enum KernelError {
    /// A zero magnitude has no leading bit to normalise.
    ZeroInput,
    /// A square root of a negative number was asked for.
    NegativeInput,
    /// A magnitude wider than the format can hold exactly.
    WidthOverflow,
}

/// A single-precision number taken apart: sign bit, biased exponent and the
/// stored 23 mantissa bits (the hidden leading 1 is implicit).
#[derive(Debug, Clone, Copy, PartialEq, Eq, Structural)]
pub struct DecomposedFloat {
    pub sign: u32,
    pub exponent: u32,
    pub mantissa: u32,
}

impl DecomposedFloat {
    /// Each field fits its width in the packed word.
    pub open spec fn wf(&self) -> bool {
        &&& self.sign < 2
        &&& self.exponent < 256
        &&& self.mantissa < 0x80_0000
    }

    /// The exponent with the bias taken off.
    pub fn unbiased_exponent(&self) -> (r: i32)
        requires
            self.wf(),
        ensures
            r == self.exponent - 127,
    {
        self.exponent as i32 - 127
    }

    /// The mantissa with the hidden bit restored.
    pub fn significand(&self) -> (r: u32)
        requires
            self.wf(),
        ensures
            r == self.mantissa + 0x80_0000,
    {
        self.mantissa + 0x80_0000
    }
}

/// `d` takes apart the positive integer `x`: sign 0, and the significand
/// scaled by `2^(exponent - 150)` is `x`.
pub open spec fn decomposes(d: DecomposedFloat, x: int) -> bool {
    &&& d.sign == 0
    &&& 127 <= d.exponent <= 150
    &&& d.mantissa < 0x80_0000
    &&& d.mantissa + 0x80_0000 == x * pow2((150 - d.exponent) as nat)
}

/// Comparisons and selects spent by `fheint32_to_ieee754`.
pub open spec fn pack_cost() -> nat {
    leading_bit_shift_cost(23) + 48
}

/// Packs a magnitude in `(0, 2^24)` as a single-precision word without
/// branching on it: the shift count comes from `leading_bit_shift`, and the
/// shifted magnitude is picked by a select among all 24 candidate shifts.
pub fn fheint32_to_ieee754<P: ValueOps>(p: &mut P, input: &P::Value) -> (r: P::Value)
    requires
        1 <= P::value_of(input) < 0x100_0000,
        old(p).tally() + pack_cost() <= u64::MAX,
    ensures
        P::value_of(&r) < 0x1_0000_0000,
        encodes(P::value_of(&r) as u32, P::value_of(input) as int),
        integer_value(P::value_of(&r) as u32) == P::value_of(input),
        final(p).tally() == old(p).tally() + pack_cost(),
{
    let ghost xv: int = P::value_of(input) as int;
    let ghost start: nat = p.tally();
    proof {
        lemma2_to64();
    }
    let shifts: P::Value = leading_bit_shift(p, input, 23);
    let ghost kv: int = P::value_of(&shifts) as int;
    let mut normalised: P::Value = p.constant(0);
    let mut i: u32 = 0;
    while i <= 23
        invariant
            0 <= i <= 24,
            xv == P::value_of(input),
            1 <= xv < 0x100_0000,
            kv == P::value_of(&shifts),
            is_leading_shift(xv, 23, kv),
            kv < i ==> P::value_of(&normalised) == xv * pow2(kv as nat),
            p.tally() == start + leading_bit_shift_cost(23) + 2 * i,
            start + pack_cost() <= u64::MAX,
        decreases 24 - i,
    {
        let candidate: P::Value = p.constant(i as u64);
        let hit: P::Flag = p.equal(&shifts, &candidate);
        let shifted: P::Value = p.shl(input, i);
        proof {
            if kv == i {
                lemma_pow2_strictly_increases(24, 64);
                vstd::arithmetic::power2::lemma2_to64_rest();
                lemma_u64_shl_is_mul(P::value_of(input), i as u64);
            }
        }
        normalised = p.select(&hit, &shifted, &normalised);
        i = i + 1;
    }
    let bias: P::Value = p.constant(150);
    let exponent: P::Value = p.sub(&bias, &shifts);
    let high: P::Value = p.shl(&exponent, 23);
    let mask: P::Value = p.constant(0x7F_FFFF);
    let low: P::Value = p.and(&normalised, &mask);
    let r: P::Value = p.or(&high, &low);
    proof {
        let t = P::value_of(&normalised);
        let e = P::value_of(&exponent);
        lemma_pack_narrow(e, t);
        lemma_pack_normalised(xv, t as u32, kv as nat);
        lemma_encodes_value(P::value_of(&r) as u32, xv);
    }
    r
}

/// Takes a magnitude apart into sign, biased exponent and mantissa.
/// Zero has no leading bit; a magnitude of `2^24` or more does not fit the
/// 24-bit significand exactly.
pub fn decompose(x: u32) -> (r: Result<DecomposedFloat, KernelError>)
    ensures
        x == 0 <==> r == Err::<DecomposedFloat, KernelError>(KernelError::ZeroInput),
        x >= 0x100_0000 <==> r == Err::<DecomposedFloat, KernelError>(KernelError::WidthOverflow),
        r matches Ok(d) ==> decomposes(d, x as int),
        0 < x < 0x100_0000 ==> r is Ok,
{
    if x == 0 {
        return Err(KernelError::ZeroInput);
    }
    if x >= 0x100_0000 {
        return Err(KernelError::WidthOverflow);
    }
    let mut p: Plain = Plain::new();
    let word: u64 = fheint32_to_ieee754(&mut p, &(x as u64));
    let w: u32 = word as u32;
    proof {
        lemma_fields_pack(w);
    }
    let d: DecomposedFloat = DecomposedFloat {
        sign: w >> 31,
        exponent: (w >> 23) & 0xFF,
        mantissa: w & 0x7F_FFFF,
    };
    Ok(d)
}

/// Packs the three fields back into one word.
pub fn recompose(d: DecomposedFloat) -> (r: u32)
    requires
        d.wf(),
    ensures
        r == pack(d.sign, d.exponent, d.mantissa),
{
    (d.sign << 31) | (d.exponent << 23) | d.mantissa
}

/// Packing what `decompose` took apart gives back the magnitude: the word
/// encodes `x`, and the integer it stands for is `x`.
pub proof fn lemma_round_trip(x: u32, d: DecomposedFloat)
    requires
        0 < x < 0x100_0000,
        decomposes(d, x as int),
    ensures
        encodes(pack(d.sign, d.exponent, d.mantissa), x as int),
        integer_value(pack(d.sign, d.exponent, d.mantissa)) == x,
{
    lemma_pack_fields(d.sign, d.exponent, d.mantissa);
    lemma_encodes_value(pack(d.sign, d.exponent, d.mantissa), x as int);
}

} // verus!
