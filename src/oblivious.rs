use vstd::prelude::*;
use vstd::arithmetic::power2::{pow2, lemma_pow2_adds, lemma_pow2_pos, lemma_pow2_strictly_increases, lemma2_to64, lemma2_to64_rest};
use vstd::bits::{lemma_u64_shl_is_mul, lemma_u64_shr_is_div};
use crate::ops::ValueOps;
use crate::sqrt::{in_order, is_root, recurrence_state, lemma_digit_step, lemma_state_fits, lemma_recurrence_start};

verus! {

/// `m` is the order of `x` found by a scan of the candidates `1..=bound`:
/// the largest `m ≤ bound` with `4^m ≤ x`, and 0 for `x = 0`.
pub open spec fn is_capped_order(x: int, bound: nat, m: int) -> bool {
    &&& 0 <= m <= bound
    &&& x >= 1 ==> pow2(2 * m as nat) <= x
    &&& x >= 1 && m < bound ==> x < pow2(2 * m as nat + 2)
    &&& x <= 0 ==> m == 0
}

/// `k` shifts move the leading bit of `x` to bit `width`.
pub open spec fn is_leading_shift(x: int, width: nat, k: int) -> bool {
    &&& 0 <= k <= width
    &&& pow2(width) <= x * pow2(k as nat)
    &&& x * pow2(k as nat) < pow2(width + 1)
}

/// Comparisons and selects spent by `find_order`.
pub open spec fn find_order_cost(bound: nat) -> nat {
    bound
}

/// Comparisons and selects spent by `leading_bit_shift`.
pub open spec fn leading_bit_shift_cost(width: nat) -> nat {
    width + 1
}

/// Comparisons and selects spent by `integer_sqrt`.
pub open spec fn integer_sqrt_cost(m: nat) -> nat {
    8 * m
}

/// Order of `x`, found by comparing it with each of `4^1, ..., 4^bound` and
/// adding up the comparisons that hold; the number of comparisons does not
/// depend on `x`.
pub fn find_order<P: ValueOps>(p: &mut P, x: &P::Value, bound: u32) -> (m: P::Value)
    requires
        bound <= 31,
        old(p).tally() + find_order_cost(bound as nat) <= u64::MAX,
    ensures
        is_capped_order(P::value_of(x) as int, bound as nat, P::value_of(&m) as int),
        final(p).tally() == old(p).tally() + find_order_cost(bound as nat),
{
    let ghost xv: int = P::value_of(x) as int;
    let ghost start: nat = p.tally();
    let mut acc: P::Value = p.constant(0);
    let mut power: u64 = 1;
    let mut i: u32 = 1;
    proof {
        lemma2_to64();
    }
    while i <= bound
        invariant
            1 <= i <= bound + 1,
            bound <= 31,
            xv == P::value_of(x),
            power == pow2(2 * (i - 1) as nat),
            P::value_of(&acc) <= i - 1,
            xv >= 1 ==> pow2(2 * P::value_of(&acc) as nat) <= xv,
            P::value_of(&acc) < i - 1 ==> xv < pow2(2 * P::value_of(&acc) as nat + 2),
            xv == 0 ==> P::value_of(&acc) == 0,
            p.tally() == start + (i - 1),
            start + find_order_cost(bound as nat) <= u64::MAX,
        decreases bound + 1 - i,
    {
        let ghost old_acc: int = P::value_of(&acc) as int;
        let ghost e: nat = (2 * (i - 1)) as nat;
        proof {
            lemma2_to64();
            lemma_pow2_adds(e, 2);
            assert(e + 2 == 2 * i);
            lemma_pow2_strictly_increases(2 * i as nat, 64);
        }
        power = power * 4;
        let candidate: P::Value = p.constant(power);
        let above: P::Flag = p.greater(&candidate, x);
        let within: P::Flag = p.negate(&above);
        let one: P::Value = p.flag_value(&within);
        acc = p.add(&acc, &one);
        proof {
            lemma_pow2_pos(2 * i as nat);
            assert(power == pow2(2 * i as nat));
            if power <= xv {
                if old_acc < i - 1 {
                    lemma_pow2_strictly_increases(2 * old_acc as nat + 2, 2 * i as nat);
                    assert(false);
                }
                assert(P::value_of(&acc) == i);
            } else {
                assert(P::value_of(&acc) == old_acc);
                if old_acc == i - 1 {
                    assert(2 * old_acc as nat + 2 == 2 * i as nat);
                }
            }
        }
        i = i + 1;
    }
    acc
}

/// Below `2^(w+1)`, bit `w` of `y` is clear exactly when `y < 2^w`.
pub proof fn lemma_bit_test(y: u64, w: u64)
    requires
        w < 64,
        y < pow2(w as nat + 1),
    ensures
        (1u64 << w) == pow2(w as nat),
        ((y & (1u64 << w)) == 0) == (y < pow2(w as nat)),
{
    lemma2_to64();
    lemma2_to64_rest();
    lemma_pow2_strictly_increases(w as nat, 64);
    lemma_u64_shl_is_mul(1, w);
    if w < 63 {
        let w1: u64 = (w + 1) as u64;
        lemma_pow2_strictly_increases(w1 as nat, 64);
        lemma_u64_shl_is_mul(1, w1);
        assert(y < (1u64 << w1) ==> (((y & (1u64 << w)) == 0) == (y < (1u64 << w)))) by (bit_vector)
            requires
                w < 63,
                w1 == w + 1,
        ;
    } else {
        assert(((y & (1u64 << w)) == 0) == (y < (1u64 << w))) by (bit_vector)
            requires
                w == 63,
        ;
    }
}

/// Number of left shifts that bring the leading bit of `x` to bit `width`.
/// Every one of the `width + 1` candidate shifts is tested; a running flag
/// records whether all bits seen so far were clear, and each round adds that
/// flag to the count, so the number of comparisons does not depend on `x`.
pub fn leading_bit_shift<P: ValueOps>(p: &mut P, x: &P::Value, width: u32) -> (k: P::Value)
    requires
        width <= 63,
        1 <= P::value_of(x) < pow2(width as nat + 1),
        old(p).tally() + leading_bit_shift_cost(width as nat) <= u64::MAX,
    ensures
        is_leading_shift(P::value_of(x) as int, width as nat, P::value_of(&k) as int),
        final(p).tally() == old(p).tally() + leading_bit_shift_cost(width as nat),
{
    let ghost xv: int = P::value_of(x) as int;
    let ghost start: nat = p.tally();
    proof {
        lemma_bit_test(0, width as u64);
    }
    let pivot: P::Value = p.constant(1u64 << width);
    let zero: P::Value = p.constant(0);
    let mut still_zero: P::Flag = p.flag_constant(true);
    let mut acc: P::Value = p.constant(0);
    let mut i: u32 = 0;
    while i <= width
        invariant
            0 <= i <= width + 1,
            width <= 63,
            xv == P::value_of(x),
            1 <= xv < pow2(width as nat + 1),
            P::value_of(&pivot) == pow2(width as nat),
            P::value_of(&zero) == 0,
            P::value_of(&acc) <= i,
            P::flag_of(&still_zero) == (P::value_of(&acc) == i),
            P::value_of(&acc) >= 1 ==> xv * pow2((P::value_of(&acc) - 1) as nat) < pow2(width as nat),
            P::value_of(&acc) < i ==> xv * pow2(P::value_of(&acc) as nat) >= pow2(width as nat),
            p.tally() == start + i,
            start + leading_bit_shift_cost(width as nat) <= u64::MAX,
        decreases width + 1 - i,
    {
        let ghost old_acc: int = P::value_of(&acc) as int;
        let shifted: P::Value = p.shl(x, i);
        let bit: P::Value = p.and(&shifted, &pivot);
        let clear: P::Flag = p.equal(&bit, &zero);
        still_zero = p.both(&still_zero, &clear);
        let one: P::Value = p.flag_value(&still_zero);
        acc = p.add(&acc, &one);
        proof {
            lemma2_to64();
            lemma_pow2_pos(i as nat);
            lemma_pow2_pos(width as nat);
            if old_acc == i {
                // The shifted word has not yet reached bit `width + 1`.
                if i == 0 {
                    assert(xv * pow2(0) == xv) by (nonlinear_arith)
                        requires
                            pow2(0) == 1,
                    ;
                } else {
                    lemma_pow2_adds((i - 1) as nat, 1);
                    lemma_pow2_adds(width as nat, 1);
                    assert(xv * pow2(i as nat) == 2 * (xv * pow2((i - 1) as nat))) by (nonlinear_arith)
                        requires
                            pow2(i as nat) == pow2((i - 1) as nat) * 2,
                    ;
                }
                if width < 63 {
                    lemma_pow2_strictly_increases(width as nat + 1, 64);
                }
                lemma2_to64_rest();
                lemma_u64_shl_is_mul(P::value_of(x), i as u64);
                lemma_bit_test(P::value_of(&shifted), width as u64);
            }
        }
        i = i + 1;
    }
    proof {
        lemma_pow2_pos(width as nat);
        if P::value_of(&acc) == width + 1 {
            assert(xv * pow2(width as nat) >= pow2(width as nat)) by (nonlinear_arith)
                requires
                    xv >= 1,
                    pow2(width as nat) > 0,
            ;
        }
        let k = P::value_of(&acc) as nat;
        if k >= 1 {
            lemma_pow2_adds((k - 1) as nat, 1);
            lemma_pow2_adds(width as nat, 1);
            lemma2_to64();
            assert(xv * pow2(k) == 2 * (xv * pow2((k - 1) as nat))) by (nonlinear_arith)
                requires
                    pow2(k) == pow2((k - 1) as nat) * 2,
            ;
        } else {
            lemma2_to64();
            assert(xv * pow2(0) == xv) by (nonlinear_arith)
                requires
                    pow2(0) == 1,
            ;
        }
    }
    acc
}

/// The accumulators once an exact root has been met: `b` holds it, nothing
/// changes any more, and the sums still formed stay within `x`.
pub open spec fn frozen_state(x: int, a: int, b: int, c: int, s: int) -> bool {
    &&& 0 <= b < 0x1_0000_0000
    &&& b * b == x
    &&& 0 <= a
    &&& 0 <= c
    &&& a + b + c <= x
    &&& s == x
}

/// Integer square root of `x`, of order `m`, by digit recurrence. Every one
/// of the `m` rounds runs: where an exact root is met, a flag freezes the
/// accumulators through selects instead of leaving the loop, so the number
/// of comparisons and selects does not depend on `x`.
pub fn integer_sqrt<P: ValueOps>(p: &mut P, x: &P::Value, m: u32) -> (r: P::Value)
    requires
        m <= 31,
        in_order(P::value_of(x) as int, m as nat),
        old(p).tally() + integer_sqrt_cost(m as nat) <= u64::MAX,
    ensures
        is_root(P::value_of(x) as int, P::value_of(&r) as int),
        final(p).tally() == old(p).tally() + integer_sqrt_cost(m as nat),
{
    let ghost xv: int = P::value_of(x) as int;
    let ghost start: nat = p.tally();
    proof {
        lemma2_to64();
        lemma2_to64_rest();
        lemma_pow2_pos(2 * m as nat);
        lemma_pow2_strictly_increases(2 * m as nat, 64);
        lemma_u64_shl_is_mul(1, (2 * m) as u64);
        lemma_u64_shr_is_div(pow2(2 * m as nat) as u64, 2);
        lemma_recurrence_start(xv, m as nat);
        lemma_state_fits(
            xv,
            pow2(2 * m as nat) as int,
            pow2(2 * m as nat) as int,
            pow2(2 * m as nat) as int / 4,
            pow2(2 * m as nat) + pow2(2 * m as nat) + pow2(2 * m as nat) as int / 4,
            pow2(m as nat) as int,
            m as nat,
            m as nat,
        );
    }
    let top: u64 = 1u64 << (2 * m);
    let mut a: P::Value = p.constant(top);
    let mut b: P::Value = p.constant(top);
    let mut c: P::Value = p.shr(&a, 2);
    let ab: P::Value = p.add(&a, &b);
    let mut s: P::Value = p.add(&ab, &c);
    let mut active: P::Flag = p.flag_constant(true);
    let ghost mut root: int = pow2(m as nat) as int;
    let mut k: u32 = 1;
    while k <= m
        invariant
            1 <= k <= m + 1,
            m <= 31,
            xv == P::value_of(x),
            in_order(xv, m as nat),
            P::flag_of(&active) ==> recurrence_state(
                xv,
                P::value_of(&a) as int,
                P::value_of(&b) as int,
                P::value_of(&c) as int,
                P::value_of(&s) as int,
                root,
                (m + 1 - k) as nat,
            ),
            !P::flag_of(&active) ==> frozen_state(
                xv,
                P::value_of(&a) as int,
                P::value_of(&b) as int,
                P::value_of(&c) as int,
                P::value_of(&s) as int,
            ),
            p.tally() == start + 8 * (k - 1),
            start + integer_sqrt_cost(m as nat) <= u64::MAX,
        decreases m + 1 - k,
    {
        let ghost j: nat = (m + 1 - k) as nat;
        let ghost t: int = pow2((j - 1) as nat) as int;
        let ghost was_active: bool = P::flag_of(&active);
        proof {
            lemma2_to64();
            if was_active {
                lemma_digit_step(root, j);
                lemma_state_fits(
                    xv,
                    P::value_of(&a) as int,
                    P::value_of(&b) as int,
                    P::value_of(&c) as int,
                    P::value_of(&s) as int,
                    root,
                    j,
                    m as nat,
                );
                assert((root + t) * t <= (root + t) * (root + t)) by (nonlinear_arith)
                    requires
                        root >= 0,
                        t >= 1,
                ;
            }
            lemma_u64_shr_is_div(P::value_of(&b), 1);
            lemma_u64_shr_is_div(P::value_of(&c), 2);
        }
        let is_eq: P::Flag = p.equal(x, &s);
        let is_gt: P::Flag = p.greater(x, &s);
        let halved: P::Value = p.shr(&b, 1);
        b = p.select(&active, &halved, &b);
        let hit: P::Flag = p.both(&is_eq, &active);
        let bc: P::Value = p.add(&b, &c);
        proof {
            lemma_u64_shr_is_div(P::value_of(&bc), (m - k) as u64);
            if was_active && xv == P::value_of(&s) {
                let q = root + t;
                assert((q + 1) * (q + 1) > q * q) by (nonlinear_arith)
                    requires
                        q >= 0,
                ;
                assert(root * root + q + t * t <= q * q) by (nonlinear_arith)
                    requires
                        q == root + t,
                        root >= 1,
                        t >= 1,
                ;
            }
        }
        let exact: P::Value = p.shr(&bc, m - k);
        b = p.select(&hit, &exact, &b);
        let missed: P::Flag = p.negate(&is_eq);
        active = p.both(&active, &missed);
        let grow: P::Flag = p.both(&is_gt, &active);
        a = p.select(&grow, &s, &a);
        let bc2: P::Value = p.add(&b, &c);
        b = p.select(&grow, &bc2, &b);
        proof {
            if was_active && P::flag_of(&grow) {
                root = root + t;
            }
        }
        let quarter: P::Value = p.shr(&c, 2);
        c = p.select(&active, &quarter, &c);
        proof {
            if P::flag_of(&active) {
                let av = P::value_of(&a) as int;
                let bv = P::value_of(&b) as int;
                let cv = P::value_of(&c) as int;
                assert(recurrence_state(xv, av, bv, cv, av + bv + cv, root, (j - 1) as nat));
                lemma_state_fits(xv, av, bv, cv, av + bv + cv, root, (j - 1) as nat, m as nat);
            }
        }
        let ab2: P::Value = p.add(&a, &b);
        let abc: P::Value = p.add(&ab2, &c);
        s = p.select(&active, &abc, &s);
        k = k + 1;
    }
    proof {
        lemma2_to64();
        if P::flag_of(&active) {
            assert(k == m + 1);
            assert(pow2(0) == 1);
            assert((m + 1 - k) as nat == 0);
            assert(P::value_of(&b) == root * pow2(0));
            assert(xv < (root + 1) * (root + 1));
        } else {
            let q = P::value_of(&b) as int;
            assert((q + 1) * (q + 1) > q * q) by (nonlinear_arith)
                requires
                    q >= 0,
            ;
        }
    }
    b
}

/// For every `x` in `[1, 2^32)`, the order that `find_order` finds with
/// bound 16 bounds `x` on both sides, which is what `integer_sqrt` asks;
/// so `integer_sqrt(x, find_order(x, 16))` is the integer square root of `x`.
pub proof fn lemma_order_bounds_root(x: int, m: int)
    requires
        1 <= x < 0x1_0000_0000,
        is_capped_order(x, 16, m),
    ensures
        in_order(x, m as nat),
        m <= 15,
{
    lemma2_to64();
    if m == 16 {
        assert(pow2(32) == 0x1_0000_0000);
    }
}

} // verus!
