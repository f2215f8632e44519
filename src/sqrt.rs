use vstd::prelude::*;
use vstd::arithmetic::power2::{pow2, lemma_pow2_adds, lemma_pow2_pos, lemma_pow2_strictly_increases, lemma2_to64, lemma2_to64_rest};
use vstd::arithmetic::div_mod::{lemma_basic_div, lemma_div_by_self, lemma_div_is_ordered, lemma_fundamental_div_mod, lemma_mod_multiples_basic};
use vstd::bits::{lemma_u64_shl_is_mul, lemma_u64_shr_is_div};

verus! {

/// `r` is the integer square root of `x`: `r² ≤ x < (r + 1)²`.
pub open spec fn is_root(x: int, r: int) -> bool {
    &&& 0 <= r
    &&& r * r <= x
    &&& x < (r + 1) * (r + 1)
}

/// `m` is the order of `x`: `4^m ≤ x < 4^(m + 1)`.
pub open spec fn in_order(x: int, m: nat) -> bool {
    &&& pow2(2 * m) <= x
    &&& x < pow2(2 * m + 2)
}

/// The accumulators of the digit recurrence, with `j` bits of the root still
/// to be decided and `root` the part decided so far:
/// `a = root²`, `b = root·2^j`, `c = (2^(j-1))²`, `s = a + b + c`, `root` is
/// a positive multiple of `2^j`, and `x` lies in `[root², (root + 2^j)²)`.
pub open spec fn recurrence_state(x: int, a: int, b: int, c: int, s: int, root: int, j: nat) -> bool {
    &&& 0 < root
    &&& root % pow2(j) as int == 0
    &&& a == root * root
    &&& b == root * pow2(j)
    &&& c == (if j >= 1 {
        pow2((j - 1) as nat) * pow2((j - 1) as nat)
    } else {
        0
    })
    &&& s == a + b + c
    &&& root * root <= x
    &&& x < (root + pow2(j)) * (root + pow2(j))
}

/// Arithmetic behind one step of the recurrence, with `t = 2^(j-1)`.
pub proof fn lemma_digit_step(root: int, j: nat)
    requires
        j >= 1,
        0 <= root,
    ensures
        ({
            let t = pow2((j - 1) as nat) as int;
            &&& t > 0
            &&& pow2(j) == 2 * t
            &&& (root * pow2(j)) / 2 == root * t
            &&& root * root + root * pow2(j) + t * t == (root + t) * (root + t)
            &&& root * t + t * t == (root + t) * t
            &&& ((root + t) * t) / t == root + t
            &&& (root + t) + pow2(j) == (root + 2 * t) + t
            &&& (t * t) / 4 == (if j >= 2 {
                pow2((j - 2) as nat) * pow2((j - 2) as nat)
            } else {
                0
            })
            &&& root % pow2(j) as int == 0 ==> root % t == 0 && (root + t) % t == 0
        }),
{
    let t = pow2((j - 1) as nat) as int;
    if root % pow2(j) as int == 0 {
        lemma_pow2_pos(j);
        lemma_pow2_pos((j - 1) as nat);
        lemma_pow2_adds((j - 1) as nat, 1);
        lemma2_to64();
        let g = pow2(j) as int;
        lemma_fundamental_div_mod(root, g);
        let q = root / g;
        assert(root == (2 * q) * t) by (nonlinear_arith)
            requires
                root == g * q + 0,
                g == 2 * t,
        ;
        assert(root + t == (2 * q + 1) * t) by (nonlinear_arith)
            requires
                root == (2 * q) * t,
        ;
        lemma_mod_multiples_basic(2 * q, t);
        lemma_mod_multiples_basic(2 * q + 1, t);
    }
    lemma_pow2_pos((j - 1) as nat);
    lemma2_to64();
    lemma_pow2_adds((j - 1) as nat, 1);
    assert(pow2(j) == 2 * t);
    assert((root * (2 * t)) / 2 == root * t) by (nonlinear_arith)
        requires
            t > 0,
            root >= 0,
    ;
    assert(root * root + root * (2 * t) + t * t == (root + t) * (root + t)) by (nonlinear_arith);
    assert(root * t + t * t == (root + t) * t) by (nonlinear_arith);
    assert(((root + t) * t) / t == root + t) by (nonlinear_arith)
        requires
            t > 0,
    ;
    if j >= 2 {
        let u = pow2((j - 2) as nat) as int;
        lemma_pow2_adds((j - 2) as nat, 1);
        assert(t == 2 * u);
        assert((t * t) / 4 == u * u) by (nonlinear_arith)
            requires
                t == 2 * u,
        ;
    } else {
        assert(t == 1);
    }
}

/// A root of order at most 31 that is a multiple of `2^j` leaves room for
/// one more step of `2^j` below `2^(m+1) ≤ 2^32`.
pub proof fn lemma_root_headroom(x: int, root: int, j: nat, m: nat)
    requires
        m <= 31,
        j <= m + 1,
        0 <= root,
        root % pow2(j) as int == 0,
        root * root <= x,
        x < pow2(2 * m + 2),
    ensures
        root + pow2(j) <= pow2(m + 1),
        pow2(m + 1) <= 0x1_0000_0000,
{
    let p = pow2(m + 1) as int;
    let g = pow2(j) as int;
    let big = pow2((m + 1 - j) as nat) as int;
    lemma_pow2_adds(m + 1, m + 1);
    lemma_pow2_pos(m + 1);
    lemma_pow2_pos(j);
    lemma_pow2_adds(j, (m + 1 - j) as nat);
    assert(p == g * big);
    assert(root < p) by (nonlinear_arith)
        requires
            0 <= root,
            0 < p,
            root * root < p * p,
    {
        if root >= p {
            assert(root * root >= p * p) by (nonlinear_arith)
                requires
                    root >= p,
                    p > 0,
            ;
        }
    }
    lemma_fundamental_div_mod(root, g);
    let q = root / g;
    assert(root + g <= p) by (nonlinear_arith)
        requires
            root == g * q + 0,
            root < p,
            p == g * big,
            g > 0,
    {
        assert(q < big) by (nonlinear_arith)
            requires
                g * q < g * big,
                g > 0,
        ;
    }
    lemma2_to64();
    if m + 1 < 32 {
        lemma_pow2_strictly_increases(m + 1, 32);
    }
}

/// The accumulators of a recurrence state on a radicand of order at most 31
/// sum to a 64-bit value, and the root with its next step stays below `2^32`.
pub proof fn lemma_state_fits(x: int, a: int, b: int, c: int, s: int, root: int, j: nat, m: nat)
    requires
        m <= 31,
        j <= m,
        x < pow2(2 * m + 2),
        recurrence_state(x, a, b, c, s, root, j),
    ensures
        s <= u64::MAX,
        root + pow2(j) <= 0x1_0000_0000,
{
    lemma_root_headroom(x, root, j, m);
    lemma2_to64();
    if j >= 1 {
        lemma_digit_step(root, j);
        let t = pow2((j - 1) as nat) as int;
        assert(s == (root + t) * (root + t));
        assert((root + t) * (root + t) <= 0xffff_ffff * 0xffff_ffff) by (nonlinear_arith)
            requires
                0 <= root + t <= 0xffff_ffff,
        ;
    } else {
        assert(b == root) by (nonlinear_arith)
            requires
                b == root * pow2(0),
                pow2(0) == 1,
        ;
        assert(root * root + root <= 0xffff_ffff * 0xffff_ffff + 0xffff_ffff) by (nonlinear_arith)
            requires
                0 <= root <= 0xffff_ffff,
        ;
    }
}

/// The root of a perfect square is its integer square root, and the only one.
pub proof fn lemma_root_unique(x: int, r: int, q: int)
    requires
        0 <= q,
        q * q == x,
        is_root(x, r),
    ensures
        r == q,
{
    if r < q {
        assert((r + 1) * (r + 1) <= q * q) by (nonlinear_arith)
            requires
                0 <= r < q,
        ;
    } else if r > q {
        assert(r * r > q * q) by (nonlinear_arith)
            requires
                0 <= q < r,
        ;
    }
}

/// Order search on 32-bit words, counting up from `m`: the largest order
/// at least `m` whose power of four does not exceed `x`, or `m - 1` where
/// already `4^m > x`. The powers are formed in 64 bits, so every order of a
/// 32-bit word is reached.
pub fn find_m_recursive(x: u32, m: u32) -> (r: u32)
    requires
        m <= 16,
        m > 0 || x > 0,
    ensures
        x < pow2(2 * m as nat) ==> r == m - 1,
        pow2(2 * m as nat) <= x ==> m <= r && in_order(x as int, r as nat),
    decreases 16 - m,
{
    proof {
        lemma2_to64();
        lemma2_to64_rest();
        lemma_pow2_pos(2 * m as nat);
        if 2 * m < 32 {
            lemma_pow2_strictly_increases(2 * m as nat, 32);
        }
        lemma_pow2_strictly_increases(2 * m as nat, 64);
        lemma_u64_shl_is_mul(1, (2 * m) as u64);
    }
    if (1u64 << (2 * m)) <= x as u64 {
        find_m_recursive(x, m + 1)
    } else {
        m - 1
    }
}

/// Order search on 64-bit words, counting up from `m`; the power test
/// shifts `x` down, so every order of a 64-bit word is reached.
pub fn m64(x: u64, m: u64) -> (r: u64)
    requires
        m <= 32,
        m > 0 || x > 0,
    ensures
        x < pow2(2 * m as nat) ==> r == m - 1,
        pow2(2 * m as nat) <= x ==> m <= r && in_order(x as int, r as nat),
    decreases 32 - m,
{
    proof {
        lemma2_to64();
        lemma2_to64_rest();
        lemma_pow2_pos(2 * m as nat);
        if m < 32 {
            lemma_u64_shr_is_div(x, (2 * m) as u64);
            let p = pow2(2 * m as nat) as int;
            if x >= p {
                lemma_div_is_ordered(p, x as int, p);
                lemma_div_by_self(p);
            } else {
                lemma_basic_div(x as int, p);
            }
        } else {
            assert(pow2(64) == 0x1_0000_0000_0000_0000);
        }
    }
    if m < 32 && (x >> (2 * m)) >= 1 {
        m64(x, m + 1)
    } else {
        m - 1
    }
}

/// Establishes the recurrence state for `j = m` from `root = 2^m`.
pub proof fn lemma_recurrence_start(x: int, m: nat)
    requires
        in_order(x, m),
    ensures
        recurrence_state(
            x,
            pow2(2 * m) as int,
            pow2(2 * m) as int,
            pow2(2 * m) as int / 4,
            pow2(2 * m) + pow2(2 * m) + pow2(2 * m) as int / 4,
            pow2(m) as int,
            m,
        ),
{
    let r = pow2(m) as int;
    lemma_pow2_pos(m);
    lemma_pow2_adds(m, m);
    lemma_pow2_adds(m, 1);
    lemma_pow2_adds(m + 1, m + 1);
    lemma2_to64();
    assert(r + pow2(m) == pow2(m + 1));
    lemma_mod_multiples_basic(1, r);
    assert(r % r == 0);
    if m >= 1 {
        let u = pow2((m - 1) as nat) as int;
        lemma_pow2_adds((m - 1) as nat, 1);
        assert(r == 2 * u);
        assert((r * r) / 4 == u * u) by (nonlinear_arith)
            requires
                r == 2 * u,
        ;
    }
}

/// Integer square root of a 64-bit word of order `m`, by digit recurrence;
/// returns as soon as an exact root is met.
pub fn isqrt64(x: u64, m: u64) -> (r: u64)
    requires
        m <= 31,
        in_order(x as int, m as nat),
    ensures
        is_root(x as int, r as int),
{
    proof {
        lemma2_to64();
        lemma2_to64_rest();
        lemma_pow2_pos(2 * m as nat);
        lemma_pow2_strictly_increases(2 * m as nat, 64);
        lemma_u64_shl_is_mul(1, (2 * m) as u64);
        lemma_u64_shr_is_div(pow2(2 * m as nat) as u64, 2);
        lemma_recurrence_start(x as int, m as nat);
        lemma_state_fits(
            x as int,
            pow2(2 * m as nat) as int,
            pow2(2 * m as nat) as int,
            pow2(2 * m as nat) as int / 4,
            pow2(2 * m as nat) + pow2(2 * m as nat) + pow2(2 * m as nat) as int / 4,
            pow2(m as nat) as int,
            m as nat,
            m as nat,
        );
    }
    let mut a: u64 = 1 << (2 * m);
    let mut b: u64 = 1 << (2 * m);
    let mut c: u64 = a >> 2;
    let mut s: u64 = a + b + c;
    let ghost mut root: int = pow2(m as nat) as int;
    let mut k: u64 = 1;
    while k <= m
        invariant
            1 <= k <= m + 1,
            m <= 31,
            in_order(x as int, m as nat),
            recurrence_state(x as int, a as int, b as int, c as int, s as int, root, (m + 1 - k) as nat),
        decreases m + 1 - k,
    {
        let ghost j: nat = (m + 1 - k) as nat;
        let ghost t: int = pow2((j - 1) as nat) as int;
        proof {
            lemma_digit_step(root, j);
            lemma2_to64();
            lemma_u64_shr_is_div(b, 1);
            lemma_u64_shr_is_div(c, 2);
            lemma_state_fits(x as int, a as int, b as int, c as int, s as int, root, j, m as nat);
            assert((root + t) * t <= (root + t) * (root + t)) by (nonlinear_arith)
                requires
                    root >= 0,
                    t >= 1,
            ;
        }
        b = b >> 1;
        if s == x {
            proof {
                lemma_u64_shr_is_div((b + c) as u64, (m - k) as u64);
                assert((root + t + 1) * (root + t + 1) > (root + t) * (root + t)) by (nonlinear_arith)
                    requires
                        root + t >= 0,
                ;
            }
            b = b + c;
            return b >> (m - k);
        }
        if s < x {
            a = s;
            b = b + c;
            proof {
                root = root + t;
            }
        }
        c = c >> 2;
        proof {
            assert(recurrence_state(
                x as int,
                a as int,
                b as int,
                c as int,
                a + b + c,
                root,
                (j - 1) as nat,
            ));
            lemma_state_fits(x as int, a as int, b as int, c as int, a + b + c, root, (j - 1) as nat, m as nat);
        }
        s = a + b + c;
        k = k + 1;
    }
    proof {
        lemma2_to64();
        assert(k == m + 1);
        assert(pow2(0) == 1);
        assert((m + 1 - k) as nat == 0);
        assert(b == root * pow2(0));
        assert(x < (root + 1) * (root + 1));
    }
    b
}

/// Integer square root of a 32-bit word of order `m`.
pub fn isqrt(x: u32, m: u32) -> (r: u32)
    requires
        m <= 15,
        in_order(x as int, m as nat),
    ensures
        is_root(x as int, r as int),
{
    let r: u64 = isqrt64(x as u64, m as u64);
    proof {
        lemma2_to64();
        lemma2_to64_rest();
        lemma_pow2_strictly_increases(2 * m as nat + 2, 64);
        if r >= 0x1_0000_0000 {
            assert(r * r >= 0x1_0000_0000 * 0x1_0000_0000) by (nonlinear_arith)
                requires
                    r >= 0x1_0000_0000,
            ;
        }
    }
    r as u32
}

/// The radicand that `fsqrt64` roots: the mantissa shifted left by
/// `2·fact`, and by one more where the exponent is odd.
pub open spec fn fsqrt64_radicand(expo: u64, mant: u64, fact: u64) -> int {
    mant * pow2(
        (if expo % 2 == 0 {
            2 * fact
        } else {
            2 * fact + 1
        }) as nat,
    )
}

/// Square root of a mantissa scaled by `2^expo`: the mantissa is widened by
/// `2·fact` bits (one more for an odd exponent, which is then made even),
/// rooted at order `fact`, and the root shifted left by the halved exponent
/// less `fact`.
pub fn fsqrt64(expo: u64, mant: u64, fact: u64) -> (r: u64)
    requires
        fact <= 31,
        fact <= expo / 2 <= 63,
        in_order(fsqrt64_radicand(expo, mant, fact), fact as nat),
    ensures
        exists|q: int|
            is_root(fsqrt64_radicand(expo, mant, fact), q) && r == q * pow2(
                (expo / 2 - fact) as nat,
            ),
{
    let ghost rad: int = fsqrt64_radicand(expo, mant, fact);
    let mut expo: u64 = expo;
    let ghost half: int = (expo / 2) as int;
    proof {
        lemma2_to64();
        lemma2_to64_rest();
        if 2 * fact + 2 < 64 {
            lemma_pow2_strictly_increases(2 * fact as nat + 2, 64);
        }
    }
    let bign: u64;
    if expo % 2 == 0 {
        proof {
            lemma_u64_shl_is_mul(mant, (2 * fact) as u64);
        }
        bign = mant << (2 * fact);
    } else {
        proof {
            lemma_u64_shl_is_mul(mant, (2 * fact + 1) as u64);
        }
        bign = mant << (2 * fact + 1);
        expo = expo - 1;
    }
    let sqrt: u64 = isqrt64(bign, fact);
    proof {
        lemma_u64_shr_is_div(expo, 1);
        lemma_root_headroom(rad, sqrt as int, 0, fact as nat);
    }
    let nexp: u64 = (expo >> 1) - fact;
    proof {
        let p = pow2(fact as nat + 1) as int;
        let e = pow2(nexp as nat) as int;
        lemma_pow2_pos(nexp as nat);
        lemma_pow2_adds(fact as nat + 1, nexp as nat);
        if fact + 1 + nexp < 64 {
            lemma_pow2_strictly_increases(fact as nat + 1 + nexp as nat, 64);
        }
        assert(sqrt * e <= u64::MAX) by (nonlinear_arith)
            requires
                sqrt + 1 <= p,
                e > 0,
                p * e <= 0x1_0000_0000_0000_0000,
        ;
        lemma_u64_shl_is_mul(sqrt, nexp);
        lemma_u64_shr_is_div(sqrt, nexp);
        if nexp == 0 {
            assert(sqrt as nat / pow2(0) == sqrt);
            assert(sqrt * pow2(0) == sqrt);
        }
    }
    let r: u64 = if nexp > 0 {
        sqrt << nexp
    } else {
        sqrt >> nexp
    };
    proof {
        assert(nexp == half - fact);
        assert(r == sqrt * pow2(nexp as nat));
        assert(is_root(rad, sqrt as int) && r == sqrt * pow2((half - fact) as nat));
    }
    r
}

} // verus!
