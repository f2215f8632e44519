use vstd::prelude::*;

verus! {

/// The operations that the numeric kernel asks of a backend.
///
/// A backend supplies a word type and a flag type, which may be ordinary
/// machine values or opaque handles whose contents cannot be inspected. Every
/// word stands for a 64-bit unsigned integer (`value_of`) and every flag for a
/// boolean (`flag_of`); the kernel is written once against these operations
/// and never branches on a word or a flag.
///
/// Comparisons and selects are the operations whose number must not depend on
/// the data: a backend counts them in `tally`, so that the kernel can state
/// how many it performs.
pub trait ValueOps: Sized {
    type Value;

    type Flag;

    /// The integer that a word stands for.
    spec fn value_of(v: &Self::Value) -> u64;

    /// The truth value that a flag stands for.
    spec fn flag_of(f: &Self::Flag) -> bool;

    /// How many comparisons and selects this backend has performed.
    spec fn tally(&self) -> nat;

    /// A word holding a public constant.
    fn constant(&self, k: u64) -> (r: Self::Value)
        ensures
            Self::value_of(&r) == k,
    ;

    /// A flag holding a public constant.
    fn flag_constant(&self, b: bool) -> (r: Self::Flag)
        ensures
            Self::flag_of(&r) == b,
    ;

    fn and(&self, a: &Self::Value, b: &Self::Value) -> (r: Self::Value)
        ensures
            Self::value_of(&r) == Self::value_of(a) & Self::value_of(b),
    ;

    fn or(&self, a: &Self::Value, b: &Self::Value) -> (r: Self::Value)
        ensures
            Self::value_of(&r) == Self::value_of(a) | Self::value_of(b),
    ;

    fn xor(&self, a: &Self::Value, b: &Self::Value) -> (r: Self::Value)
        ensures
            Self::value_of(&r) == Self::value_of(a) ^ Self::value_of(b),
    ;

    fn not(&self, a: &Self::Value) -> (r: Self::Value)
        ensures
            Self::value_of(&r) == !Self::value_of(a),
    ;

    /// Left shift by a public amount; bits shifted out are lost.
    fn shl(&self, a: &Self::Value, n: u32) -> (r: Self::Value)
        requires
            n < 64,
        ensures
            Self::value_of(&r) == Self::value_of(a) << n,
    ;

    /// Right shift by a public amount.
    fn shr(&self, a: &Self::Value, n: u32) -> (r: Self::Value)
        requires
            n < 64,
        ensures
            Self::value_of(&r) == Self::value_of(a) >> n,
    ;

    fn add(&self, a: &Self::Value, b: &Self::Value) -> (r: Self::Value)
        requires
            Self::value_of(a) + Self::value_of(b) <= u64::MAX,
        ensures
            Self::value_of(&r) == Self::value_of(a) + Self::value_of(b),
    ;

    fn sub(&self, a: &Self::Value, b: &Self::Value) -> (r: Self::Value)
        requires
            Self::value_of(a) >= Self::value_of(b),
        ensures
            Self::value_of(&r) == Self::value_of(a) - Self::value_of(b),
    ;

    /// Equality of two words; counted.
    fn equal(&mut self, a: &Self::Value, b: &Self::Value) -> (r: Self::Flag)
        requires
            old(self).tally() < u64::MAX,
        ensures
            Self::flag_of(&r) == (Self::value_of(a) == Self::value_of(b)),
            final(self).tally() == old(self).tally() + 1,
    ;

    /// Whether `a` is greater than `b`; counted.
    fn greater(&mut self, a: &Self::Value, b: &Self::Value) -> (r: Self::Flag)
        requires
            old(self).tally() < u64::MAX,
        ensures
            Self::flag_of(&r) == (Self::value_of(a) > Self::value_of(b)),
            final(self).tally() == old(self).tally() + 1,
    ;

    /// `a` where `cond` holds, else `b`. Both operands have been computed
    /// before the call, whatever `cond` is; counted.
    fn select(&mut self, cond: &Self::Flag, a: &Self::Value, b: &Self::Value) -> (r: Self::Value)
        requires
            old(self).tally() < u64::MAX,
        ensures
            Self::value_of(&r) == if Self::flag_of(cond) {
                Self::value_of(a)
            } else {
                Self::value_of(b)
            },
            final(self).tally() == old(self).tally() + 1,
    ;

    fn both(&self, f: &Self::Flag, g: &Self::Flag) -> (r: Self::Flag)
        ensures
            Self::flag_of(&r) == (Self::flag_of(f) && Self::flag_of(g)),
    ;

    fn negate(&self, f: &Self::Flag) -> (r: Self::Flag)
        ensures
            Self::flag_of(&r) == !Self::flag_of(f),
    ;

    /// The word 1 where the flag holds, else 0.
    fn flag_value(&self, f: &Self::Flag) -> (r: Self::Value)
        ensures
            Self::value_of(&r) == if Self::flag_of(f) {
                1u64
            } else {
                0u64
            },
    ;
}

/// The transparent backend: words are `u64`, flags are `bool`.
pub struct Plain {
    pub ops: u64,
}

impl Plain {
    pub fn new() -> (r: Plain)
        ensures
            r.tally() == 0,
    {
        Plain { ops: 0 }
    }

    /// How many comparisons and selects have been performed.
    pub fn ops(&self) -> (r: u64)
        ensures
            r == self.tally(),
    {
        self.ops
    }
}

impl ValueOps for Plain {
    type Value = u64;

    type Flag = bool;

    open spec fn value_of(v: &u64) -> u64 {
        *v
    }

    open spec fn flag_of(f: &bool) -> bool {
        *f
    }

    open spec fn tally(&self) -> nat {
        self.ops as nat
    }

    fn constant(&self, k: u64) -> (r: u64) {
        k
    }

    fn flag_constant(&self, b: bool) -> (r: bool) {
        b
    }

    fn and(&self, a: &u64, b: &u64) -> (r: u64) {
        *a & *b
    }

    fn or(&self, a: &u64, b: &u64) -> (r: u64) {
        *a | *b
    }

    fn xor(&self, a: &u64, b: &u64) -> (r: u64) {
        *a ^ *b
    }

    fn not(&self, a: &u64) -> (r: u64) {
        !*a
    }

    fn shl(&self, a: &u64, n: u32) -> (r: u64) {
        *a << n
    }

    fn shr(&self, a: &u64, n: u32) -> (r: u64) {
        *a >> n
    }

    fn add(&self, a: &u64, b: &u64) -> (r: u64) {
        *a + *b
    }

    fn sub(&self, a: &u64, b: &u64) -> (r: u64) {
        *a - *b
    }

    fn equal(&mut self, a: &u64, b: &u64) -> (r: bool) {
        self.ops = self.ops + 1;
        *a == *b
    }

    fn greater(&mut self, a: &u64, b: &u64) -> (r: bool) {
        self.ops = self.ops + 1;
        *a > *b
    }

    fn select(&mut self, cond: &bool, a: &u64, b: &u64) -> (r: u64) {
        self.ops = self.ops + 1;
        let x: u64 = *a;
        let y: u64 = *b;
        if *cond {
            x
        } else {
            y
        }
    }

    fn both(&self, f: &bool, g: &bool) -> (r: bool) {
        *f && *g
    }

    fn negate(&self, f: &bool) -> (r: bool) {
        !*f
    }

    fn flag_value(&self, f: &bool) -> (r: u64) {
        if *f {
            1
        } else {
            0
        }
    }
}

} // verus!
