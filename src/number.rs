//! Integer capabilities: clamping and conversion from narrower widths.
use vstd::prelude::*;
use vstd::arithmetic::div_mod::{
    lemma_fundamental_div_mod,
    lemma_fundamental_div_mod_converse,
    lemma_mod_pos_bound,
};

verus! {

/// `v` limited to the range `[min, max]`.
pub open spec fn clamp_int(v: int, min: int, max: int) -> int {
    if v < min {
        min
    } else if v > max {
        max
    } else {
        v
    }
}

/// Division rounded toward negative infinity.
pub fn floor_div(n: i128, d: i128) -> (r: i128)
    requires
        d > 0,
        n > i128::MIN,
    ensures
        r == n / d,
        r * d <= n < (r + 1) * d,
{
    let ud = d as u128;
    if n >= 0 {
        let u = (n as u128) / ud;
        assert(u <= n);
        let q = u as i128;
        proof {
            lemma_fundamental_div_mod(n as int, d as int);
            lemma_mod_pos_bound(n as int, d as int);
            assert(q * d <= n < (q + 1) * d) by (nonlinear_arith)
                requires
                    n as int == (d as int) * (q as int) + ((n as int) % (d as int)),
                    0 <= (n as int) % (d as int) < d,
            ;
        }
        q
    } else {
        let m: u128 = (-n) as u128;
        let t: u128 = (m + (ud - 1)) / ud;
        assert(t <= m) by (nonlinear_arith)
            requires
                t == (m + ud - 1) / (ud as int),
                ud >= 1,
                m >= 1,
        ;
        let q = -(t as i128);
        proof {
            assert(t * ud <= m + ud - 1 < (t + 1) * ud) by (nonlinear_arith)
                requires
                    t == (m + ud - 1) / (ud as int),
                    ud > 0,
            ;
            assert(q * d <= n < (q + 1) * d) by (nonlinear_arith)
                requires
                    t * ud <= m + ud - 1 < (t + 1) * ud,
                    m == -n,
                    q == -t,
                    d == ud,
                    d > 0,
            ;
            assert((q + 1) * d == q * d + d) by (nonlinear_arith);
            lemma_fundamental_div_mod_converse(n as int, d as int, q as int, (n - q * d) as int);
        }
        q
    }
}

/// Trait for clamp operation.
pub trait Clamp: Sized {
    /// The value as a mathematical integer.
    spec fn spec_value(&self) -> int;

    /// Clamp value to be within the range [min, max].
    fn clamp(self, min: Self, max: Self) -> (r: Self)
        requires
            min.spec_value() <= max.spec_value(),
        ensures
            r.spec_value() == clamp_int(self.spec_value(), min.spec_value(), max.spec_value()),
    ;
}

/// Trait for integer number.
pub trait Number: Clamp + Copy {
    /// Create value of self type from an u8 number.
    fn from_u8(n: u8) -> (r: Self)
        ensures
            r.spec_value() == n,
    ;

    /// Create value of self type from an u32 number.
    fn from_u32(n: u32) -> (r: Self)
        ensures
            r.spec_value() == n,
    ;
}

impl Clamp for u8 {
    open spec fn spec_value(&self) -> int {
        *self as int
    }

    fn clamp(self, min: Self, max: Self) -> (r: Self) {
        if self < min {
            min
        } else if self > max {
            max
        } else {
            self
        }
    }
}

impl Clamp for u32 {
    open spec fn spec_value(&self) -> int {
        *self as int
    }

    fn clamp(self, min: Self, max: Self) -> (r: Self) {
        if self < min {
            min
        } else if self > max {
            max
        } else {
            self
        }
    }
}

impl Clamp for u64 {
    open spec fn spec_value(&self) -> int {
        *self as int
    }

    fn clamp(self, min: Self, max: Self) -> (r: Self) {
        if self < min {
            min
        } else if self > max {
            max
        } else {
            self
        }
    }
}

impl Clamp for i64 {
    open spec fn spec_value(&self) -> int {
        *self as int
    }

    fn clamp(self, min: Self, max: Self) -> (r: Self) {
        if self < min {
            min
        } else if self > max {
            max
        } else {
            self
        }
    }
}

impl Number for u32 {
    fn from_u8(n: u8) -> (r: Self) {
        n as u32
    }

    fn from_u32(n: u32) -> (r: Self) {
        n
    }
}

impl Number for u64 {
    fn from_u8(n: u8) -> (r: Self) {
        n as u64
    }

    fn from_u32(n: u32) -> (r: Self) {
        n as u64
    }
}

impl Number for i64 {
    fn from_u8(n: u8) -> (r: Self) {
        n as i64
    }

    fn from_u32(n: u32) -> (r: Self) {
        n as i64
    }
}

} // verus!
