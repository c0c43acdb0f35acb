//! Exact rational ray parameters.
//!
//! A ray parameter `t` is a quotient of two machine integers. Slab distances
//! and hit distances are compared by cross-multiplying into 128-bit integers,
//! so every comparison is exact. The two interval endpoints that a renderer
//! would write as infinities are carried as a zero denominator with a
//! numerator of plus or minus one.

use vstd::prelude::*;

verus! {

/// A rational number `num / den`. Finite values keep `den > 0`; `den == 0`
/// with `num == 1` or `num == -1` stands for plus or minus infinity.
#[derive(Clone, Copy, PartialEq, Eq, Structural, Debug)]
pub struct Rat {
    pub num: i64,
    pub den: i64,
}

/// The representation invariant of `Rat`.
pub open spec fn rat_ok(a: Rat) -> bool {
    a.den > 0 || (a.den == 0 && (a.num == 1 || a.num == -1))
}

/// True of finite rationals only.
pub open spec fn rat_finite(a: Rat) -> bool {
    a.den > 0
}

/// `a <= b`, by cross-multiplication; two infinities compare by sign.
pub open spec fn rat_le(a: Rat, b: Rat) -> bool {
    if a.den == 0 && b.den == 0 {
        a.num <= b.num
    } else {
        a.num * b.den <= b.num * a.den
    }
}

/// `a < b`, by cross-multiplication; two infinities compare by sign.
pub open spec fn rat_lt(a: Rat, b: Rat) -> bool {
    if a.den == 0 && b.den == 0 {
        a.num < b.num
    } else {
        a.num * b.den < b.num * a.den
    }
}

/// `a` and `b` denote the same rational value.
pub open spec fn rat_eq(a: Rat, b: Rat) -> bool {
    rat_le(a, b) && rat_le(b, a)
}

impl Rat {
    /// The finite rational `num / den`.
    pub fn new(num: i64, den: i64) -> (r: Rat)
        requires
            den > 0,
        ensures
            r == (Rat { num, den }),
            rat_ok(r),
            rat_finite(r),
    {
        Rat { num, den }
    }

    /// The rational equal to the integer `n`.
    pub fn of_int(n: i64) -> (r: Rat)
        ensures
            r == (Rat { num: n, den: 1i64 }),
            rat_ok(r),
            rat_finite(r),
    {
        Rat { num: n, den: 1 }
    }

    /// Plus infinity: above every finite rational.
    pub fn infinity() -> (r: Rat)
        ensures
            r == (Rat { num: 1i64, den: 0i64 }),
            rat_ok(r),
    {
        Rat { num: 1, den: 0 }
    }

    /// Minus infinity: below every finite rational.
    pub fn neg_infinity() -> (r: Rat)
        ensures
            r == (Rat { num: -1i64, den: 0i64 }),
            rat_ok(r),
    {
        Rat { num: -1, den: 0 }
    }

    /// Exact comparison `self <= other`.
    pub fn le(self, other: Rat) -> (r: bool)
        requires
            rat_ok(self),
            rat_ok(other),
        ensures
            r == rat_le(self, other),
    {
        if self.den == 0 && other.den == 0 {
            self.num <= other.num
        } else {
            proof {
                lemma_mul_bounds(self.num as int, other.den as int, 0x8000_0000_0000_0000,
                    0x8000_0000_0000_0000);
                lemma_mul_bounds(other.num as int, self.den as int, 0x8000_0000_0000_0000,
                    0x8000_0000_0000_0000);
            }
            (self.num as i128) * (other.den as i128) <= (other.num as i128) * (self.den as i128)
        }
    }

    /// Exact comparison `self < other`.
    pub fn lt(self, other: Rat) -> (r: bool)
        requires
            rat_ok(self),
            rat_ok(other),
        ensures
            r == rat_lt(self, other),
    {
        if self.den == 0 && other.den == 0 {
            self.num < other.num
        } else {
            proof {
                lemma_mul_bounds(self.num as int, other.den as int, 0x8000_0000_0000_0000,
                    0x8000_0000_0000_0000);
                lemma_mul_bounds(other.num as int, self.den as int, 0x8000_0000_0000_0000,
                    0x8000_0000_0000_0000);
            }
            (self.num as i128) * (other.den as i128) < (other.num as i128) * (self.den as i128)
        }
    }

    /// The larger of the two values (the right one when they are equal).
    pub fn max(self, other: Rat) -> (r: Rat)
        requires
            rat_ok(self),
            rat_ok(other),
        ensures
            r == rat_max(self, other),
    {
        if self.lt(other) {
            other
        } else {
            self
        }
    }

    /// The smaller of the two values (the right one when they are equal).
    pub fn min(self, other: Rat) -> (r: Rat)
        requires
            rat_ok(self),
            rat_ok(other),
        ensures
            r == rat_min(self, other),
    {
        if other.lt(self) {
            other
        } else {
            self
        }
    }
}

/// The larger of two rationals; keeps the left value on a tie.
pub open spec fn rat_max(a: Rat, b: Rat) -> Rat {
    if rat_lt(a, b) {
        b
    } else {
        a
    }
}

/// The smaller of two rationals; keeps the left value on a tie.
pub open spec fn rat_min(a: Rat, b: Rat) -> Rat {
    if rat_lt(b, a) {
        b
    } else {
        a
    }
}


/// Products with the constants zero, one and minus one.
pub proof fn lemma_mul_basics(a: int)
    by (nonlinear_arith)
    ensures
        a * 0 == 0,
        0 * a == 0,
        1 * a == a,
        a * 1 == a,
        (-1) * a == -a,
        a * (-1) == -a,
{
}

/// Bounded factors give a bounded product.
pub proof fn lemma_mul_bounds(a: int, b: int, ma: int, mb: int)
    by (nonlinear_arith)
    requires
        0 <= ma,
        0 <= mb,
        -ma <= a <= ma,
        -mb <= b <= mb,
    ensures
        -(ma * mb) <= a * b <= ma * mb,
{
}

/// The order is total: of two comparisons one holds, and `a < b` is exactly
/// the failure of `b <= a`.
pub proof fn lemma_rat_total(a: Rat, b: Rat)
    requires
        rat_ok(a),
        rat_ok(b),
    ensures
        rat_le(a, b) || rat_le(b, a),
        rat_lt(a, b) <==> !rat_le(b, a),
        rat_le(a, b) <==> rat_lt(a, b) || rat_eq(a, b),
{
    lemma_mul_basics(a.num as int);
    lemma_mul_basics(a.den as int);
    lemma_mul_basics(b.num as int);
    lemma_mul_basics(b.den as int);
}

proof fn lemma_frac_le_le(an: int, ad: int, bn: int, bd: int, cn: int, cd: int)
    by (nonlinear_arith)
    requires
        ad >= 0,
        bd > 0,
        cd >= 0,
        an * bd <= bn * ad,
        bn * cd <= cn * bd,
    ensures
        an * cd <= cn * ad,
{
}

proof fn lemma_frac_lt_le(an: int, ad: int, bn: int, bd: int, cn: int, cd: int)
    by (nonlinear_arith)
    requires
        ad > 0,
        bd > 0,
        cd >= 0,
        an * bd < bn * ad,
        bn * cd <= cn * bd,
    ensures
        cd > 0 ==> an * cd < cn * ad,
        an * cd <= cn * ad,
{
}

proof fn lemma_frac_le_lt(an: int, ad: int, bn: int, bd: int, cn: int, cd: int)
    by (nonlinear_arith)
    requires
        ad >= 0,
        bd > 0,
        cd > 0,
        an * bd <= bn * ad,
        bn * cd < cn * bd,
    ensures
        ad > 0 ==> an * cd < cn * ad,
        an * cd <= cn * ad,
{
}

/// Transitivity of `<=`.
pub proof fn lemma_rat_le_trans(a: Rat, b: Rat, c: Rat)
    requires
        rat_ok(a),
        rat_ok(b),
        rat_ok(c),
        rat_le(a, b),
        rat_le(b, c),
    ensures
        rat_le(a, c),
{
    lemma_mul_basics(a.num as int);
    lemma_mul_basics(a.den as int);
    lemma_mul_basics(b.num as int);
    lemma_mul_basics(b.den as int);
    lemma_mul_basics(c.num as int);
    lemma_mul_basics(c.den as int);
    if b.den > 0 {
        if a.den == 0 && c.den == 0 {
            assert(a.num * b.den <= b.num * a.den);
            assert(c.num >= -1 && a.num <= 1);
            if a.num == 1 {
                assert(1 * b.den <= b.num * 0);
            }
        } else {
            lemma_frac_le_le(a.num as int, a.den as int, b.num as int, b.den as int, c.num as int,
                c.den as int);
        }
    } else {
        if b.num == -1 {
            // b is minus infinity, so a is too.
            if a.den > 0 {
                assert(a.num * 0 <= (-1) * a.den);
                assert(false);
            }
            if a.num == 1 {
                assert(false);
            }
            if c.den > 0 {
                assert((-1) * c.den <= c.num * 0);
            }
        } else {
            // b is plus infinity, so c is too.
            if c.den > 0 {
                assert(1 * c.den <= c.num * 0);
                assert(false);
            }
            if c.num == -1 {
                assert(false);
            }
            if a.den > 0 {
                assert(a.num * 0 <= 1 * a.den);
            }
        }
    }
}

/// Transitivity of `<` through `<=` on the right.
pub proof fn lemma_rat_lt_le_trans(a: Rat, b: Rat, c: Rat)
    requires
        rat_ok(a),
        rat_ok(b),
        rat_ok(c),
        rat_lt(a, b),
        rat_le(b, c),
    ensures
        rat_lt(a, c),
{
    lemma_mul_basics(a.num as int);
    lemma_mul_basics(a.den as int);
    lemma_mul_basics(b.num as int);
    lemma_mul_basics(b.den as int);
    lemma_mul_basics(c.num as int);
    lemma_mul_basics(c.den as int);
    if b.den > 0 {
        if a.den == 0 && c.den == 0 {
            assert(a.num * b.den < b.num * a.den);
            if a.num == 1 {
                assert(1 * b.den < b.num * 0);
                assert(false);
            }
            if c.num == -1 {
                assert(b.num * 0 <= (-1) * b.den);
                assert(false);
            }
        } else if a.den == 0 {
            // a is minus infinity (plus infinity is above b).
            if a.num == 1 {
                assert(1 * b.den < b.num * 0);
                assert(false);
            }
            assert((-1) * c.den < c.num * 0);
        } else if c.den == 0 {
            // c is plus infinity or minus infinity; minus infinity is below b.
            if c.num == -1 {
                assert(b.num * 0 <= (-1) * b.den);
                assert(false);
            }
            assert(a.num * 0 < 1 * a.den);
        } else {
            lemma_frac_lt_le(a.num as int, a.den as int, b.num as int, b.den as int, c.num as int,
                c.den as int);
        }
    } else {
        if b.num == -1 {
            // Nothing is strictly below minus infinity.
            if a.den > 0 {
                assert(a.num * 0 < (-1) * a.den);
                assert(false);
            }
            assert(a.num < -1);
            assert(false);
        } else {
            // b is plus infinity, so c is too, and a is strictly below it.
            if c.den > 0 {
                assert(1 * c.den <= c.num * 0);
                assert(false);
            }
            assert(c.num == 1);
            if a.den == 0 {
                assert(a.num < 1);
            } else {
                assert(a.num * 0 < 1 * a.den);
            }
        }
    }
}

/// Transitivity of `<` through `<=` on the left.
pub proof fn lemma_rat_le_lt_trans(a: Rat, b: Rat, c: Rat)
    requires
        rat_ok(a),
        rat_ok(b),
        rat_ok(c),
        rat_le(a, b),
        rat_lt(b, c),
    ensures
        rat_lt(a, c),
{
    lemma_mul_basics(a.num as int);
    lemma_mul_basics(a.den as int);
    lemma_mul_basics(b.num as int);
    lemma_mul_basics(b.den as int);
    lemma_mul_basics(c.num as int);
    lemma_mul_basics(c.den as int);
    if b.den > 0 {
        if a.den == 0 && c.den == 0 {
            if a.num == 1 {
                assert(1 * b.den <= b.num * 0);
                assert(false);
            }
            if c.num == -1 {
                assert(b.num * 0 < (-1) * b.den);
                assert(false);
            }
        } else if a.den == 0 {
            if a.num == 1 {
                assert(1 * b.den <= b.num * 0);
                assert(false);
            }
            assert((-1) * c.den < c.num * 0);
        } else if c.den == 0 {
            if c.num == -1 {
                assert(b.num * 0 < (-1) * b.den);
                assert(false);
            }
            assert(a.num * 0 < 1 * a.den);
        } else {
            lemma_frac_le_lt(a.num as int, a.den as int, b.num as int, b.den as int, c.num as int,
                c.den as int);
        }
    } else {
        if b.num == -1 {
            // a is minus infinity as well.
            if a.den > 0 {
                assert(a.num * 0 <= (-1) * a.den);
                assert(false);
            }
            assert(a.num == -1);
            if c.den > 0 {
                assert((-1) * c.den < c.num * 0);
            }
        } else {
            // Nothing is strictly above plus infinity.
            if c.den > 0 {
                assert(1 * c.den < c.num * 0);
                assert(false);
            }
            assert(1 < c.num);
            assert(false);
        }
    }
}




/// Multiplying both sides of `a <= b` by a non-negative factor.
pub proof fn lemma_mul_le(a: int, b: int, c: int)
    by (nonlinear_arith)
    requires
        a <= b,
        0 <= c,
    ensures
        a * c <= b * c,
{
}

/// Cancelling a positive factor on both sides of `a * c <= b * c`.
pub proof fn lemma_mul_cancel(a: int, b: int, c: int)
    by (nonlinear_arith)
    requires
        a * c <= b * c,
        0 < c,
    ensures
        a <= b,
{
}

/// Multiplication distributes over subtraction.
pub proof fn lemma_mul_distrib_sub(a: int, b: int, c: int)
    by (nonlinear_arith)
    ensures
        (a - b) * c == a * c - b * c,
{
}

/// Negating one factor negates the product.
pub proof fn lemma_mul_neg(a: int, b: int)
    by (nonlinear_arith)
    ensures
        a * (-b) == -(a * b),
        (-a) * b == -(a * b),
{
}


/// The larger of two rationals is one of them and is above both.
pub proof fn lemma_rat_max_ge(a: Rat, b: Rat)
    requires
        rat_ok(a),
        rat_ok(b),
    ensures
        rat_le(a, rat_max(a, b)),
        rat_le(b, rat_max(a, b)),
        rat_ok(rat_max(a, b)),
        rat_max(a, b) == a || rat_max(a, b) == b,
{
    lemma_rat_total(a, b);
    lemma_rat_total(b, a);
}

/// The smaller of two rationals is one of them and is below both.
pub proof fn lemma_rat_min_le(a: Rat, b: Rat)
    requires
        rat_ok(a),
        rat_ok(b),
    ensures
        rat_le(rat_min(a, b), a),
        rat_le(rat_min(a, b), b),
        rat_ok(rat_min(a, b)),
        rat_min(a, b) == a || rat_min(a, b) == b,
{
    lemma_rat_total(a, b);
    lemma_rat_total(b, a);
}


/// A product of non-negative factors is non-negative.
pub proof fn lemma_mul_nonneg(a: int, b: int)
    by (nonlinear_arith)
    requires
        0 <= a,
        0 <= b,
    ensures
        0 <= a * b,
{
}

} // verus!

