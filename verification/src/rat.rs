use vstd::prelude::*;
use vstd::arithmetic::mul::lemma_mul_inequality;
use vstd::arithmetic::div_mod::{lemma_fundamental_div_mod, lemma_mod_division_less_than_divisor};
use crate::errors::IcmError;

verus! {

/// A mathematical rational number, kept as an unreduced numerator and
/// denominator. Contracts compare these by cross multiplication, so two
/// pairs naming the same rational are interchangeable.
pub struct Rat {
    pub n: int,
    pub d: int,
}

/// `a` and `b` name the same rational number (for positive denominators).
pub open spec fn rat_eq(a: Rat, b: Rat) -> bool {
    a.n * b.d == b.n * a.d
}

pub open spec fn rat_of_int(x: int) -> Rat {
    Rat { n: x, d: 1 }
}

pub open spec fn rat_zero() -> Rat {
    Rat { n: 0, d: 1 }
}

pub open spec fn rat_add(a: Rat, b: Rat) -> Rat {
    Rat { n: a.n * b.d + b.n * a.d, d: a.d * b.d }
}

pub open spec fn rat_mul(a: Rat, b: Rat) -> Rat {
    Rat { n: a.n * b.n, d: a.d * b.d }
}

/// The exact product of `a` and `b` fits in machine words.
pub open spec fn mul_fits(a: Rat, b: Rat) -> bool {
    a.n * b.n <= u128::MAX && a.d * b.d <= u128::MAX
}

/// The exact sum of `a` and `b` fits in machine words.
pub open spec fn add_fits(a: Rat, b: Rat) -> bool {
    a.n * b.d + b.n * a.d <= u128::MAX && a.d * b.d <= u128::MAX
}

/// Cross-multiplication equality respects addition.
pub proof fn lemma_rat_add_cong(a: Rat, b: Rat, a2: Rat, b2: Rat)
    requires
        a.d > 0,
        b.d > 0,
        a2.d > 0,
        b2.d > 0,
        rat_eq(a, a2),
        rat_eq(b, b2),
    ensures
        rat_eq(rat_add(a, b), rat_add(a2, b2)),
{
    assert((a.n * b.d) * (a2.d * b2.d) == (a2.n * b2.d) * (a.d * b.d)) by (nonlinear_arith)
        requires
            a.n * a2.d == a2.n * a.d,
    ;
    assert((b.n * a.d) * (a2.d * b2.d) == (b2.n * a2.d) * (a.d * b.d)) by (nonlinear_arith)
        requires
            b.n * b2.d == b2.n * b.d,
    ;
    assert((a.n * b.d + b.n * a.d) * (a2.d * b2.d) == (a.n * b.d) * (a2.d * b2.d) + (b.n * a.d)
        * (a2.d * b2.d)) by (nonlinear_arith);
    assert((a2.n * b2.d + b2.n * a2.d) * (a.d * b.d) == (a2.n * b2.d) * (a.d * b.d) + (b2.n * a2.d)
        * (a.d * b.d)) by (nonlinear_arith);
}

/// Cross-multiplication equality respects multiplication.
pub proof fn lemma_rat_mul_cong(a: Rat, b: Rat, a2: Rat, b2: Rat)
    requires
        a.d > 0,
        b.d > 0,
        a2.d > 0,
        b2.d > 0,
        rat_eq(a, a2),
        rat_eq(b, b2),
    ensures
        rat_eq(rat_mul(a, b), rat_mul(a2, b2)),
{
    assert((a.n * b.n) * (a2.d * b2.d) == (a2.n * b2.n) * (a.d * b.d)) by (nonlinear_arith)
        requires
            a.n * a2.d == a2.n * a.d,
            b.n * b2.d == b2.n * b.d,
    ;
}

/// Cross-multiplication equality is transitive over positive denominators.
pub proof fn lemma_rat_eq_trans(a: Rat, b: Rat, c: Rat)
    requires
        a.d > 0,
        b.d > 0,
        c.d > 0,
        rat_eq(a, b),
        rat_eq(b, c),
    ensures
        rat_eq(a, c),
{
    assert((a.n * b.d) * c.d == (b.n * a.d) * c.d) by (nonlinear_arith)
        requires
            a.n * b.d == b.n * a.d,
    ;
    assert((b.n * c.d) * a.d == (c.n * b.d) * a.d) by (nonlinear_arith)
        requires
            b.n * c.d == c.n * b.d,
    ;
    assert((a.n * c.d) * b.d == (c.n * a.d) * b.d) by (nonlinear_arith)
        requires
            (a.n * b.d) * c.d == (b.n * a.d) * c.d,
            (b.n * c.d) * a.d == (c.n * b.d) * a.d,
    ;
    assert(a.n * c.d == c.n * a.d) by (nonlinear_arith)
        requires
            (a.n * c.d) * b.d == (c.n * a.d) * b.d,
            b.d > 0,
    ;
}

/// Adding two fractions over one denominator adds the numerators.
pub proof fn lemma_rat_add_same_den(a: int, b: int, d: int)
    requires
        d > 0,
    ensures
        rat_eq(rat_add(Rat { n: a, d: d }, Rat { n: b, d: d }), Rat { n: a + b, d: d }),
{
    assert((a * d + b * d) * d == (a + b) * (d * d)) by (nonlinear_arith);
}

/// A product with positive factors keeps a positive denominator, and a
/// bound usable for overflow checks: `a * b <= m` exactly when `a <= m / b`.
pub proof fn lemma_mul_le_iff(a: int, b: int, m: int)
    requires
        0 <= a,
        0 < b,
        0 <= m,
    ensures
        (a * b <= m) <==> (a <= m / b),
{
    lemma_fundamental_div_mod(m, b);
    lemma_mod_division_less_than_divisor(m, b);
    if a <= m / b {
        lemma_mul_inequality(a, m / b, b);
        assert(a * b <= (m / b) * b);
        assert(b * (m / b) == (m / b) * b) by (nonlinear_arith);
    }
    if a * b <= m {
        if a > m / b {
            lemma_mul_inequality(m / b + 1, a, b);
            assert((m / b + 1) * b == (m / b) * b + b) by (nonlinear_arith);
            assert(b * (m / b) == (m / b) * b) by (nonlinear_arith);
            assert(false);
        }
    }
}

/// Multiplication that reports exactly when the mathematical product
/// leaves the `u128` range.
pub fn checked_mul_u128(a: u128, b: u128) -> (r: Option<u128>)
    ensures
        r matches Some(v) ==> v == a * b,
        r is Some <==> a * b <= u128::MAX,
{
    if b == 0 {
        assert(a * 0 == 0) by (nonlinear_arith);
        Some(0)
    } else {
        proof {
            lemma_mul_le_iff(a as int, b as int, u128::MAX as int);
        }
        if a <= u128::MAX / b {
            Some(a * b)
        } else {
            None
        }
    }
}

/// Addition that reports exactly when the mathematical sum leaves the
/// `u128` range.
pub fn checked_add_u128(a: u128, b: u128) -> (r: Option<u128>)
    ensures
        r matches Some(v) ==> v == a + b,
        r is Some <==> a + b <= u128::MAX,
{
    if a <= u128::MAX - b {
        Some(a + b)
    } else {
        None
    }
}

/// A non-negative rational held exactly in machine words. The numerator and
/// denominator are not reduced; contracts speak of the value through
/// [`rat_eq`] on the view.
#[derive(Debug)]
pub struct Rational {
    pub num: u128,
    pub den: u128,
}

impl View for Rational {
    type V = Rat;

    open spec fn view(&self) -> Rat {
        Rat { n: self.num as int, d: self.den as int }
    }
}

impl Clone for Rational {
    fn clone(&self) -> (r: Self)
        ensures
            r == *self,
    {
        Rational { num: self.num, den: self.den }
    }
}

impl Rational {
    /// The denominator is positive, so the pair names a rational number.
    pub open spec fn wf(self) -> bool {
        self.den > 0
    }

    pub fn from_u32(x: u32) -> (r: Rational)
        ensures
            r.wf(),
            r@ == rat_of_int(x as int),
    {
        Rational { num: x as u128, den: 1 }
    }

    pub fn zero() -> (r: Rational)
        ensures
            r.wf(),
            r@ == rat_zero(),
    {
        Rational { num: 0, den: 1 }
    }

    /// Exact addition; reports an overflow instead of returning a rounded
    /// or clamped value.
    pub fn add(&self, other: &Rational) -> (r: Result<Rational, IcmError>)
        requires
            self.wf(),
            other.wf(),
        ensures
            r matches Ok(v) ==> v.wf() && v@ == rat_add(self@, other@),
            r is Ok <==> add_fits(self@, other@),
            r matches Err(e) ==> e == IcmError::Overflow,
    {
        let t1 = checked_mul_u128(self.num, other.den);
        let t2 = checked_mul_u128(other.num, self.den);
        let d = checked_mul_u128(self.den, other.den);
        match (t1, t2, d) {
            (Some(x), Some(y), Some(dd)) => {
                match checked_add_u128(x, y) {
                    Some(s) => {
                        proof {
                            assert(self.den * other.den > 0) by (nonlinear_arith)
                                requires self.den > 0 && other.den > 0,
                            ;
                        }
                        Ok(Rational { num: s, den: dd })
                    },
                    None => Err(IcmError::Overflow),
                }
            },
            _ => {
                proof {
                    if self.num * other.den > u128::MAX || other.num * self.den > u128::MAX {
                        assert(self.num * other.den >= 0 && other.num * self.den >= 0)
                            by (nonlinear_arith);
                    }
                }
                Err(IcmError::Overflow)
            },
        }
    }

    /// Exact multiplication; reports an overflow instead of rounding.
    pub fn mul(&self, other: &Rational) -> (r: Result<Rational, IcmError>)
        requires
            self.wf(),
            other.wf(),
        ensures
            r matches Ok(v) ==> v.wf() && v@ == rat_mul(self@, other@),
            r is Ok <==> mul_fits(self@, other@),
            r matches Err(e) ==> e == IcmError::Overflow,
    {
        let n = checked_mul_u128(self.num, other.num);
        let d = checked_mul_u128(self.den, other.den);
        match (n, d) {
            (Some(nn), Some(dd)) => {
                proof {
                    assert(self.den * other.den > 0) by (nonlinear_arith)
                        requires self.den > 0 && other.den > 0,
                    ;
                }
                Ok(Rational { num: nn, den: dd })
            },
            _ => Err(IcmError::Overflow),
        }
    }
}

} // verus!
