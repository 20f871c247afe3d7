//! Exact rational arithmetic.
//!
//! An executable rational is a pair of machine integers with a positive
//! denominator.  Its mathematical meaning is a pair of unbounded integers,
//! compared and combined through the usual cross-multiplication rules, so
//! that every contract in the crate can speak about exact rational values.

use vstd::arithmetic::div_mod::*;
use vstd::prelude::*;

verus! {

/// Mathematical rational: numerator and denominator as unbounded integers.
/// Only pairs with a positive denominator are meaningful.
pub type SpecRat = (int, int);

/// A well-formed mathematical rational has a positive denominator.
pub open spec fn rat_wf(a: SpecRat) -> bool {
    a.1 > 0
}

/// Equality of two rationals by cross multiplication.
pub open spec fn rat_eq(a: SpecRat, b: SpecRat) -> bool {
    a.0 * b.1 == b.0 * a.1
}

/// `a <= b` by cross multiplication; valid when both denominators are positive.
pub open spec fn rat_le(a: SpecRat, b: SpecRat) -> bool {
    a.0 * b.1 <= b.0 * a.1
}

/// `a < b` by cross multiplication; valid when both denominators are positive.
pub open spec fn rat_lt(a: SpecRat, b: SpecRat) -> bool {
    a.0 * b.1 < b.0 * a.1
}

pub open spec fn rat_zero() -> SpecRat {
    (0, 1)
}

pub open spec fn rat_one() -> SpecRat {
    (1, 1)
}

/// Sum, before normalization.
pub open spec fn rat_add_raw(a: SpecRat, b: SpecRat) -> SpecRat {
    (a.0 * b.1 + b.0 * a.1, a.1 * b.1)
}

/// Negation.
pub open spec fn rat_neg(a: SpecRat) -> SpecRat {
    (-a.0, a.1)
}

/// Difference, before normalization.
pub open spec fn rat_sub_raw(a: SpecRat, b: SpecRat) -> SpecRat {
    rat_add_raw(a, rat_neg(b))
}

/// Product, before normalization.
pub open spec fn rat_mul_raw(a: SpecRat, b: SpecRat) -> SpecRat {
    (a.0 * b.0, a.1 * b.1)
}

/// Quotient, before normalization.  The sign of the divisor's numerator moves
/// into the dividend so the resulting denominator stays positive.
pub open spec fn rat_div_raw(a: SpecRat, b: SpecRat) -> SpecRat {
    if b.0 < 0 {
        (-(a.0 * b.1), -(a.1 * b.0))
    } else {
        (a.0 * b.1, a.1 * b.0)
    }
}

/// Greatest common divisor by the Euclidean algorithm.
pub open spec fn spec_gcd(a: nat, b: nat) -> nat
    decreases b,
{
    if b == 0 {
        a
    } else {
        spec_gcd(b, a % b)
    }
}

/// Absolute value of an integer.
pub open spec fn abs_int(a: int) -> nat {
    if a >= 0 {
        a as nat
    } else {
        (-a) as nat
    }
}

/// A rational in lowest terms: both components divided by the gcd of their
/// magnitudes.  Meaningful for pairs with a positive denominator.
pub open spec fn rat_norm(a: SpecRat) -> SpecRat {
    let g = spec_gcd(abs_int(a.0), abs_int(a.1)) as int;
    (a.0 / g, a.1 / g)
}

/// Normalized sum.
pub open spec fn rat_add(a: SpecRat, b: SpecRat) -> SpecRat {
    rat_norm(rat_add_raw(a, b))
}

/// Normalized difference.
pub open spec fn rat_sub(a: SpecRat, b: SpecRat) -> SpecRat {
    rat_norm(rat_sub_raw(a, b))
}

/// Normalized product.
pub open spec fn rat_mul(a: SpecRat, b: SpecRat) -> SpecRat {
    rat_norm(rat_mul_raw(a, b))
}

/// Normalized quotient.
pub open spec fn rat_div(a: SpecRat, b: SpecRat) -> SpecRat {
    rat_norm(rat_div_raw(a, b))
}

/// Whether a mathematical rational fits the machine representation: the
/// numerator's magnitude and the denominator at most `i64::MAX`.
pub open spec fn rat_fits(a: SpecRat) -> bool {
    &&& -i64::MAX <= a.0 <= i64::MAX
    &&& 0 < a.1 <= i64::MAX
}

/// The value of `new(num, den)`: the fraction `num / den` with the sign moved
/// into the numerator, in lowest terms.
pub open spec fn rat_canon(num: int, den: int) -> SpecRat {
    if den < 0 {
        rat_norm((-num, -den))
    } else {
        rat_norm((num, den))
    }
}

proof fn lemma_abs_mul_bound(x: int, y: int, a: int, b: int)
    by (nonlinear_arith)
    requires
        -a <= x <= a,
        -b <= y <= b,
        0 <= a,
        0 <= b,
    ensures
        -(a * b) <= x * y <= a * b,
{
}

proof fn lemma_mul_pos(x: int, y: int)
    by (nonlinear_arith)
    requires
        x > 0,
        y > 0,
    ensures
        x * y > 0,
{
}

/// The Euclidean gcd of two numbers divides both, and is positive unless
/// both are zero.
pub proof fn lemma_gcd_divides(a: nat, b: nat)
    ensures
        a > 0 || b > 0 ==> spec_gcd(a, b) > 0,
        spec_gcd(a, b) > 0 ==> a as int % (spec_gcd(a, b) as int) == 0 && b as int % (spec_gcd(
            a,
            b,
        ) as int) == 0,
    decreases b,
{
    let g = spec_gcd(a, b);
    if b == 0 {
        if a > 0 {
            lemma_mod_self_0(a as int);
            lemma_small_mod(0, a);
        }
    } else {
        lemma_gcd_divides(b, a % b);
        if g > 0 {
            lemma_fundamental_div_mod(a as int, b as int);
            lemma_fundamental_div_mod(b as int, g as int);
            lemma_fundamental_div_mod((a % b) as int, g as int);
            let qb = b as int / g as int;
            let qr = (a % b) as int / g as int;
            let qa = a as int / b as int;
            let q = qb * qa + qr;
            assert(a as int == g as int * q) by (nonlinear_arith)
                requires
                    a as int == b as int * qa + (a % b) as int,
                    b as int == g as int * qb,
                    (a % b) as int == g as int * qr,
                    q == qb * qa + qr,
            {
            }
            lemma_fundamental_div_mod_converse(a as int, g as int, q, 0);
        }
    }
}

/// Normalization divides both components by their gcd exactly, keeps the
/// denominator positive, and preserves the rational's value.
pub proof fn lemma_norm(a: SpecRat)
    requires
        rat_wf(a),
    ensures
        ({
            let g = spec_gcd(abs_int(a.0), abs_int(a.1)) as int;
            &&& g > 0
            &&& a.0 == g * rat_norm(a).0
            &&& a.1 == g * rat_norm(a).1
            &&& rat_wf(rat_norm(a))
            &&& rat_eq(rat_norm(a), a)
        }),
{
    let g = spec_gcd(abs_int(a.0), abs_int(a.1)) as int;
    lemma_gcd_divides(abs_int(a.0), abs_int(a.1));
    // the denominator is positive, so the gcd is positive
    lemma_fundamental_div_mod(a.1, g);
    assert(a.1 == g * (a.1 / g));
    if a.0 >= 0 {
        lemma_fundamental_div_mod(a.0, g);
    } else {
        // -a.0 is the magnitude; its exact quotient transfers to a.0
        lemma_fundamental_div_mod(-a.0, g);
        let m = (-a.0) / g;
        assert(a.0 == (-m) * g + 0) by (nonlinear_arith)
            requires
                -a.0 == g * m,
        {
        }
        lemma_fundamental_div_mod_converse(a.0, g, -m, 0);
        assert(a.0 == g * (a.0 / g)) by (nonlinear_arith)
            requires
                -a.0 == g * m,
                a.0 / g == -m,
        {
        }
    }
    assert(a.0 == g * (a.0 / g));
    let n1 = rat_norm(a).0;
    let d1 = rat_norm(a).1;
    assert(d1 > 0) by (nonlinear_arith)
        requires
            a.1 == g * d1,
            a.1 > 0,
            g > 0,
    {
    }
    assert(n1 * a.1 == a.0 * d1) by (nonlinear_arith)
        requires
            a.0 == g * n1,
            a.1 == g * d1,
    {
    }
}

/// An exact rational number: numerator and positive denominator.
///
/// The numerator stays strictly above `i64::MIN` so that its magnitude and
/// negation always fit in the same machine type.
#[derive(Clone, Copy, Debug)]
pub struct Rat {
    num: i64,
    den: i64,
}

impl View for Rat {
    type V = SpecRat;

    closed spec fn view(&self) -> SpecRat {
        (self.num as int, self.den as int)
    }
}

impl Rat {
    /// Well-formedness: positive denominator, numerator and denominator with
    /// magnitudes at most `i64::MAX`.
    pub open spec fn wf(self) -> bool {
        self@.1 > 0 && self@.0 > i64::MIN
    }

    /// The rational with value `n`.
    pub fn from_int(n: i64) -> (r: Rat)
        requires
            n > i64::MIN,
        ensures
            r.wf(),
            r@ == (n as int, 1int),
    {
        Rat { num: n, den: 1 }
    }

    /// The rational zero.
    pub fn zero() -> (r: Rat)
        ensures
            r.wf(),
            r@ == rat_zero(),
    {
        Rat { num: 0, den: 1 }
    }

    /// The rational one.
    pub fn one() -> (r: Rat)
        ensures
            r.wf(),
            r@ == rat_one(),
    {
        Rat { num: 1, den: 1 }
    }

    /// Whether this rational is zero.
    pub fn is_zero(&self) -> (r: bool)
        requires
            self.wf(),
        ensures
            r == rat_eq(self@, rat_zero()),
    {
        self.num == 0
    }

    /// Whether this rational is strictly negative.
    pub fn is_neg(&self) -> (r: bool)
        requires
            self.wf(),
        ensures
            r == rat_lt(self@, rat_zero()),
    {
        self.num < 0
    }

    /// Whether this rational is strictly positive.
    pub fn is_pos(&self) -> (r: bool)
        requires
            self.wf(),
        ensures
            r == rat_lt(rat_zero(), self@),
    {
        self.num > 0
    }

    /// The numerator of the stored (lowest-terms) representation.
    pub fn numerator(&self) -> (r: i64)
        ensures
            r as int == self@.0,
    {
        self.num
    }

    /// The denominator of the stored (lowest-terms) representation.
    pub fn denominator(&self) -> (r: i64)
        ensures
            r as int == self@.1,
    {
        self.den
    }

    /// The fraction `num / den`, in lowest terms with a positive denominator.
    /// `None` exactly when `den` is zero or the reduced fraction does not fit.
    pub fn new(num: i64, den: i64) -> (r: Option<Rat>)
        ensures
            den != 0 ==> match r {
                Some(v) => v.wf() && v@ == rat_canon(num as int, den as int) && rat_fits(
                    rat_canon(num as int, den as int),
                ),
                None => !rat_fits(rat_canon(num as int, den as int)),
            },
            den == 0 ==> r is None,
    {
        if den == 0 {
            None
        } else if den < 0 {
            Self::make(-(num as i128), -(den as i128))
        } else {
            Self::make(num as i128, den as i128)
        }
    }

    /// Negation; exact, and always representable.
    pub fn neg(&self) -> (r: Rat)
        requires
            self.wf(),
        ensures
            r.wf(),
            r@ == rat_neg(self@),
    {
        Rat { num: -self.num, den: self.den }
    }

    /// Exact sum, reduced to lowest terms; `None` exactly when the reduced
    /// sum does not fit the machine representation.
    pub fn checked_add(&self, other: &Rat) -> (r: Option<Rat>)
        requires
            self.wf(),
            other.wf(),
        ensures
            match r {
                Some(v) => v.wf() && v@ == rat_add(self@, other@) && rat_fits(
                    rat_add(self@, other@),
                ),
                None => !rat_fits(rat_add(self@, other@)),
            },
    {
        proof {
            lemma_abs_mul_bound(self@.0, other@.1, i64::MAX as int, i64::MAX as int);
            lemma_abs_mul_bound(other@.0, self@.1, i64::MAX as int, i64::MAX as int);
            lemma_mul_pos(self@.1, other@.1);
            lemma_abs_mul_bound(self@.1, other@.1, i64::MAX as int, i64::MAX as int);
        }
        let n = (self.num as i128) * (other.den as i128) + (other.num as i128) * (self.den as i128);
        let d = (self.den as i128) * (other.den as i128);
        Self::make(n, d)
    }

    /// Exact difference, reduced to lowest terms; `None` exactly when the
    /// reduced difference does not fit the machine representation.
    pub fn checked_sub(&self, other: &Rat) -> (r: Option<Rat>)
        requires
            self.wf(),
            other.wf(),
        ensures
            match r {
                Some(v) => v.wf() && v@ == rat_sub(self@, other@) && rat_fits(
                    rat_sub(self@, other@),
                ),
                None => !rat_fits(rat_sub(self@, other@)),
            },
    {
        self.checked_add(&other.neg())
    }

    /// Exact product, reduced to lowest terms; `None` exactly when the
    /// reduced product does not fit the machine representation.
    pub fn checked_mul(&self, other: &Rat) -> (r: Option<Rat>)
        requires
            self.wf(),
            other.wf(),
        ensures
            match r {
                Some(v) => v.wf() && v@ == rat_mul(self@, other@) && rat_fits(
                    rat_mul(self@, other@),
                ),
                None => !rat_fits(rat_mul(self@, other@)),
            },
    {
        proof {
            lemma_abs_mul_bound(self@.0, other@.0, i64::MAX as int, i64::MAX as int);
            lemma_mul_pos(self@.1, other@.1);
            lemma_abs_mul_bound(self@.1, other@.1, i64::MAX as int, i64::MAX as int);
        }
        let n = (self.num as i128) * (other.num as i128);
        let d = (self.den as i128) * (other.den as i128);
        Self::make(n, d)
    }

    /// Exact quotient, reduced to lowest terms; `None` exactly when the
    /// reduced quotient does not fit the machine representation.
    pub fn checked_div(&self, other: &Rat) -> (r: Option<Rat>)
        requires
            self.wf(),
            other.wf(),
            !rat_eq(other@, rat_zero()),
        ensures
            match r {
                Some(v) => v.wf() && v@ == rat_div(self@, other@) && rat_fits(
                    rat_div(self@, other@),
                ),
                None => !rat_fits(rat_div(self@, other@)),
            },
    {
        proof {
            lemma_abs_mul_bound(self@.0, other@.1, i64::MAX as int, i64::MAX as int);
            lemma_abs_mul_bound(self@.1, other@.0, i64::MAX as int, i64::MAX as int);
        }
        let n = (self.num as i128) * (other.den as i128);
        let d = (self.den as i128) * (other.num as i128);
        if other.num < 0 {
            proof {
                lemma_mul_pos(self@.1, -other@.0);
                assert(self@.1 * (-other@.0) == -(self@.1 * other@.0)) by (nonlinear_arith);
            }
            Self::make(-n, -d)
        } else {
            proof {
                lemma_mul_pos(self@.1, other@.0);
            }
            Self::make(n, d)
        }
    }

    /// Whether `self <= other` as rationals.
    pub fn le(&self, other: &Rat) -> (r: bool)
        requires
            self.wf(),
            other.wf(),
        ensures
            r == rat_le(self@, other@),
    {
        proof {
            lemma_abs_mul_bound(self@.0, other@.1, i64::MAX as int, i64::MAX as int);
            lemma_abs_mul_bound(other@.0, self@.1, i64::MAX as int, i64::MAX as int);
        }
        (self.num as i128) * (other.den as i128) <= (other.num as i128) * (self.den as i128)
    }

    /// Whether `self < other` as rationals.
    pub fn lt(&self, other: &Rat) -> (r: bool)
        requires
            self.wf(),
            other.wf(),
        ensures
            r == rat_lt(self@, other@),
    {
        proof {
            lemma_abs_mul_bound(self@.0, other@.1, i64::MAX as int, i64::MAX as int);
            lemma_abs_mul_bound(other@.0, self@.1, i64::MAX as int, i64::MAX as int);
        }
        (self.num as i128) * (other.den as i128) < (other.num as i128) * (self.den as i128)
    }

    /// Whether `self` and `other` denote the same rational.
    pub fn eq_rat(&self, other: &Rat) -> (r: bool)
        requires
            self.wf(),
            other.wf(),
        ensures
            r == rat_eq(self@, other@),
    {
        proof {
            lemma_abs_mul_bound(self@.0, other@.1, i64::MAX as int, i64::MAX as int);
            lemma_abs_mul_bound(other@.0, self@.1, i64::MAX as int, i64::MAX as int);
        }
        (self.num as i128) * (other.den as i128) == (other.num as i128) * (self.den as i128)
    }

    /// Builds the reduced machine rational for `num / den`.
    fn make(num: i128, den: i128) -> (r: Option<Rat>)
        requires
            den > 0,
            num > i128::MIN,
        ensures
            match r {
                Some(v) => v.wf() && v@ == rat_norm((num as int, den as int)) && rat_fits(
                    rat_norm((num as int, den as int)),
                ),
                None => !rat_fits(rat_norm((num as int, den as int))),
            },
    {
        let ghost a: SpecRat = (num as int, den as int);
        proof {
            lemma_norm(a);
        }
        let neg = num < 0;
        let mag: u128 = if neg {
            (-num) as u128
        } else {
            num as u128
        };
        let d: u128 = den as u128;
        let g = gcd_u128(mag, d);
        let ghost gs = spec_gcd(abs_int(a.0), abs_int(a.1)) as int;
        let ghost n1 = rat_norm(a).0;
        let ghost d1 = rat_norm(a).1;
        proof {
            // identify the executable quotients with the normalized pair
            if neg {
                assert(-n1 >= 0) by (nonlinear_arith)
                    requires
                        a.0 == gs * n1,
                        a.0 < 0,
                        gs > 0,
                {
                }
                assert(mag == gs * (-n1) + 0) by (nonlinear_arith)
                    requires
                        a.0 == gs * n1,
                        mag == -a.0,
                {
                }
                lemma_fundamental_div_mod_converse(mag as int, gs, -n1, 0);
            } else {
                lemma_fundamental_div_mod_converse(mag as int, gs, n1, 0);
            }
            lemma_fundamental_div_mod_converse(d as int, gs, d1, 0);
        }
        let qn = mag / g;
        let qd = d / g;
        if qn <= i64::MAX as u128 && qd <= i64::MAX as u128 {
            let n64 = if neg {
                -(qn as i64)
            } else {
                qn as i64
            };
            Some(Rat { num: n64, den: qd as i64 })
        } else {
            None
        }
    }
}

proof fn lemma_cancel_le(x: int, y: int, p: int)
    by (nonlinear_arith)
    requires
        x * p <= y * p,
        p > 0,
    ensures
        x <= y,
{
}

proof fn lemma_cancel_eq(x: int, y: int, p: int)
    by (nonlinear_arith)
    requires
        x * p == y * p,
        p != 0,
    ensures
        x == y,
{
}

/// Rational equality is transitive (over well-formed rationals).
pub proof fn lemma_rat_eq_trans(a: SpecRat, b: SpecRat, c: SpecRat)
    requires
        rat_wf(a),
        rat_wf(b),
        rat_wf(c),
        rat_eq(a, b),
        rat_eq(b, c),
    ensures
        rat_eq(a, c),
{
    assert((a.0 * c.1) * b.1 == (c.0 * a.1) * b.1) by (nonlinear_arith)
        requires
            a.0 * b.1 == b.0 * a.1,
            b.0 * c.1 == c.0 * b.1,
    {
    }
    lemma_cancel_eq(a.0 * c.1, c.0 * a.1, b.1);
}

proof fn lemma_le_congr_dir(a: SpecRat, b: SpecRat, a2: SpecRat, b2: SpecRat)
    requires
        rat_wf(a),
        rat_wf(b),
        rat_wf(a2),
        rat_wf(b2),
        rat_eq(a, a2),
        rat_eq(b, b2),
        rat_le(a, b),
    ensures
        rat_le(a2, b2),
{
    let p = a.1 * b.1;
    let q = a2.1 * b2.1;
    lemma_mul_pos(a.1, b.1);
    lemma_mul_pos(a2.1, b2.1);
    assert((a2.0 * b2.1) * p == (a.0 * b.1) * q) by (nonlinear_arith)
        requires
            a.0 * a2.1 == a2.0 * a.1,
            p == a.1 * b.1,
            q == a2.1 * b2.1,
    {
    }
    assert((b2.0 * a2.1) * p == (b.0 * a.1) * q) by (nonlinear_arith)
        requires
            b.0 * b2.1 == b2.0 * b.1,
            p == a.1 * b.1,
            q == a2.1 * b2.1,
    {
    }
    assert((a2.0 * b2.1) * p <= (b2.0 * a2.1) * p) by (nonlinear_arith)
        requires
            a.0 * b.1 <= b.0 * a.1,
            (a2.0 * b2.1) * p == (a.0 * b.1) * q,
            (b2.0 * a2.1) * p == (b.0 * a.1) * q,
            q > 0,
    {
    }
    lemma_cancel_le(a2.0 * b2.1, b2.0 * a2.1, p);
}

/// `<=` and `<` respect rational equality.
pub proof fn lemma_le_congr(a: SpecRat, b: SpecRat, a2: SpecRat, b2: SpecRat)
    requires
        rat_wf(a),
        rat_wf(b),
        rat_wf(a2),
        rat_wf(b2),
        rat_eq(a, a2),
        rat_eq(b, b2),
    ensures
        rat_le(a, b) == rat_le(a2, b2),
        rat_lt(a, b) == rat_lt(a2, b2),
{
    if rat_le(a, b) {
        lemma_le_congr_dir(a, b, a2, b2);
    }
    if rat_le(a2, b2) {
        lemma_le_congr_dir(a2, b2, a, b);
    }
    if rat_le(b, a) {
        lemma_le_congr_dir(b, a, b2, a2);
    }
    if rat_le(b2, a2) {
        lemma_le_congr_dir(b2, a2, b, a);
    }
}

/// `<=` is transitive (over well-formed rationals).
pub proof fn lemma_le_trans(a: SpecRat, b: SpecRat, c: SpecRat)
    requires
        rat_wf(a),
        rat_wf(b),
        rat_wf(c),
        rat_le(a, b),
        rat_le(b, c),
    ensures
        rat_le(a, c),
{
    assert((a.0 * c.1) * b.1 <= (c.0 * a.1) * b.1) by (nonlinear_arith)
        requires
            a.0 * b.1 <= b.0 * a.1,
            b.0 * c.1 <= c.0 * b.1,
            a.1 > 0,
            b.1 > 0,
            c.1 > 0,
    {
    }
    lemma_cancel_le(a.0 * c.1, c.0 * a.1, b.1);
}

/// `<` chains with `<=` (over well-formed rationals).
pub proof fn lemma_lt_le_trans(a: SpecRat, b: SpecRat, c: SpecRat)
    requires
        rat_wf(a),
        rat_wf(b),
        rat_wf(c),
        rat_lt(a, b),
        rat_le(b, c),
    ensures
        rat_lt(a, c),
{
    assert((a.0 * c.1) * b.1 < (c.0 * a.1) * b.1) by (nonlinear_arith)
        requires
            a.0 * b.1 < b.0 * a.1,
            b.0 * c.1 <= c.0 * b.1,
            a.1 > 0,
            b.1 > 0,
            c.1 > 0,
    {
    }
    assert(a.0 * c.1 < c.0 * a.1) by (nonlinear_arith)
        requires
            (a.0 * c.1) * b.1 < (c.0 * a.1) * b.1,
            b.1 > 0,
    {
    }
}

/// The normalized sum is well formed and equal to the raw sum.
pub proof fn lemma_add_wf(a: SpecRat, b: SpecRat)
    requires
        rat_wf(a),
        rat_wf(b),
    ensures
        rat_wf(rat_add_raw(a, b)),
        rat_wf(rat_add(a, b)),
        rat_eq(rat_add(a, b), rat_add_raw(a, b)),
{
    lemma_mul_pos(a.1, b.1);
    lemma_norm(rat_add_raw(a, b));
}

/// The normalized difference is well formed and equal to the raw difference.
pub proof fn lemma_sub_wf(a: SpecRat, b: SpecRat)
    requires
        rat_wf(a),
        rat_wf(b),
    ensures
        rat_wf(rat_sub_raw(a, b)),
        rat_wf(rat_sub(a, b)),
        rat_eq(rat_sub(a, b), rat_sub_raw(a, b)),
{
    lemma_mul_pos(a.1, b.1);
    lemma_norm(rat_sub_raw(a, b));
}

/// The normalized product is well formed and equal to the raw product.
pub proof fn lemma_mul_wf(a: SpecRat, b: SpecRat)
    requires
        rat_wf(a),
        rat_wf(b),
    ensures
        rat_wf(rat_mul_raw(a, b)),
        rat_wf(rat_mul(a, b)),
        rat_eq(rat_mul(a, b), rat_mul_raw(a, b)),
{
    lemma_mul_pos(a.1, b.1);
    lemma_norm(rat_mul_raw(a, b));
}

/// The normalized quotient is well formed and equal to the raw quotient.
pub proof fn lemma_div_wf(a: SpecRat, b: SpecRat)
    requires
        rat_wf(a),
        rat_wf(b),
        b.0 != 0,
    ensures
        rat_wf(rat_div_raw(a, b)),
        rat_wf(rat_div(a, b)),
        rat_eq(rat_div(a, b), rat_div_raw(a, b)),
{
    if b.0 < 0 {
        lemma_mul_pos(a.1, -b.0);
        assert(a.1 * (-b.0) == -(a.1 * b.0)) by (nonlinear_arith);
    } else {
        lemma_mul_pos(a.1, b.0);
    }
    lemma_norm(rat_div_raw(a, b));
}

/// Multiplying on the right respects rational equality.
pub proof fn lemma_mul_raw_congr_r(x: SpecRat, y: SpecRat, y2: SpecRat)
    requires
        rat_wf(x),
        rat_wf(y),
        rat_wf(y2),
        rat_eq(y, y2),
    ensures
        rat_eq(rat_mul_raw(x, y), rat_mul_raw(x, y2)),
{
    assert((x.0 * y.0) * (x.1 * y2.1) == (x.0 * y2.0) * (x.1 * y.1)) by (nonlinear_arith)
        requires
            y.0 * y2.1 == y2.0 * y.1,
    {
    }
}

/// Subtracting on the right respects rational equality.
pub proof fn lemma_sub_raw_congr_r(x: SpecRat, y: SpecRat, y2: SpecRat)
    requires
        rat_wf(x),
        rat_wf(y),
        rat_wf(y2),
        rat_eq(y, y2),
    ensures
        rat_eq(rat_sub_raw(x, y), rat_sub_raw(x, y2)),
{
    assert((x.0 * y.1) * (x.1 * y2.1) == (x.0 * y2.1) * (x.1 * y.1)) by (nonlinear_arith);
    assert((y.0 * x.1) * (x.1 * y2.1) == (y2.0 * x.1) * (x.1 * y.1)) by (nonlinear_arith)
        requires
            y.0 * y2.1 == y2.0 * y.1,
    {
    }
    assert((x.0 * y.1 + (-y.0) * x.1) * (x.1 * y2.1) == (x.0 * y2.1 + (-y2.0) * x.1) * (x.1
        * y.1)) by (nonlinear_arith)
        requires
            (x.0 * y.1) * (x.1 * y2.1) == (x.0 * y2.1) * (x.1 * y.1),
            (y.0 * x.1) * (x.1 * y2.1) == (y2.0 * x.1) * (x.1 * y.1),
    {
    }
}

/// A rational divided by itself is one.
pub proof fn lemma_self_div_one(p: SpecRat)
    requires
        rat_wf(p),
        p.0 != 0,
    ensures
        rat_wf(rat_div(p, p)),
        rat_eq(rat_div(p, p), rat_one()),
{
    lemma_div_wf(p, p);
    assert(rat_eq(rat_div_raw(p, p), rat_one())) by (nonlinear_arith)
        requires
            rat_wf(p),
            p.0 != 0,
    {
    }
    lemma_rat_eq_trans(rat_div(p, p), rat_div_raw(p, p), rat_one());
}

/// Dividing by a rational equal to one changes nothing.
pub proof fn lemma_div_by_one(a: SpecRat, b: SpecRat)
    requires
        rat_wf(a),
        rat_wf(b),
        rat_eq(b, rat_one()),
    ensures
        rat_wf(rat_div(a, b)),
        rat_eq(rat_div(a, b), a),
{
    // b.0 == b.1 > 0
    assert(b.0 == b.1);
    lemma_div_wf(a, b);
    assert(rat_eq(rat_div_raw(a, b), a)) by (nonlinear_arith)
        requires
            b.0 == b.1,
            b.1 > 0,
            rat_wf(a),
    {
    }
    lemma_rat_eq_trans(rat_div(a, b), rat_div_raw(a, b), a);
}

/// Multiplying by a rational equal to one changes nothing.
pub proof fn lemma_mul_by_one(f: SpecRat, x: SpecRat)
    requires
        rat_wf(f),
        rat_wf(x),
        rat_eq(x, rat_one()),
    ensures
        rat_wf(rat_mul(f, x)),
        rat_eq(rat_mul(f, x), f),
{
    lemma_mul_wf(f, x);
    assert(x.0 == x.1);
    assert(rat_eq(rat_mul_raw(f, x), f)) by (nonlinear_arith)
        requires
            x.0 == x.1,
    {
    }
    lemma_rat_eq_trans(rat_mul(f, x), rat_mul_raw(f, x), f);
}

/// Subtracting a rational equal to the entry itself gives zero.
pub proof fn lemma_sub_eq_zero(e: SpecRat, m: SpecRat)
    requires
        rat_wf(e),
        rat_wf(m),
        rat_eq(m, e),
    ensures
        rat_wf(rat_sub(e, m)),
        rat_eq(rat_sub(e, m), rat_zero()),
{
    lemma_sub_wf(e, m);
    assert(rat_eq(rat_sub_raw(e, m), rat_zero())) by (nonlinear_arith)
        requires
            m.0 * e.1 == e.0 * m.1,
    {
    }
    lemma_rat_eq_trans(rat_sub(e, m), rat_sub_raw(e, m), rat_zero());
}

/// Subtracting the product with a zero factor changes nothing.
pub proof fn lemma_elim_zero_factor(e: SpecRat, f: SpecRat, x: SpecRat)
    requires
        rat_wf(e),
        rat_wf(f),
        rat_wf(x),
        rat_eq(f, rat_zero()),
    ensures
        rat_wf(rat_sub(e, rat_mul(f, x))),
        rat_eq(rat_sub(e, rat_mul(f, x)), e),
{
    let m = rat_mul(f, x);
    lemma_mul_wf(f, x);
    assert(f.0 == 0);
    assert(rat_eq(rat_mul_raw(f, x), rat_zero())) by (nonlinear_arith)
        requires
            f.0 == 0,
    {
    }
    lemma_rat_eq_trans(m, rat_mul_raw(f, x), rat_zero());
    lemma_sub_zero_r(e, m);
}

/// Subtracting a rational equal to zero changes nothing.
pub proof fn lemma_sub_zero_r(e: SpecRat, m: SpecRat)
    requires
        rat_wf(e),
        rat_wf(m),
        rat_eq(m, rat_zero()),
    ensures
        rat_wf(rat_sub(e, m)),
        rat_eq(rat_sub(e, m), e),
{
    lemma_sub_wf(e, m);
    assert(m.0 == 0);
    assert(rat_eq(rat_sub_raw(e, m), e)) by (nonlinear_arith)
        requires
            m.0 == 0,
            rat_wf(e),
            rat_wf(m),
    {
    }
    lemma_rat_eq_trans(rat_sub(e, m), rat_sub_raw(e, m), e);
}

/// A quotient with zero dividend is zero.
pub proof fn lemma_div_zero_num(p: SpecRat, q: SpecRat)
    requires
        rat_wf(p),
        rat_wf(q),
        q.0 != 0,
        rat_eq(p, rat_zero()),
    ensures
        rat_wf(rat_div(p, q)),
        rat_eq(rat_div(p, q), rat_zero()),
{
    lemma_div_wf(p, q);
    assert(p.0 == 0);
    assert(rat_eq(rat_div_raw(p, q), rat_zero())) by (nonlinear_arith)
        requires
            p.0 == 0,
    {
    }
    lemma_rat_eq_trans(rat_div(p, q), rat_div_raw(p, q), rat_zero());
}

/// A fraction over one is already in lowest terms.
pub proof fn lemma_norm_int(a: int)
    ensures
        rat_norm((a, 1int)) == (a, 1int),
{
    let m = abs_int(a);
    assert(m % 1 == 0) by (nonlinear_arith);
    assert(spec_gcd(m, 1) == spec_gcd(1, m % 1));
    assert(spec_gcd(1, 0) == 1);
    assert(a / 1 == a) by (nonlinear_arith);
    assert(1int / 1 == 1) by (nonlinear_arith);
}

/// Subtraction of integer rationals is integer subtraction.
pub proof fn lemma_rat_sub_int(a: int, b: int)
    ensures
        rat_sub((a, 1int), (b, 1int)) == (a - b, 1int),
{
    assert(rat_sub_raw((a, 1int), (b, 1int)) == (a - b, 1int)) by (nonlinear_arith);
    lemma_norm_int(a - b);
}

/// Multiplication of integer rationals is integer multiplication.
pub proof fn lemma_rat_mul_int(a: int, b: int)
    ensures
        rat_mul((a, 1int), (b, 1int)) == (a * b, 1int),
{
    assert(rat_mul_raw((a, 1int), (b, 1int)) == (a * b, 1int)) by (nonlinear_arith);
    lemma_norm_int(a * b);
}

/// The value after one Gaussian elimination step: `e - f * (p / q)`.
pub open spec fn rat_elim(e: SpecRat, f: SpecRat, p: SpecRat, q: SpecRat) -> SpecRat {
    rat_sub(e, rat_mul(f, rat_div(p, q)))
}

/// The elimination step is well formed and equal to its raw (unnormalized)
/// counterpart.
pub proof fn lemma_elim_raw(e: SpecRat, f: SpecRat, p: SpecRat, q: SpecRat)
    requires
        rat_wf(e),
        rat_wf(f),
        rat_wf(p),
        rat_wf(q),
        q.0 != 0,
    ensures
        rat_wf(rat_elim(e, f, p, q)),
        rat_wf(rat_sub_raw(e, rat_mul_raw(f, rat_div_raw(p, q)))),
        rat_eq(rat_elim(e, f, p, q), rat_sub_raw(e, rat_mul_raw(f, rat_div_raw(p, q)))),
{
    let d = rat_div(p, q);
    let draw = rat_div_raw(p, q);
    lemma_div_wf(p, q);
    let m = rat_mul(f, d);
    let mraw = rat_mul_raw(f, draw);
    lemma_mul_wf(f, d);
    lemma_mul_raw_congr_r(f, d, draw);
    lemma_mul_pos(f.1, draw.1);
    lemma_rat_eq_trans(m, rat_mul_raw(f, d), mraw);
    let s = rat_sub(e, m);
    let sraw = rat_sub_raw(e, mraw);
    lemma_sub_wf(e, m);
    lemma_sub_raw_congr_r(e, m, mraw);
    lemma_mul_pos(e.1, mraw.1);
    lemma_rat_eq_trans(s, rat_sub_raw(e, m), sraw);
}

/// A quotient of a non-negative rational by a positive one is non-negative.
pub proof fn lemma_div_nonneg(p: SpecRat, q: SpecRat)
    requires
        rat_wf(p),
        rat_wf(q),
        rat_le(rat_zero(), p),
        rat_lt(rat_zero(), q),
    ensures
        rat_wf(rat_div(p, q)),
        rat_le(rat_zero(), rat_div(p, q)),
{
    lemma_div_wf(p, q);
    let draw = rat_div_raw(p, q);
    assert(draw.0 >= 0) by (nonlinear_arith)
        requires
            p.0 >= 0,
            q.1 > 0,
            draw.0 == p.0 * q.1,
    {
    }
    lemma_le_congr(rat_zero(), draw, rat_zero(), rat_div(p, q));
}

/// Eliminating with a non-positive factor keeps a non-negative entry
/// non-negative (the subtracted quantity is itself non-positive).
pub proof fn lemma_elim_nonneg_nonpos_factor(e: SpecRat, f: SpecRat, p: SpecRat, q: SpecRat)
    requires
        rat_wf(e),
        rat_wf(f),
        rat_wf(p),
        rat_wf(q),
        rat_le(rat_zero(), e),
        rat_le(f, rat_zero()),
        rat_le(rat_zero(), p),
        rat_lt(rat_zero(), q),
    ensures
        rat_wf(rat_elim(e, f, p, q)),
        rat_le(rat_zero(), rat_elim(e, f, p, q)),
{
    lemma_elim_raw(e, f, p, q);
    let sraw = rat_sub_raw(e, rat_mul_raw(f, rat_div_raw(p, q)));
    assert(e.0 * (f.1 * (p.1 * q.0)) >= 0) by (nonlinear_arith)
        requires
            e.0 >= 0,
            f.1 > 0,
            p.1 > 0,
            q.0 > 0,
    {
    }
    assert((-(f.0 * (p.0 * q.1))) * e.1 >= 0) by (nonlinear_arith)
        requires
            f.0 <= 0,
            p.0 >= 0,
            q.1 > 0,
            e.1 > 0,
    {
    }
    assert(sraw.0 >= 0);
    lemma_le_congr(rat_zero(), sraw, rat_zero(), rat_elim(e, f, p, q));
}

/// Eliminating with a positive factor keeps a non-negative entry
/// non-negative, provided the subtracted ratio does not exceed the entry's
/// own ratio (the minimum-ratio rule).
pub proof fn lemma_elim_nonneg_ratio(e: SpecRat, f: SpecRat, p: SpecRat, q: SpecRat)
    requires
        rat_wf(e),
        rat_wf(f),
        rat_wf(p),
        rat_wf(q),
        rat_le(rat_zero(), e),
        rat_lt(rat_zero(), f),
        rat_le(rat_zero(), p),
        rat_lt(rat_zero(), q),
        rat_le(rat_div(p, q), rat_div(e, f)),
    ensures
        rat_wf(rat_elim(e, f, p, q)),
        rat_le(rat_zero(), rat_elim(e, f, p, q)),
{
    lemma_elim_raw(e, f, p, q);
    lemma_div_wf(p, q);
    lemma_div_wf(e, f);
    lemma_le_congr(rat_div(p, q), rat_div(e, f), rat_div_raw(p, q), rat_div_raw(e, f));
    let sraw = rat_sub_raw(e, rat_mul_raw(f, rat_div_raw(p, q)));
    assert(sraw.0 >= 0) by (nonlinear_arith)
        requires
            (p.0 * q.1) * (e.1 * f.0) <= (e.0 * f.1) * (p.1 * q.0),
            sraw.0 == e.0 * (f.1 * (p.1 * q.0)) + (-(f.0 * (p.0 * q.1))) * e.1,
    {
    }
    lemma_le_congr(rat_zero(), sraw, rat_zero(), rat_elim(e, f, p, q));
}

/// Eliminating with a negative factor can only increase the entry.
pub proof fn lemma_elim_monotone(e: SpecRat, f: SpecRat, p: SpecRat, q: SpecRat)
    requires
        rat_wf(e),
        rat_wf(f),
        rat_wf(p),
        rat_wf(q),
        rat_lt(f, rat_zero()),
        rat_le(rat_zero(), p),
        rat_lt(rat_zero(), q),
    ensures
        rat_wf(rat_elim(e, f, p, q)),
        rat_le(e, rat_elim(e, f, p, q)),
{
    lemma_elim_raw(e, f, p, q);
    let sraw = rat_sub_raw(e, rat_mul_raw(f, rat_div_raw(p, q)));
    assert((-(f.0 * (p.0 * q.1))) * e.1 >= 0) by (nonlinear_arith)
        requires
            f.0 < 0,
            p.0 >= 0,
            q.1 > 0,
            e.1 > 0,
    {
    }
    assert(rat_le(e, sraw)) by (nonlinear_arith)
        requires
            (-(f.0 * (p.0 * q.1))) * e.1 >= 0,
            e.1 > 0,
            sraw.0 == e.0 * (f.1 * (p.1 * q.0)) + (-(f.0 * (p.0 * q.1))) * e.1,
            sraw.1 == e.1 * (f.1 * (p.1 * q.0)),
    {
    }
    lemma_le_congr(e, sraw, e, rat_elim(e, f, p, q));
}

/// Eliminating when the pivot-row entry is zero changes nothing.
pub proof fn lemma_elim_zero_p(e: SpecRat, f: SpecRat, p: SpecRat, q: SpecRat)
    requires
        rat_wf(e),
        rat_wf(f),
        rat_wf(p),
        rat_wf(q),
        q.0 != 0,
        rat_eq(p, rat_zero()),
    ensures
        rat_wf(rat_elim(e, f, p, q)),
        rat_eq(rat_elim(e, f, p, q), e),
{
    let d = rat_div(p, q);
    lemma_div_zero_num(p, q);
    let m = rat_mul(f, d);
    lemma_mul_wf(f, d);
    assert(d.0 == 0);
    assert(rat_eq(rat_mul_raw(f, d), rat_zero())) by (nonlinear_arith)
        requires
            d.0 == 0,
    {
    }
    lemma_rat_eq_trans(m, rat_mul_raw(f, d), rat_zero());
    lemma_sub_zero_r(e, m);
}

/// The Euclidean algorithm on machine integers.
fn gcd_u128(a: u128, b: u128) -> (g: u128)
    ensures
        g as nat == spec_gcd(a as nat, b as nat),
{
    let mut x = a;
    let mut y = b;
    while y != 0
        invariant
            spec_gcd(x as nat, y as nat) == spec_gcd(a as nat, b as nat),
        decreases y,
    {
        let t = x % y;
        x = y;
        y = t;
    }
    x
}

} // verus!
