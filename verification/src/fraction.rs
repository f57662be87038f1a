//! Exact rational numbers: a reduced numerator/denominator pair of big
//! integers with a positive denominator.
//!
//! Every constructor and arithmetic operation re-establishes the invariant
//! (lowest terms, positive denominator) and states its result as a
//! cross-multiplication equation over the component values.

#![verifier::loop_isolation(false)]

use vstd::arithmetic::power::pow;
use vstd::arithmetic::power2::pow2;
use vstd::prelude::*;

use crate::big_int::{abs_val, sgn, BigInt};
use crate::utils::{gcd_int, lemma_gcd_divides, lemma_gcd_pos, lemma_gcd_quotients_coprime};

verus! {

/// Rational equality of two numerator/denominator pairs by
/// cross-multiplication.
pub open spec fn frac_eqv(n1: int, d1: int, n2: int, d2: int) -> bool {
    n1 * d2 == n2 * d1
}

/// Failure modes of converting a floating-point value to a fraction.
#[derive(Clone, Copy, Debug, PartialEq, Eq, Structural)]
pub enum FromFloatConversionError {
    /// The value was one of the infinities.
    Infinity,
    /// The value was a NaN.
    NaN,
}

impl FromFloatConversionError {
    /// A short description of the failure.
    pub fn description(&self) -> (r: &'static str)
        ensures
            *self == FromFloatConversionError::Infinity ==> r@
                == "Conversion of infinity is undefined."@,
            *self == FromFloatConversionError::NaN ==> r@ == "Conversion of NaN is undefined."@,
    {
        match self {
            FromFloatConversionError::Infinity => "Conversion of infinity is undefined.",
            FromFloatConversionError::NaN => "Conversion of NaN is undefined.",
        }
    }
}

/// An exact rational number in lowest terms.
pub struct Fraction {
    /// Carries the sign of the value.
    pub numerator: BigInt,
    /// Always positive.
    pub denominator: BigInt,
}

impl Fraction {
    /// Numerator value.
    pub open spec fn num(&self) -> int {
        self.numerator@
    }

    /// Denominator value.
    pub open spec fn den(&self) -> int {
        self.denominator@
    }

    /// The representation invariant: both components are well-formed, the
    /// denominator is positive, and the pair is in lowest terms.
    pub open spec fn wf(&self) -> bool {
        &&& self.numerator.wf()
        &&& self.denominator.wf()
        &&& self.den() > 0
        &&& gcd_int(abs_val(self.num()), self.den()) == 1
    }

    /// Borrows the numerator.
    pub fn numerator(&self) -> (r: &BigInt)
        ensures
            r@ == self.num(),
            self.wf() ==> r.wf(),
    {
        &self.numerator
    }

    /// Borrows the denominator.
    pub fn denominator(&self) -> (r: &BigInt)
        ensures
            r@ == self.den(),
            self.wf() ==> r.wf(),
    {
        &self.denominator
    }
}

impl Clone for Fraction {
    /// Clones preserve both component values.
    fn clone(&self) -> (r: Self)
        ensures
            r.num() == self.num(),
            r.den() == self.den(),
            self.wf() ==> r.wf(),
    {
        Fraction { numerator: self.numerator.clone(), denominator: self.denominator.clone() }
    }
}

/// Divides a value by a known positive exact divisor.
fn exact_div(a: &BigInt, g: &BigInt) -> (q: BigInt)
    requires
        a.wf(),
        g.wf(),
        g@ > 0,
        abs_val(a@) % g@ == 0,
    ensures
        q.wf(),
        q@ * g@ == a@,
{
    match a.checked_div(g) {
        Some(q) => {
            proof {
                crate::big_int::lemma_sgn_abs(a@);
                vstd::arithmetic::div_mod::lemma_fundamental_div_mod(abs_val(a@), g@);
                let k = sgn(a@) * (abs_val(a@) / g@);
                assert(a@ == k * g@) by (nonlinear_arith)
                    requires
                        a@ == sgn(a@) * abs_val(a@),
                        abs_val(a@) == g@ * (abs_val(a@) / g@) + abs_val(a@) % g@,
                        abs_val(a@) % g@ == 0,
                        k == sgn(a@) * (abs_val(a@) / g@),
                ;
                let rr = a@ - q@ * g@;
                assert(rr == (k - q@) * g@) by (nonlinear_arith)
                    requires
                        a@ == k * g@,
                        rr == a@ - q@ * g@,
                ;
                assert(rr == 0) by (nonlinear_arith)
                    requires
                        rr == (k - q@) * g@,
                        abs_val(rr) < g@,
                        abs_val(rr) == (if rr >= 0 {
                            rr
                        } else {
                            -rr
                        }),
                        g@ > 0,
                ;
            }
            q
        },
        None => {
            proof {
                assert(false);
            }
            BigInt::zero()
        },
    }
}

/// Flips both components' signs when the denominator is negative.
pub fn normalize_components_sign(numerator: BigInt, denominator: BigInt) -> (r: (BigInt, BigInt))
    requires
        numerator.wf(),
        denominator.wf(),
    ensures
        r.0.wf(),
        r.1.wf(),
        denominator@ < 0 ==> r.0@ == -numerator@ && r.1@ == -denominator@,
        denominator@ >= 0 ==> r.0@ == numerator@ && r.1@ == denominator@,
{
    if denominator.is_negative() {
        (numerator.neg(), denominator.neg())
    } else {
        (numerator, denominator)
    }
}

/// Divides both components by their greatest common divisor.
pub fn normalize_components_moduli(numerator: BigInt, denominator: BigInt) -> (r: (BigInt, BigInt))
    requires
        numerator.wf(),
        denominator.wf(),
        numerator@ != 0 || denominator@ != 0,
    ensures
        r.0.wf(),
        r.1.wf(),
        ({
            let g = gcd_int(abs_val(numerator@), abs_val(denominator@));
            r.0@ * g == numerator@ && r.1@ * g == denominator@
        }),
{
    let g = numerator.gcd(&denominator);
    proof {
        lemma_gcd_pos(abs_val(numerator@), abs_val(denominator@));
        lemma_gcd_divides(abs_val(numerator@), abs_val(denominator@));
    }
    let qn = exact_div(&numerator, &g);
    let qd = exact_div(&denominator, &g);
    (qn, qd)
}

impl Fraction {
    /// Packs an already sign-normalised pair after reduction to lowest
    /// terms.
    fn reduce_new(numerator: BigInt, denominator: BigInt) -> (r: Self)
        requires
            numerator.wf(),
            denominator.wf(),
            denominator@ > 0,
        ensures
            r.wf(),
            frac_eqv(r.num(), r.den(), numerator@, denominator@),
    {
        let ghost n0: int = numerator@;
        let ghost d0: int = denominator@;
        let ghost g: int = gcd_int(abs_val(n0), abs_val(d0));
        let (qn, qd) = normalize_components_moduli(numerator, denominator);
        proof {
            lemma_gcd_pos(abs_val(n0), abs_val(d0));
            // The reduced denominator stays positive.
            assert(qd@ > 0) by (nonlinear_arith)
                requires
                    qd@ * g == d0,
                    d0 > 0,
                    g > 0,
            ;
            // The reduced pair is coprime.
            lemma_gcd_quotients_coprime(abs_val(n0), abs_val(d0));
            vstd::arithmetic::div_mod::lemma_fundamental_div_mod(abs_val(n0), g);
            vstd::arithmetic::div_mod::lemma_fundamental_div_mod(abs_val(d0), g);
            lemma_gcd_divides(abs_val(n0), abs_val(d0));
            assert(abs_val(qn@) * g == abs_val(n0) && abs_val(qd@) * g == abs_val(d0))
                by (nonlinear_arith)
                requires
                    qn@ * g == n0,
                    qd@ * g == d0,
                    g > 0,
                    abs_val(qn@) == (if qn@ >= 0 {
                        qn@
                    } else {
                        -qn@
                    }),
                    abs_val(n0) == (if n0 >= 0 {
                        n0
                    } else {
                        -n0
                    }),
                    abs_val(qd@) == (if qd@ >= 0 {
                        qd@
                    } else {
                        -qd@
                    }),
                    abs_val(d0) == (if d0 >= 0 {
                        d0
                    } else {
                        -d0
                    }),
            ;
            assert(abs_val(qn@) == abs_val(n0) / g && abs_val(qd@) == abs_val(d0) / g) by {
                vstd::arithmetic::div_mod::lemma_fundamental_div_mod_converse(
                    abs_val(n0),
                    g,
                    abs_val(qn@),
                    0,
                );
                vstd::arithmetic::div_mod::lemma_fundamental_div_mod_converse(
                    abs_val(d0),
                    g,
                    abs_val(qd@),
                    0,
                );
                assert(abs_val(n0) == abs_val(qn@) * g + 0);
                assert(abs_val(d0) == abs_val(qd@) * g + 0);
            }
            assert(gcd_int(abs_val(qn@), qd@) == 1);
            // Cross-multiplied equality with the unreduced pair.
            assert(qn@ * d0 == n0 * qd@) by (nonlinear_arith)
                requires
                    qn@ * g == n0,
                    qd@ * g == d0,
            ;
        }
        Fraction { numerator: qn, denominator: qd }
    }

    /// Builds a fraction from a numerator and a denominator; `None` exactly
    /// on a zero denominator.
    pub fn new(numerator: BigInt, denominator: BigInt) -> (res: Option<Self>)
        requires
            numerator.wf(),
            denominator.wf(),
        ensures
            (res is None) <==> denominator@ == 0,
            res matches Some(f) ==> f.wf() && frac_eqv(f.num(), f.den(), numerator@, denominator@),
    {
        if denominator.is_zero() {
            return None;
        }
        let ghost n0: int = numerator@;
        let ghost d0: int = denominator@;
        let (n, d) = normalize_components_sign(numerator, denominator);
        let f = Self::reduce_new(n, d);
        proof {
            if d0 < 0 {
                assert(frac_eqv(f.num(), f.den(), n0, d0)) by (nonlinear_arith)
                    requires
                        f.num() * (-d0) == (-n0) * f.den(),
                ;
            }
        }
        Some(f)
    }

    /// The fraction with value zero.
    pub fn zero() -> (r: Self)
        ensures
            r.wf(),
            r.num() == 0,
            r.den() == 1,
    {
        let r = Fraction { numerator: BigInt::zero(), denominator: BigInt::one() };
        proof {
            lemma_gcd_one_right(0);
        }
        r
    }

    /// The fraction with value one.
    pub fn one() -> (r: Self)
        ensures
            r.wf(),
            r.num() == 1,
            r.den() == 1,
    {
        let r = Fraction { numerator: BigInt::one(), denominator: BigInt::one() };
        proof {
            lemma_gcd_one_right(1);
        }
        r
    }

    /// A whole number as a fraction.
    pub fn from_int(value: BigInt) -> (r: Self)
        requires
            value.wf(),
        ensures
            r.wf(),
            r.num() == value@,
            r.den() == 1,
    {
        proof {
            lemma_gcd_one_right(abs_val(value@));
        }
        Fraction { numerator: value, denominator: BigInt::one() }
    }

    /// True exactly when the value is zero.
    pub fn is_zero(&self) -> (r: bool)
        requires
            self.wf(),
        ensures
            r == (self.num() == 0),
    {
        self.numerator.is_zero()
    }

    /// True exactly when the value is one.
    pub fn is_one(&self) -> (r: bool)
        requires
            self.wf(),
        ensures
            r == (self.num() == 1 && self.den() == 1),
    {
        let one = BigInt::one();
        self.numerator.cmp(&one) == 0 && self.denominator.cmp(&one) == 0
    }

    /// Arithmetic negation.
    pub fn neg(&self) -> (r: Self)
        requires
            self.wf(),
        ensures
            r.wf(),
            r.num() == -self.num(),
            r.den() == self.den(),
    {
        let r = Fraction { numerator: self.numerator.neg(), denominator: self.denominator.clone() };
        proof {
            assert(abs_val(r.num()) == abs_val(self.num()));
        }
        r
    }

    /// Absolute value.
    pub fn abs(&self) -> (r: Self)
        requires
            self.wf(),
        ensures
            r.wf(),
            r.num() == abs_val(self.num()),
            r.den() == self.den(),
    {
        let r = Fraction { numerator: self.numerator.abs(), denominator: self.denominator.clone() };
        proof {
            assert(abs_val(r.num()) == abs_val(self.num()));
        }
        r
    }

    /// Addition: the exact sum, reduced.
    pub fn add(&self, other: &Self) -> (r: Self)
        requires
            self.wf(),
            other.wf(),
        ensures
            r.wf(),
            frac_eqv(
                r.num(),
                r.den(),
                self.num() * other.den() + other.num() * self.den(),
                self.den() * other.den(),
            ),
    {
        let num = self.numerator.mul(&other.denominator).add(
            &other.numerator.mul(&self.denominator),
        );
        let den = self.denominator.mul(&other.denominator);
        proof {
            assert(den@ > 0) by (nonlinear_arith)
                requires
                    den@ == self.den() * other.den(),
                    self.den() > 0,
                    other.den() > 0,
            ;
        }
        Self::reduce_new(num, den)
    }

    /// Subtraction: the exact difference, reduced.
    pub fn sub(&self, other: &Self) -> (r: Self)
        requires
            self.wf(),
            other.wf(),
        ensures
            r.wf(),
            frac_eqv(
                r.num(),
                r.den(),
                self.num() * other.den() - other.num() * self.den(),
                self.den() * other.den(),
            ),
    {
        let num = self.numerator.mul(&other.denominator).sub(
            &other.numerator.mul(&self.denominator),
        );
        let den = self.denominator.mul(&other.denominator);
        proof {
            assert(den@ > 0) by (nonlinear_arith)
                requires
                    den@ == self.den() * other.den(),
                    self.den() > 0,
                    other.den() > 0,
            ;
        }
        Self::reduce_new(num, den)
    }

    /// Multiplication: the exact product, reduced.
    pub fn mul(&self, other: &Self) -> (r: Self)
        requires
            self.wf(),
            other.wf(),
        ensures
            r.wf(),
            frac_eqv(r.num(), r.den(), self.num() * other.num(), self.den() * other.den()),
    {
        let num = self.numerator.mul(&other.numerator);
        let den = self.denominator.mul(&other.denominator);
        proof {
            assert(den@ > 0) by (nonlinear_arith)
                requires
                    den@ == self.den() * other.den(),
                    self.den() > 0,
                    other.den() > 0,
            ;
        }
        Self::reduce_new(num, den)
    }

    /// Division: the exact quotient, reduced; `None` exactly on a zero
    /// divisor.
    pub fn checked_div(&self, other: &Self) -> (res: Option<Self>)
        requires
            self.wf(),
            other.wf(),
        ensures
            (res is None) <==> other.num() == 0,
            res matches Some(r) ==> r.wf() && frac_eqv(
                r.num(),
                r.den(),
                self.num() * other.den(),
                self.den() * other.num(),
            ),
    {
        if other.is_zero() {
            return None;
        }
        let num = self.numerator.mul(&other.denominator);
        let den = self.denominator.mul(&other.numerator);
        let ghost n0: int = num@;
        let ghost d0: int = den@;
        proof {
            assert(den@ != 0) by (nonlinear_arith)
                requires
                    den@ == self.den() * other.num(),
                    self.den() > 0,
                    other.num() != 0,
            ;
        }
        let (n, d) = normalize_components_sign(num, den);
        proof {
            assert(d@ > 0);
        }
        let f = Self::reduce_new(n, d);
        proof {
            if d0 < 0 {
                assert(frac_eqv(f.num(), f.den(), n0, d0)) by (nonlinear_arith)
                    requires
                        f.num() * (-d0) == (-n0) * f.den(),
                ;
            }
        }
        Some(f)
    }

    /// Strictly less than, by cross-multiplication.
    pub fn lt(&self, other: &Self) -> (r: bool)
        requires
            self.wf(),
            other.wf(),
        ensures
            r == (self.num() * other.den() < other.num() * self.den()),
    {
        let a = self.numerator.mul(&other.denominator);
        let b = other.numerator.mul(&self.denominator);
        a.lt(&b)
    }

    /// Less than or equal, by cross-multiplication.
    pub fn le(&self, other: &Self) -> (r: bool)
        requires
            self.wf(),
            other.wf(),
        ensures
            r == (self.num() * other.den() <= other.num() * self.den()),
    {
        let a = self.numerator.mul(&other.denominator);
        let b = other.numerator.mul(&self.denominator);
        a.le(&b)
    }

    /// Strictly greater than, by cross-multiplication.
    pub fn gt(&self, other: &Self) -> (r: bool)
        requires
            self.wf(),
            other.wf(),
        ensures
            r == (self.num() * other.den() > other.num() * self.den()),
    {
        let a = self.numerator.mul(&other.denominator);
        let b = other.numerator.mul(&self.denominator);
        a.gt(&b)
    }

    /// Greater than or equal, by cross-multiplication.
    pub fn ge(&self, other: &Self) -> (r: bool)
        requires
            self.wf(),
            other.wf(),
        ensures
            r == (self.num() * other.den() >= other.num() * self.den()),
    {
        let a = self.numerator.mul(&other.denominator);
        let b = other.numerator.mul(&self.denominator);
        a.ge(&b)
    }

    /// The largest whole number at most the value.
    pub fn floor(&self) -> (r: BigInt)
        requires
            self.wf(),
        ensures
            r.wf(),
            0 <= self.num() - r@ * self.den() < self.den(),
    {
        match self.numerator.checked_div_euclid(&self.denominator) {
            Some(q) => q,
            None => {
                proof {
                    assert(false);
                }
                BigInt::zero()
            },
        }
    }

    /// The smallest whole number at least the value.
    pub fn ceil(&self) -> (r: BigInt)
        requires
            self.wf(),
        ensures
            r.wf(),
            0 <= r@ * self.den() - self.num() < self.den(),
    {
        let neg_num = self.numerator.neg();
        match neg_num.checked_div_euclid(&self.denominator) {
            Some(q) => {
                proof {
                    assert((-q@) * self.den() == -(q@ * self.den())) by (nonlinear_arith);
                }
                q.neg()
            },
            None => {
                proof {
                    assert(false);
                }
                BigInt::zero()
            },
        }
    }

    /// The value rounded toward zero to a whole number.
    pub fn trunc(&self) -> (r: BigInt)
        requires
            self.wf(),
        ensures
            r.wf(),
            self.num() >= 0 ==> 0 <= self.num() - r@ * self.den() < self.den(),
            self.num() < 0 ==> 0 <= r@ * self.den() - self.num() < self.den(),
    {
        if !self.numerator.is_negative() {
            self.floor()
        } else {
            self.ceil()
        }
    }

    /// Euclidean quotient of two fractions, a whole number; `None` exactly
    /// on a zero divisor.
    pub fn checked_div_euclid(&self, other: &Self) -> (res: Option<BigInt>)
        requires
            self.wf(),
            other.wf(),
        ensures
            (res is None) <==> other.num() == 0,
            res matches Some(q) ==> q.wf() && ({
                let p = self.num() * other.den();
                let d = other.num() * self.den();
                0 <= p - q@ * d < abs_val(d)
            }),
    {
        if other.is_zero() {
            return None;
        }
        let p = self.numerator.mul(&other.denominator);
        let d = other.numerator.mul(&self.denominator);
        proof {
            assert(d@ != 0) by (nonlinear_arith)
                requires
                    d@ == other.num() * self.den(),
                    self.den() > 0,
                    other.num() != 0,
            ;
        }
        match p.checked_div_euclid(&d) {
            Some(q) => Some(q),
            None => {
                proof {
                    assert(false);
                }
                None
            },
        }
    }

    /// Euclidean remainder of two fractions; `None` exactly on a zero
    /// divisor.
    pub fn checked_rem_euclid(&self, other: &Self) -> (res: Option<Self>)
        requires
            self.wf(),
            other.wf(),
        ensures
            (res is None) <==> other.num() == 0,
            res matches Some(r) ==> r.wf() && ({
                let p = self.num() * other.den();
                let d = other.num() * self.den();
                frac_eqv(r.num(), r.den(), p % abs_val(d), self.den() * other.den())
            }),
    {
        if other.is_zero() {
            return None;
        }
        let p = self.numerator.mul(&other.denominator);
        let d = other.numerator.mul(&self.denominator);
        proof {
            assert(d@ != 0) by (nonlinear_arith)
                requires
                    d@ == other.num() * self.den(),
                    self.den() > 0,
                    other.num() != 0,
            ;
        }
        let rem = match p.checked_rem_euclid(&d) {
            Some(r) => r,
            None => {
                proof {
                    assert(false);
                }
                BigInt::zero()
            },
        };
        let den = self.denominator.mul(&other.denominator);
        proof {
            assert(den@ > 0) by (nonlinear_arith)
                requires
                    den@ == self.den() * other.den(),
                    self.den() > 0,
                    other.den() > 0,
            ;
        }
        Some(Self::reduce_new(rem, den))
    }

    /// Raises the value to an integer power.  A negative exponent inverts
    /// the fraction; `None` exactly when that inversion divides by zero.
    pub fn checked_pow(&self, exponent: &BigInt) -> (res: Option<Self>)
        requires
            self.wf(),
            exponent.wf(),
        ensures
            (res is None) <==> (exponent@ < 0 && self.num() == 0),
            exponent@ >= 0 ==> (res matches Some(r) ==> r.wf() && frac_eqv(
                r.num(),
                r.den(),
                pow(self.num(), exponent@ as nat),
                pow(self.den(), exponent@ as nat),
            )),
            exponent@ < 0 ==> (res matches Some(r) ==> r.wf() && frac_eqv(
                r.num(),
                r.den(),
                pow(self.den(), (-exponent@) as nat),
                pow(self.num(), (-exponent@) as nat),
            )),
    {
        if !exponent.is_negative() {
            let num = match self.numerator.checked_pow(exponent) {
                Some(x) => x,
                None => {
                    proof {
                        assert(false);
                    }
                    BigInt::zero()
                },
            };
            let den = match self.denominator.checked_pow(exponent) {
                Some(x) => x,
                None => {
                    proof {
                        assert(false);
                    }
                    BigInt::zero()
                },
            };
            proof {
                lemma_pow_pos(self.den(), exponent@ as nat);
            }
            return Some(Self::reduce_new(num, den));
        }
        if self.is_zero() {
            return None;
        }
        let neg_exp = exponent.neg();
        let num = match self.denominator.checked_pow(&neg_exp) {
            Some(x) => x,
            None => {
                proof {
                    assert(false);
                }
                BigInt::zero()
            },
        };
        let den = match self.numerator.checked_pow(&neg_exp) {
            Some(x) => x,
            None => {
                proof {
                    assert(false);
                }
                BigInt::zero()
            },
        };
        let ghost n0: int = num@;
        let ghost d0: int = den@;
        proof {
            lemma_pow_nonzero(self.num(), (-exponent@) as nat);
        }
        let (n, d) = normalize_components_sign(num, den);
        let f = Self::reduce_new(n, d);
        proof {
            if d0 < 0 {
                assert(frac_eqv(f.num(), f.den(), n0, d0)) by (nonlinear_arith)
                    requires
                        f.num() * (-d0) == (-n0) * f.den(),
                ;
            }
        }
        Some(f)
    }

    /// The exact value of `mantissa * 2^exponent`, as produced by
    /// decomposing a finite floating-point number.  `None` exactly when the
    /// shift exceeds the supported range.
    pub fn from_float_components(mantissa: i64, exponent: i64) -> (res: Option<Self>)
        ensures
            (res is None) <==> (exponent > crate::big_int::SHL_CAP
                || -exponent > crate::big_int::SHL_CAP),
            exponent >= 0 ==> (res matches Some(f) ==> f.wf() && frac_eqv(
                f.num(),
                f.den(),
                mantissa * pow(2, exponent as nat),
                1,
            )),
            exponent < 0 ==> (res matches Some(f) ==> f.wf() && frac_eqv(
                f.num(),
                f.den(),
                mantissa as int,
                pow(2, (-exponent) as nat),
            )),
    {
        if exponent == i64::MIN {
            return None;
        }
        let m = BigInt::from_i64(mantissa);
        if exponent >= 0 {
            let shift = BigInt::from_i64(exponent);
            let num = match m.checked_shl(&shift) {
                Ok(x) => x,
                Err(_) => {
                    return None;
                },
            };
            proof {
                vstd::arithmetic::power2::lemma_pow2(exponent as nat);
            }
            Some(Self::from_int(num))
        } else {
            let k: i64 = -exponent;
            let shift = BigInt::from_i64(k);
            let den = match BigInt::one().checked_shl(&shift) {
                Ok(x) => x,
                Err(_) => {
                    return None;
                },
            };
            proof {
                vstd::arithmetic::power2::lemma_pow2(k as nat);
                vstd::arithmetic::power2::lemma_pow2_pos(k as nat);
                assert(den@ == 1 * pow2(k as nat));
            }
            match Self::new(m, den) {
                Some(f) => Some(f),
                None => {
                    proof {
                        assert(false);
                    }
                    None
                },
            }
        }
    }
}

impl Fraction {
    /// Formats the value in decimal: the numerator alone for whole numbers,
    /// otherwise numerator and denominator separated by a slash.
    pub fn to_string(&self) -> (r: String)
        requires
            self.wf(),
        ensures
            self.den() == 1 ==> r@ == crate::codec::to_string_spec(self.num(), 10),
            self.den() != 1 ==> r@ == crate::codec::to_string_spec(self.num(), 10) + seq![
                (47u8) as char,
            ] + crate::codec::to_string_spec(self.den(), 10),
    {
        let num_text = self.numerator.to_string();
        let one = BigInt::one();
        if self.denominator.cmp(&one) == 0 {
            return num_text;
        }
        let mut out = num_text;
        let slash = "/";
        proof {
            reveal_strlit("/");
            assert(slash@ =~= seq![(47u8) as char]) by {
                assert(('/') as u32 == 47);
            }
        }
        out.append(slash);
        let den_text = self.denominator.to_string();
        out.append(den_text.as_str());
        out
    }
}

/// Lowest terms with a positive denominator is a unique representation:
/// two well-formed fractions of the same value have the same numerator and
/// the same denominator.
pub proof fn lemma_reduced_unique(f1: &Fraction, f2: &Fraction)
    requires
        f1.wf(),
        f2.wf(),
        frac_eqv(f1.num(), f1.den(), f2.num(), f2.den()),
    ensures
        f1.num() == f2.num(),
        f1.den() == f2.den(),
{
    let n1 = f1.num();
    let d1 = f1.den();
    let n2 = f2.num();
    let d2 = f2.den();
    // Magnitudes cross-multiply as well.
    assert(abs_val(n1) * d2 == abs_val(n2) * d1) by (nonlinear_arith)
        requires
            n1 * d2 == n2 * d1,
            d1 > 0,
            d2 > 0,
            abs_val(n1) == (if n1 >= 0 {
                n1
            } else {
                -n1
            }),
            abs_val(n2) == (if n2 >= 0 {
                n2
            } else {
                -n2
            }),
    ;
    // Each denominator divides the product of the other's numerator
    // magnitude and its own coprime partner, hence the other denominator.
    crate::utils::lemma_gcd_comm(abs_val(n1), d1);
    crate::utils::lemma_gcd_comm(abs_val(n2), d2);
    vstd::arithmetic::div_mod::lemma_mod_multiples_basic(abs_val(n2), d1);
    assert((abs_val(n1) * d2) % d1 == 0);
    crate::utils::lemma_coprime_divides(d1, abs_val(n1), d2);
    vstd::arithmetic::div_mod::lemma_mod_multiples_basic(abs_val(n1), d2);
    assert((abs_val(n2) * d1) % d2 == 0);
    crate::utils::lemma_coprime_divides(d2, abs_val(n2), d1);
    crate::utils::lemma_divisor_le(d2, d1);
    crate::utils::lemma_divisor_le(d1, d2);
    assert(d1 == d2);
    assert(n1 == n2) by (nonlinear_arith)
        requires
            n1 * d2 == n2 * d1,
            d1 == d2,
            d1 > 0,
    ;
}

/// Any number is coprime with one.
proof fn lemma_gcd_one_right(a: int)
    requires
        a >= 0,
    ensures
        gcd_int(a, 1) == 1,
{
    vstd::arithmetic::div_mod::lemma_mod_self_0(1);
    vstd::arithmetic::div_mod::lemma_fundamental_div_mod(a, 1);
    assert(a % 1 == 0) by (nonlinear_arith)
        requires
            a == 1 * (a / 1) + a % 1,
            0 <= a % 1 < 1,
    ;
    assert(gcd_int(a, 1) == gcd_int(1, a % 1));
}

/// A power of a positive base is positive.
proof fn lemma_pow_pos(b: int, e: nat)
    requires
        b > 0,
    ensures
        pow(b, e) > 0,
{
    vstd::arithmetic::power::lemma_pow_positive(b, e);
}

/// A power of a non-zero base is non-zero.
proof fn lemma_pow_nonzero(b: int, e: nat)
    requires
        b != 0,
    ensures
        pow(b, e) != 0,
    decreases e,
{
    if e == 0 {
        vstd::arithmetic::power::lemma_pow0(b);
    } else {
        lemma_pow_nonzero(b, (e - 1) as nat);
        crate::utils::lemma_pow_succ(b, (e - 1) as nat);
        assert(b * pow(b, (e - 1) as nat) != 0) by (nonlinear_arith)
            requires
                b != 0,
                pow(b, (e - 1) as nat) != 0,
        ;
    }
}

impl PartialEq for Fraction {
    /// Representation equality: equal numerators and denominators.
    fn eq(&self, other: &Self) -> (r: bool) {
        self.numerator == other.numerator && self.denominator == other.denominator
    }
}

impl vstd::std_specs::cmp::PartialEqSpecImpl for Fraction {
    open spec fn obeys_eq_spec() -> bool {
        true
    }

    open spec fn eq_spec(&self, other: &Fraction) -> bool {
        &&& self.numerator.sign == other.numerator.sign
        &&& self.numerator.digits@ == other.numerator.digits@
        &&& self.denominator.sign == other.denominator.sign
        &&& self.denominator.digits@ == other.denominator.digits@
    }
}

impl Eq for Fraction {

}

} // verus!
