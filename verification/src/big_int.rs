//! The arbitrary-precision integer value type.
//!
//! A [`BigInt`] is a sign (-1, 0 or 1) and a canonical little-endian digit
//! magnitude (see [`crate::digits`]).  Its mathematical value, written `x@`,
//! is the signed integer `sign * magnitude`.  Every operation states its
//! result as an equation over these values and preserves well-formedness.

#![verifier::loop_isolation(false)]

use vstd::prelude::*;

use crate::digits::{
    add_mag, canonical, cmp_mag, div_rem_mag, lemma_canonical_unique, lemma_mag_val_bound,
    lemma_mag_val_nonneg, lemma_mag_val_skip_unfold, lemma_p256_increases, mag_val, mul_mag,
    p256, single, sub_mag, trim,
};
use crate::utils::{gcd_int, lemma_pow_succ};
use vstd::arithmetic::div_mod::{
    lemma_mod_self_0, lemma_mul_mod_noop, lemma_mul_mod_noop_left, lemma_small_mod,
};
use vstd::arithmetic::power::{lemma_pow0, lemma_pow1, lemma_pow_adds, pow};
use vstd::arithmetic::power2::{lemma2_to64, lemma2_to64_rest, lemma_pow2, pow2};

verus! {

/// Absolute value of a mathematical integer.
pub open spec fn abs_val(x: int) -> int {
    if x >= 0 {
        x
    } else {
        -x
    }
}

/// Sign of a mathematical integer: -1, 0 or 1.
pub open spec fn sgn(x: int) -> int {
    if x > 0 {
        1
    } else if x < 0 {
        -1
    } else {
        0
    }
}

/// An arbitrary-precision integer in sign-magnitude form.
pub struct BigInt {
    /// -1, 0 or 1; 0 exactly when the magnitude is zero.
    pub sign: i32,
    /// Canonical little-endian base-256 magnitude.
    pub digits: Vec<u8>,
}

impl View for BigInt {
    type V = int;

    open spec fn view(&self) -> int {
        self.sign * mag_val(self.digits@)
    }
}

impl BigInt {
    /// The representation invariant: the magnitude is canonical and the sign
    /// is zero exactly when the value is.
    pub open spec fn wf(&self) -> bool {
        &&& canonical(self.digits@)
        &&& (self.sign == -1 || self.sign == 0 || self.sign == 1)
        &&& (self.sign == 0 <==> mag_val(self.digits@) == 0)
    }

    /// The magnitude of the value equals the value of the digit sequence.
    pub proof fn lemma_abs_view(&self)
        requires
            self.wf(),
        ensures
            abs_val(self@) == mag_val(self.digits@),
            sgn(self@) == self.sign,
    {
        lemma_mag_val_nonneg(self.digits@);
    }

    /// Well-formed values with the same mathematical value have the same
    /// representation.
    pub proof fn lemma_value_determines_repr(a: &BigInt, b: &BigInt)
        requires
            a.wf(),
            b.wf(),
            a@ == b@,
        ensures
            a.sign == b.sign,
            a.digits@ == b.digits@,
    {
        a.lemma_abs_view();
        b.lemma_abs_view();
        lemma_canonical_unique(a.digits@, b.digits@);
    }
}

/// Copies a digit vector.
pub(crate) fn copy_digits(v: &Vec<u8>) -> (r: Vec<u8>)
    ensures
        r@ == v@,
{
    let n = v.len();
    let mut r: Vec<u8> = Vec::new();
    let mut i: usize = 0;
    while i < n
        invariant
            i <= n,
            r@ =~= v@.take(i as int),
        decreases n - i,
    {
        r.push(v[i]);
        i = i + 1;
    }
    proof {
        assert(v@.take(n as int) =~= v@);
    }
    r
}

/// True exactly when a canonical magnitude is zero.
pub(crate) fn mag_is_zero(v: &Vec<u8>) -> (r: bool)
    requires
        canonical(v@),
    ensures
        r == (mag_val(v@) == 0),
{
    let r = v.len() == 1 && v[0] == 0;
    proof {
        if v@.len() == 1 {
            assert(v@.skip(1) =~= Seq::<u8>::empty());
            assert(mag_val(v@.skip(1)) == 0);
            assert(mag_val(v@) == v@[0]);
        } else {
            crate::digits::lemma_canonical_lower(v@);
            lemma_p256_increases(1, (v@.len() - 1) as nat);
            assert(p256(1) == 256 * p256(0));
            assert(mag_val(v@) >= 256);
        }
    }
    r
}

impl Clone for BigInt {
    /// Clones preserve the representation, hence the value.
    fn clone(&self) -> (r: Self)
        ensures
            r.sign == self.sign,
            r.digits@ == self.digits@,
            r@ == self@,
            self.wf() ==> r.wf(),
    {
        BigInt { sign: self.sign, digits: copy_digits(&self.digits) }
    }
}

impl BigInt {
    /// The integer zero.
    pub fn zero() -> (r: Self)
        ensures
            r.wf(),
            r@ == 0,
    {
        let r = BigInt { sign: 0, digits: single(0) };
        proof {
            assert(r@ == 0 * mag_val(r.digits@));
        }
        r
    }

    /// The integer one.
    pub fn one() -> (r: Self)
        ensures
            r.wf(),
            r@ == 1,
    {
        let r = BigInt { sign: 1, digits: single(1) };
        proof {
            assert(r@ == 1 * mag_val(r.digits@));
        }
        r
    }

    /// Builds the integer with a given sign and magnitude, normalising the
    /// sign of zero.
    pub(crate) fn from_sign_mag(sign: i32, mag: Vec<u8>) -> (r: Self)
        requires
            canonical(mag@),
            sign == -1 || sign == 0 || sign == 1,
            sign == 0 ==> mag_val(mag@) == 0,
        ensures
            r.wf(),
            r@ == sign * mag_val(mag@),
    {
        if mag_is_zero(&mag) {
            let r = BigInt { sign: 0, digits: mag };
            proof {
                assert(0 * mag_val(r.digits@) == 0);
                assert(sign * mag_val(r.digits@) == 0) by (nonlinear_arith)
                    requires
                        mag_val(r.digits@) == 0,
                ;
            }
            r
        } else {
            BigInt { sign, digits: mag }
        }
    }

    /// Conversion from a machine unsigned word.
    pub fn from_u64(v: u64) -> (r: Self)
        ensures
            r.wf(),
            r@ == v,
    {
        let mut digits: Vec<u8> = Vec::new();
        let mut x: u64 = v;
        while x > 0
            invariant
                mag_val(digits@) + x * p256(digits@.len()) == v,
            decreases x,
        {
            let d: u8 = (x % 256) as u8;
            proof {
                crate::digits::lemma_mag_val_snoc(digits@, d);
                assert(mag_val(digits@.push(d)) + (x / 256) * p256((digits@.len() + 1) as nat)
                    == mag_val(digits@) + x * p256(digits@.len())) by (nonlinear_arith)
                    requires
                        mag_val(digits@.push(d)) == mag_val(digits@) + d * p256(digits@.len()),
                        p256((digits@.len() + 1) as nat) == 256 * p256(digits@.len()),
                        x == d + 256 * (x / 256),
                ;
            }
            digits.push(d);
            x = x / 256;
        }
        proof {
            assert(x * p256(digits@.len()) == 0) by (nonlinear_arith)
                requires
                    x == 0,
            ;
        }
        trim(&mut digits);
        let ghost gm: int = mag_val(digits@);
        let r = Self::from_sign_mag(if v > 0 { 1 } else { 0 }, digits);
        proof {
            if v > 0 {
                assert(r@ == 1 * gm);
            } else {
                assert(r@ == 0 * gm);
            }
        }
        r
    }

    /// Conversion from a machine signed word.
    pub fn from_i64(v: i64) -> (r: Self)
        ensures
            r.wf(),
            r@ == v,
    {
        if v >= 0 {
            Self::from_u64(v as u64)
        } else {
            let mag: u64 = if v == i64::MIN {
                0x8000_0000_0000_0000u64
            } else {
                (-v) as u64
            };
            let m = Self::from_u64(mag);
            m.neg()
        }
    }

    /// Checks the representation invariant at run time.
    pub fn wf_exec(&self) -> (r: bool)
        ensures
            r == self.wf(),
    {
        let n = self.digits.len();
        if n == 0 {
            return false;
        }
        if n > 1 && self.digits[n - 1] == 0 {
            return false;
        }
        let mz = mag_is_zero(&self.digits);
        let sign_ok = self.sign == -1 || self.sign == 0 || self.sign == 1;
        sign_ok && ((self.sign == 0) == mz)
    }

    /// True exactly when the value is zero.
    pub fn is_zero(&self) -> (r: bool)
        requires
            self.wf(),
        ensures
            r == (self@ == 0),
    {
        proof {
            self.lemma_abs_view();
        }
        self.sign == 0
    }

    /// True exactly when the value is strictly negative.
    pub fn is_negative(&self) -> (r: bool)
        requires
            self.wf(),
        ensures
            r == (self@ < 0),
    {
        proof {
            self.lemma_abs_view();
        }
        self.sign == -1
    }

    /// True exactly when the value is strictly positive.
    pub fn is_positive(&self) -> (r: bool)
        requires
            self.wf(),
        ensures
            r == (self@ > 0),
    {
        proof {
            self.lemma_abs_view();
        }
        self.sign == 1
    }

    /// Arithmetic negation.
    pub fn neg(&self) -> (r: Self)
        requires
            self.wf(),
        ensures
            r.wf(),
            r@ == -self@,
    {
        let r = BigInt { sign: -self.sign, digits: copy_digits(&self.digits) };
        proof {
            assert((-self.sign) * mag_val(self.digits@) == -(self.sign * mag_val(self.digits@)))
                by (nonlinear_arith);
        }
        r
    }

    /// Absolute value.
    pub fn abs(&self) -> (r: Self)
        requires
            self.wf(),
        ensures
            r.wf(),
            r@ == abs_val(self@),
    {
        proof {
            self.lemma_abs_view();
        }
        let s: i32 = if self.sign == 0 {
            0
        } else {
            1
        };
        let r = BigInt { sign: s, digits: copy_digits(&self.digits) };
        proof {
            if s == 1 {
                assert(r@ == 1 * mag_val(self.digits@));
            } else {
                assert(r@ == 0 * mag_val(self.digits@));
            }
        }
        r
    }

    /// Addition.
    pub fn add(&self, other: &Self) -> (r: Self)
        requires
            self.wf(),
            other.wf(),
        ensures
            r.wf(),
            r@ == self@ + other@,
    {
        proof {
            self.lemma_abs_view();
            other.lemma_abs_view();
        }
        if self.sign == 0 {
            return other.clone();
        }
        if other.sign == 0 {
            return self.clone();
        }
        if self.sign == other.sign {
            let mag = add_mag(&self.digits, &other.digits);
            let ghost gm: int = mag_val(mag@);
            proof {
                lemma_mag_val_nonneg(self.digits@);
                lemma_mag_val_nonneg(other.digits@);
                if self.sign == 1 {
                    assert(self@ + other@ == mag_val(mag@));
                } else {
                    assert(self.sign == -1);
                    assert(self@ + other@ == -mag_val(mag@));
                }
            }
            let r = Self::from_sign_mag(self.sign, mag);
            proof {
                if self.sign == 1 {
                    assert(r@ == 1 * gm);
                } else {
                    assert(r@ == -1 * gm);
                }
            }
            return r;
        }
        // Opposite signs: subtract the smaller magnitude from the larger.
        let c = cmp_mag(&self.digits, &other.digits);
        if c == 0 {
            proof {
                if self.sign == 1 {
                    assert(self@ + other@ == 0);
                } else {
                    assert(self.sign == -1);
                    assert(self@ + other@ == 0);
                }
            }
            return Self::zero();
        }
        if c > 0 {
            let mag = sub_mag(&self.digits, &other.digits);
            let ghost gm: int = mag_val(mag@);
            proof {
                if self.sign == 1 {
                    assert(self@ + other@ == mag_val(mag@));
                } else {
                    assert(self.sign == -1);
                    assert(self@ + other@ == -mag_val(mag@));
                }
            }
            let r = Self::from_sign_mag(self.sign, mag);
            proof {
                if self.sign == 1 {
                    assert(r@ == 1 * gm);
                } else {
                    assert(r@ == -1 * gm);
                }
            }
            r
        } else {
            let mag = sub_mag(&other.digits, &self.digits);
            let ghost gm: int = mag_val(mag@);
            proof {
                if other.sign == 1 {
                    assert(self@ + other@ == mag_val(mag@));
                } else {
                    assert(other.sign == -1);
                    assert(self@ + other@ == -mag_val(mag@));
                }
            }
            let r = Self::from_sign_mag(other.sign, mag);
            proof {
                if other.sign == 1 {
                    assert(r@ == 1 * gm);
                } else {
                    assert(r@ == -1 * gm);
                }
            }
            r
        }
    }

    /// Subtraction.
    pub fn sub(&self, other: &Self) -> (r: Self)
        requires
            self.wf(),
            other.wf(),
        ensures
            r.wf(),
            r@ == self@ - other@,
    {
        self.add(&other.neg())
    }

    /// Multiplication.
    pub fn mul(&self, other: &Self) -> (r: Self)
        requires
            self.wf(),
            other.wf(),
        ensures
            r.wf(),
            r@ == self@ * other@,
    {
        proof {
            self.lemma_abs_view();
            other.lemma_abs_view();
        }
        if self.sign == 0 || other.sign == 0 {
            proof {
                assert(self@ * other@ == 0) by (nonlinear_arith)
                    requires
                        self@ == 0 || other@ == 0,
                ;
            }
            return Self::zero();
        }
        let s: i32 = if self.sign == other.sign {
            1
        } else {
            -1
        };
        let mag = mul_mag(&self.digits, &other.digits);
        proof {
            assert(mag_val(mag@) > 0) by (nonlinear_arith)
                requires
                    mag_val(mag@) == mag_val(self.digits@) * mag_val(other.digits@),
                    mag_val(self.digits@) > 0,
                    mag_val(other.digits@) > 0,
            ;
            assert((self.sign * mag_val(self.digits@)) * (other.sign * mag_val(other.digits@))
                == (self.sign * other.sign) * (mag_val(self.digits@) * mag_val(other.digits@)))
                by (nonlinear_arith);
            if self.sign == other.sign {
                assert(self.sign * other.sign == 1) by (nonlinear_arith)
                    requires
                        self.sign == other.sign,
                        self.sign == 1 || self.sign == -1,
                ;
            } else {
                assert(self.sign * other.sign == -1) by (nonlinear_arith)
                    requires
                        self.sign != other.sign,
                        self.sign == 1 || self.sign == -1,
                        other.sign == 1 || other.sign == -1,
                ;
            }
        }
        let r = BigInt { sign: s, digits: mag };
        r
    }

    /// Three-way comparison of values: -1, 0 or 1.
    pub fn cmp(&self, other: &Self) -> (r: i8)
        requires
            self.wf(),
            other.wf(),
        ensures
            r == -1 || r == 0 || r == 1,
            (r == -1) <==> self@ < other@,
            (r == 0) <==> self@ == other@,
            (r == 1) <==> self@ > other@,
    {
        proof {
            self.lemma_abs_view();
            other.lemma_abs_view();
        }
        if self.sign < other.sign {
            return -1;
        }
        if self.sign > other.sign {
            return 1;
        }
        if self.sign == 0 {
            return 0;
        }
        let c = cmp_mag(&self.digits, &other.digits);
        if self.sign == 1 {
            c
        } else {
            proof {
                assert(self.sign == -1);
            }
            -c
        }
    }

    /// Strictly less than.
    pub fn lt(&self, other: &Self) -> (r: bool)
        requires
            self.wf(),
            other.wf(),
        ensures
            r == (self@ < other@),
    {
        self.cmp(other) == -1
    }

    /// Less than or equal.
    pub fn le(&self, other: &Self) -> (r: bool)
        requires
            self.wf(),
            other.wf(),
        ensures
            r == (self@ <= other@),
    {
        self.cmp(other) != 1
    }

    /// Strictly greater than.
    pub fn gt(&self, other: &Self) -> (r: bool)
        requires
            self.wf(),
            other.wf(),
        ensures
            r == (self@ > other@),
    {
        self.cmp(other) == 1
    }

    /// Greater than or equal.
    pub fn ge(&self, other: &Self) -> (r: bool)
        requires
            self.wf(),
            other.wf(),
        ensures
            r == (self@ >= other@),
    {
        self.cmp(other) != -1
    }
}

/// Every integer is its sign times its absolute value.
pub proof fn lemma_sgn_abs(x: int)
    ensures
        x == sgn(x) * abs_val(x),
{
    if x > 0 {
        assert(x == sgn(x) * abs_val(x)) by (nonlinear_arith)
            requires
                sgn(x) == 1,
                abs_val(x) == x,
        ;
    } else if x < 0 {
        assert(x == sgn(x) * abs_val(x)) by (nonlinear_arith)
            requires
                sgn(x) == -1,
                abs_val(x) == -x,
        ;
    } else {
        assert(x == sgn(x) * abs_val(x)) by (nonlinear_arith)
            requires
                x == 0,
                sgn(x) == 0,
        ;
    }
}

impl BigInt {
    /// Truncating division with remainder: `None` exactly on a zero divisor;
    /// otherwise `self == q * divisor + r` with `|r| < |divisor|` and the
    /// remainder zero or of the dividend's sign (quotient rounds toward
    /// zero).
    pub fn checked_div_rem(&self, divisor: &Self) -> (res: Option<(Self, Self)>)
        requires
            self.wf(),
            divisor.wf(),
        ensures
            (divisor@ == 0) <==> (res is None),
            res matches Some(p) ==> {
                &&& p.0.wf()
                &&& p.1.wf()
                &&& self@ == p.0@ * divisor@ + p.1@
                &&& abs_val(p.1@) < abs_val(divisor@)
                &&& (p.1@ == 0 || sgn(p.1@) == sgn(self@))
            },
    {
        proof {
            self.lemma_abs_view();
            divisor.lemma_abs_view();
        }
        if divisor.is_zero() {
            return None;
        }
        let (qm, rm) = div_rem_mag(&self.digits, &divisor.digits);
        let ghost qmag: int = mag_val(qm@);
        let ghost rmag: int = mag_val(rm@);
        let ghost amag: int = abs_val(self@);
        let ghost dmag: int = abs_val(divisor@);
        let ghost sa: int = self.sign as int;
        let ghost sd: int = divisor.sign as int;
        let qs: i32 = self.sign * divisor.sign;
        proof {
            lemma_mag_val_nonneg(qm@);
            if self.sign == 0 {
                assert(qmag == 0 && rmag == 0) by (nonlinear_arith)
                    requires
                        0 == qmag * dmag + rmag,
                        qmag >= 0,
                        rmag >= 0,
                        dmag > 0,
                ;
            }
        }
        let q = Self::from_sign_mag(qs, qm);
        let r = Self::from_sign_mag(self.sign, rm);
        proof {
            lemma_sgn_abs(self@);
            lemma_sgn_abs(divisor@);
            assert(self@ == q@ * divisor@ + r@) by (nonlinear_arith)
                requires
                    amag == qmag * dmag + rmag,
                    self@ == sa * amag,
                    divisor@ == sd * dmag,
                    q@ == (sa * sd) * qmag,
                    r@ == sa * rmag,
                    sd == 1 || sd == -1,
                    sa == 1 || sa == -1 || sa == 0,
            ;
            assert(abs_val(r@) < abs_val(divisor@)) by (nonlinear_arith)
                requires
                    r@ == sa * rmag,
                    0 <= rmag < dmag,
                    abs_val(r@) == if r@ >= 0 { r@ } else { -r@ },
                    abs_val(divisor@) == dmag,
                    sa == 1 || sa == -1 || sa == 0,
            ;
            assert(r@ == 0 || sgn(r@) == sgn(self@)) by (nonlinear_arith)
                requires
                    r@ == sa * rmag,
                    rmag >= 0,
                    sgn(r@) == (if r@ > 0 { 1int } else if r@ < 0 { -1int } else { 0int }),
                    sgn(self@) == sa,
                    sa == 1 || sa == -1 || sa == 0,
            ;
        }
        Some((q, r))
    }

    /// Euclidean division with remainder: `None` exactly on a zero divisor;
    /// otherwise `self == q * divisor + r` with `0 <= r < |divisor|`.
    pub fn checked_div_rem_euclid(&self, divisor: &Self) -> (res: Option<(Self, Self)>)
        requires
            self.wf(),
            divisor.wf(),
        ensures
            (divisor@ == 0) <==> (res is None),
            res matches Some(p) ==> {
                &&& p.0.wf()
                &&& p.1.wf()
                &&& self@ == p.0@ * divisor@ + p.1@
                &&& 0 <= p.1@ < abs_val(divisor@)
            },
    {
        proof {
            self.lemma_abs_view();
            divisor.lemma_abs_view();
        }
        if divisor.is_zero() {
            return None;
        }
        let (qm, rm) = div_rem_mag(&self.digits, &divisor.digits);
        let ghost qmag: int = mag_val(qm@);
        let ghost rmag: int = mag_val(rm@);
        let ghost amag: int = abs_val(self@);
        let ghost dmag: int = abs_val(divisor@);
        let ghost sa: int = self.sign as int;
        let ghost sd: int = divisor.sign as int;
        proof {
            lemma_sgn_abs(self@);
            lemma_sgn_abs(divisor@);
        }
        if self.sign >= 0 || mag_is_zero(&rm) {
            let qs: i32 = self.sign * divisor.sign;
            proof {
                lemma_mag_val_nonneg(qm@);
                if self.sign == 0 {
                    assert(qmag == 0 && rmag == 0) by (nonlinear_arith)
                        requires
                            0 == qmag * dmag + rmag,
                            qmag >= 0,
                            rmag >= 0,
                            dmag > 0,
                    ;
                }
            }
            let q = Self::from_sign_mag(qs, qm);
            let r = Self::from_sign_mag(if self.sign >= 0 { 1 } else { 0 }, rm);
            proof {
                if self.sign >= 0 {
                    assert(r@ == 1 * rmag);
                } else {
                    assert(rmag == 0);
                    assert(r@ == 0 * rmag);
                }
                assert(self@ == q@ * divisor@ + r@) by (nonlinear_arith)
                    requires
                        amag == qmag * dmag + rmag,
                        self@ == sa * amag,
                        divisor@ == sd * dmag,
                        q@ == (sa * sd) * qmag,
                        r@ == rmag,
                        sd == 1 || sd == -1,
                        sa == 1 || sa == -1 || sa == 0,
                        sa >= 0 || rmag == 0,
                        sa == 0 ==> qmag == 0 && rmag == 0,
                ;
            }
            return Some((q, r));
        }
        // Negative dividend with a non-zero remainder: push the remainder up
        // into [0, |divisor|) and move the quotient one step away from zero.
        let one_mag = single(1);
        let qm2 = add_mag(&qm, &one_mag);
        let rm2 = sub_mag(&divisor.digits, &rm);
        let ghost q2: int = mag_val(qm2@);
        let ghost r2: int = mag_val(rm2@);
        let negsd: i32 = -divisor.sign;
        let q = Self::from_sign_mag(negsd, qm2);
        let r = Self::from_sign_mag(1, rm2);
        proof {
            assert(q2 == qmag + 1);
            assert(r2 == dmag - rmag);
            assert(q@ * divisor@ == -((qmag + 1) * dmag)) by (nonlinear_arith)
                requires
                    q@ == (-sd) * (qmag + 1),
                    divisor@ == sd * dmag,
                    sd == 1 || sd == -1,
            ;
            assert((qmag + 1) * dmag == qmag * dmag + dmag) by (nonlinear_arith);
            assert(self@ == -amag);
            assert(self@ == q@ * divisor@ + r@);
        }
        Some((q, r))
    }

    /// Euclidean remainder alone: `None` exactly on a zero divisor.
    pub fn checked_rem_euclid(&self, divisor: &Self) -> (res: Option<Self>)
        requires
            self.wf(),
            divisor.wf(),
        ensures
            (divisor@ == 0) <==> (res is None),
            res matches Some(r) ==> {
                &&& r.wf()
                &&& 0 <= r@ < abs_val(divisor@)
                &&& self@ % abs_val(divisor@) == r@
            },
    {
        match self.checked_div_rem_euclid(divisor) {
            Some((q, r)) => {
                proof {
                    lemma_sgn_abs(divisor@);
                    assert(self@ == (q@ * sgn(divisor@)) * abs_val(divisor@) + r@)
                        by (nonlinear_arith)
                        requires
                            self@ == q@ * divisor@ + r@,
                            divisor@ == sgn(divisor@) * abs_val(divisor@),
                    ;
                    vstd::arithmetic::div_mod::lemma_fundamental_div_mod_converse(
                        self@,
                        abs_val(divisor@),
                        q@ * sgn(divisor@),
                        r@,
                    );
                }
                Some(r)
            },
            None => None,
        }
    }

    /// Truncating quotient alone: `None` exactly on a zero divisor.
    pub fn checked_div(&self, divisor: &Self) -> (res: Option<Self>)
        requires
            self.wf(),
            divisor.wf(),
        ensures
            (divisor@ == 0) <==> (res is None),
            res matches Some(q) ==> {
                &&& q.wf()
                &&& abs_val(self@ - q@ * divisor@) < abs_val(divisor@)
                &&& (self@ - q@ * divisor@ == 0 || sgn(self@ - q@ * divisor@) == sgn(self@))
            },
    {
        match self.checked_div_rem(divisor) {
            Some((q, r)) => {
                proof {
                    assert(self@ == q@ * divisor@ + r@ && abs_val(r@) < abs_val(divisor@) && (r@
                        == 0 || sgn(r@) == sgn(self@)));
                }
                Some(q)
            },
            None => None,
        }
    }

    /// Euclidean quotient alone: `None` exactly on a zero divisor.
    pub fn checked_div_euclid(&self, divisor: &Self) -> (res: Option<Self>)
        requires
            self.wf(),
            divisor.wf(),
        ensures
            (divisor@ == 0) <==> (res is None),
            res matches Some(q) ==> {
                &&& q.wf()
                &&& 0 <= self@ - q@ * divisor@ < abs_val(divisor@)
            },
    {
        match self.checked_div_rem_euclid(divisor) {
            Some((q, r)) => {
                proof {
                    assert(self@ == q@ * divisor@ + r@ && 0 <= r@ < abs_val(divisor@));
                }
                Some(q)
            },
            None => None,
        }
    }

    /// Truncating division for callers that have already excluded a zero
    /// divisor.
    pub fn div_rem(&self, divisor: &Self) -> (res: (Self, Self))
        requires
            self.wf(),
            divisor.wf(),
            divisor@ != 0,
        ensures
            res.0.wf(),
            res.1.wf(),
            self@ == res.0@ * divisor@ + res.1@,
            abs_val(res.1@) < abs_val(divisor@),
            res.1@ == 0 || sgn(res.1@) == sgn(self@),
    {
        match self.checked_div_rem(divisor) {
            Some(p) => p,
            None => {
                proof {
                    assert(false);
                }
                (Self::zero(), Self::zero())
            },
        }
    }
}

impl BigInt {
    /// Greatest common divisor of the magnitudes; `gcd(a, 0) == |a|` and
    /// `gcd(0, 0) == 0`.
    pub fn gcd(&self, other: &Self) -> (r: Self)
        requires
            self.wf(),
            other.wf(),
        ensures
            r.wf(),
            r@ == gcd_int(abs_val(self@), abs_val(other@)),
    {
        proof {
            self.lemma_abs_view();
            other.lemma_abs_view();
        }
        let mut a = copy_digits(&self.digits);
        let mut b = copy_digits(&other.digits);
        let mut b_zero = mag_is_zero(&b);
        while !b_zero
            invariant
                canonical(a@),
                canonical(b@),
                b_zero == (mag_val(b@) == 0),
                gcd_int(mag_val(a@), mag_val(b@)) == gcd_int(abs_val(self@), abs_val(other@)),
            decreases mag_val(b@),
        {
            proof {
                lemma_mag_val_nonneg(a@);
                lemma_mag_val_nonneg(b@);
            }
            let (q, rem) = div_rem_mag(&a, &b);
            proof {
                vstd::arithmetic::div_mod::lemma_fundamental_div_mod_converse(
                    mag_val(a@),
                    mag_val(b@),
                    mag_val(q@),
                    mag_val(rem@),
                );
                assert(gcd_int(mag_val(a@), mag_val(b@))
                    == gcd_int(mag_val(b@), mag_val(a@) % mag_val(b@)));
            }
            a = b;
            b = rem;
            b_zero = mag_is_zero(&b);
        }
        proof {
            lemma_mag_val_nonneg(a@);
            assert(gcd_int(mag_val(a@), 0) == mag_val(a@));
        }
        let a_zero = mag_is_zero(&a);
        let ghost ga: int = mag_val(a@);
        let r = Self::from_sign_mag(
            if a_zero {
                0
            } else {
                1
            },
            a,
        );
        proof {
            if a_zero {
                assert(r@ == 0 * ga);
            } else {
                assert(r@ == 1 * ga);
            }
        }
        r
    }

    /// Raises the value to a non-negative power; `None` exactly on a
    /// negative exponent.
    pub fn checked_pow(&self, exponent: &Self) -> (res: Option<Self>)
        requires
            self.wf(),
            exponent.wf(),
        ensures
            (exponent@ < 0) <==> (res is None),
            res matches Some(r) ==> {
                &&& r.wf()
                &&& r@ == pow(self@, exponent@ as nat)
            },
    {
        proof {
            self.lemma_abs_view();
            exponent.lemma_abs_view();
        }
        if exponent.is_negative() {
            return None;
        }
        let mut result = Self::one();
        let mut i: usize = exponent.digits.len();
        let ghost mut e: int = 0;
        proof {
            assert(exponent.digits@.skip(i as int) =~= Seq::<u8>::empty());
            lemma_pow0(self@);
        }
        while i > 0
            invariant
                i <= exponent.digits@.len(),
                self.wf(),
                exponent.wf(),
                result.wf(),
                e == mag_val(exponent.digits@.skip(i as int)),
                e >= 0,
                result@ == pow(self@, e as nat),
            decreases i,
        {
            i = i - 1;
            let d: u8 = exponent.digits[i];
            proof {
                lemma_mag_val_skip_unfold(exponent.digits@, i as int);
                lemma_mag_val_nonneg(exponent.digits@.skip(i + 1));
            }
            // result := result^256
            let mut sq = result.clone();
            let mut k: usize = 0;
            proof {
                lemma_pow1(result@);
                lemma2_to64();
            }
            while k < 8
                invariant
                    k <= 8,
                    sq.wf(),
                    result.wf(),
                    sq@ == pow(result@, pow2(k as nat)),
                decreases 8 - k,
            {
                let next = sq.mul(&sq);
                proof {
                    lemma_pow_adds(result@, pow2(k as nat), pow2(k as nat));
                    vstd::arithmetic::power2::lemma_pow2_adds(k as nat, 1);
                    lemma_pow2(1);
                    vstd::arithmetic::power2::lemma_pow2_unfold((k + 1) as nat);
                }
                sq = next;
                k = k + 1;
            }
            // base_pow := self^d
            let mut base_pow = Self::one();
            let mut j: u8 = 0;
            proof {
                lemma_pow0(self@);
            }
            while j < d
                invariant
                    j <= d,
                    self.wf(),
                    base_pow.wf(),
                    base_pow@ == pow(self@, j as nat),
                decreases d - j,
            {
                let next = base_pow.mul(self);
                proof {
                    lemma_pow_succ(self@, j as nat);
                }
                base_pow = next;
                j = j + 1;
            }
            let next_result = sq.mul(&base_pow);
            proof {
                lemma2_to64();
                assert(sq@ == pow(pow(self@, e as nat), 256));
                vstd::arithmetic::power::lemma_pow_multiplies(self@, e as nat, 256);
                lemma_pow_adds(self@, (e * 256) as nat, d as nat);
                assert((256 * e + d) as nat == (e * 256) as nat + d as nat) by (nonlinear_arith)
                    requires
                        e >= 0,
                ;
            }
            result = next_result;
            proof {
                e = 256 * e + d;
            }
        }
        proof {
            assert(exponent.digits@.skip(0) =~= exponent.digits@);
            if exponent.sign == 1 {
                assert(exponent@ == e);
            } else {
                assert(exponent.sign == 0);
                assert(exponent@ == 0 && e == 0);
            }
        }
        Some(result)
    }
}

impl BigInt {
    /// Modular product, reduced into `[0, |modulus|)`.
    fn mul_mod(&self, other: &Self, modulus: &Self) -> (r: Self)
        requires
            self.wf(),
            other.wf(),
            modulus.wf(),
            modulus@ != 0,
        ensures
            r.wf(),
            0 <= r@ < abs_val(modulus@),
            r@ == (self@ * other@) % abs_val(modulus@),
    {
        let p = self.mul(other);
        match p.checked_rem_euclid(modulus) {
            Some(r) => r,
            None => {
                proof {
                    assert(false);
                }
                Self::zero()
            },
        }
    }

    /// Modular exponentiation with a non-negative exponent by binary
    /// exponentiation, reducing after every product.
    fn pow_mod_loop(base: &Self, exponent: &Self, modulus: &Self) -> (r: Self)
        requires
            base.wf(),
            exponent.wf(),
            modulus.wf(),
            exponent@ >= 0,
            modulus@ != 0,
        ensures
            r.wf(),
            0 <= r@ < abs_val(modulus@),
            r@ == pow(base@, exponent@ as nat) % abs_val(modulus@),
    {
        let ghost m: int = abs_val(modulus@);
        proof {
            exponent.lemma_abs_view();
        }
        let mut result = match Self::one().checked_rem_euclid(modulus) {
            Some(x) => x,
            None => {
                proof {
                    assert(false);
                }
                Self::zero()
            },
        };
        let mut i: usize = exponent.digits.len();
        let ghost mut e: int = 0;
        proof {
            assert(exponent.digits@.skip(i as int) =~= Seq::<u8>::empty());
            lemma_pow0(base@);
        }
        while i > 0
            invariant
                i <= exponent.digits@.len(),
                base.wf(),
                exponent.wf(),
                modulus.wf(),
                modulus@ != 0,
                m == abs_val(modulus@),
                result.wf(),
                e == mag_val(exponent.digits@.skip(i as int)),
                e >= 0,
                0 <= result@ < m,
                result@ == pow(base@, e as nat) % m,
            decreases i,
        {
            i = i - 1;
            let d: u8 = exponent.digits[i];
            proof {
                lemma_mag_val_skip_unfold(exponent.digits@, i as int);
                lemma_mag_val_nonneg(exponent.digits@.skip(i + 1));
            }
            // sq := result^256 mod m
            let mut sq = result.clone();
            let mut k: usize = 0;
            proof {
                lemma_pow1(result@);
                lemma2_to64();
                lemma_small_mod(result@ as nat, m as nat);
            }
            while k < 8
                invariant
                    k <= 8,
                    sq.wf(),
                    result.wf(),
                    modulus.wf(),
                    modulus@ != 0,
                    m == abs_val(modulus@),
                    0 <= sq@ < m,
                    sq@ == pow(result@, pow2(k as nat)) % m,
                decreases 8 - k,
            {
                let next = sq.mul_mod(&sq, modulus);
                proof {
                    lemma_mul_mod_noop(
                        pow(result@, pow2(k as nat)),
                        pow(result@, pow2(k as nat)),
                        m,
                    );
                    lemma_pow_adds(result@, pow2(k as nat), pow2(k as nat));
                    vstd::arithmetic::power2::lemma_pow2_unfold((k + 1) as nat);
                }
                sq = next;
                k = k + 1;
            }
            // bp := base^d mod m
            let mut bp = match Self::one().checked_rem_euclid(modulus) {
                Some(x) => x,
                None => {
                    proof {
                        assert(false);
                    }
                    Self::zero()
                },
            };
            let mut j: u8 = 0;
            proof {
                lemma_pow0(base@);
            }
            while j < d
                invariant
                    j <= d,
                    base.wf(),
                    bp.wf(),
                    modulus.wf(),
                    modulus@ != 0,
                    m == abs_val(modulus@),
                    0 <= bp@ < m,
                    bp@ == pow(base@, j as nat) % m,
                decreases d - j,
            {
                let next = bp.mul_mod(base, modulus);
                proof {
                    lemma_mul_mod_noop_left(pow(base@, j as nat), base@, m);
                    lemma_pow_succ(base@, j as nat);
                    assert(base@ * pow(base@, j as nat) == pow(base@, j as nat) * base@)
                        by (nonlinear_arith);
                }
                bp = next;
                j = j + 1;
            }
            let next_result = sq.mul_mod(&bp, modulus);
            proof {
                lemma2_to64();
                // sq == (base^e mod m)^256 mod m == base^(256 e) mod m
                vstd::arithmetic::power::lemma_pow_mod_noop(pow(base@, e as nat), 256, m);
                assert(sq@ == pow(pow(base@, e as nat) % m, 256) % m);
                vstd::arithmetic::power::lemma_pow_multiplies(base@, e as nat, 256);
                // next_result == base^(256 e) * base^d mod m
                lemma_mul_mod_noop(pow(base@, (e * 256) as nat), pow(base@, d as nat), m);
                lemma_pow_adds(base@, (e * 256) as nat, d as nat);
                assert((256 * e + d) as nat == (e * 256) as nat + d as nat) by (nonlinear_arith)
                    requires
                        e >= 0,
                ;
            }
            result = next_result;
            proof {
                e = 256 * e + d;
            }
        }
        proof {
            assert(exponent.digits@.skip(0) =~= exponent.digits@);
            if exponent.sign == 1 {
                assert(exponent@ == e);
            } else {
                assert(exponent.sign == 0);
                assert(exponent@ == 0 && e == 0);
            }
        }
        result
    }

    /// Modular inverse: `None` exactly when the value is not invertible
    /// modulo `|modulus|`; otherwise the unique inverse in `[0, |modulus|)`.
    fn mod_inverse(&self, modulus: &Self) -> (res: Option<Self>)
        requires
            self.wf(),
            modulus.wf(),
            modulus@ != 0,
        ensures
            (res is None) <==> gcd_int(abs_val(modulus@), self@ % abs_val(modulus@)) != 1,
            res matches Some(inv) ==> {
                &&& inv.wf()
                &&& 0 <= inv@ < abs_val(modulus@)
                &&& (inv@ * self@) % abs_val(modulus@) == 1int % abs_val(modulus@)
            },
    {
        let ghost m: int = abs_val(modulus@);
        let ghost a: int = self@ % m;
        let m_abs = modulus.abs();
        let a_red = match self.checked_rem_euclid(modulus) {
            Some(x) => x,
            None => {
                proof {
                    assert(false);
                }
                Self::zero()
            },
        };
        proof {
            // a - self is a multiple of m
            vstd::arithmetic::div_mod::lemma_fundamental_div_mod(self@, m);
            assert(a - self@ == (-(self@ / m)) * m) by (nonlinear_arith)
                requires
                    self@ == m * (self@ / m) + a,
            ;
            vstd::arithmetic::div_mod::lemma_mod_multiples_basic(-(self@ / m), m);
            lemma_mod_self_0(m);
        }
        let mut r0 = m_abs;
        let mut r1 = a_red;
        let mut t0 = Self::zero();
        let mut t1 = Self::one();
        proof {
            assert(r0@ - t0@ * self@ == m + (-1) * 0) by (nonlinear_arith)
                requires
                    t0@ == 0,
                    r0@ == m,
            ;
            assert((r0@ - t0@ * self@) % m == 0);
            assert(r1@ - t1@ * self@ == a - self@) by (nonlinear_arith)
                requires
                    t1@ == 1,
                    r1@ == a,
            ;
        }
        let mut r1_zero = r1.is_zero();
        while !r1_zero
            invariant
                r0.wf(),
                r1.wf(),
                t0.wf(),
                t1.wf(),
                self.wf(),
                modulus.wf(),
                modulus@ != 0,
                m == abs_val(modulus@),
                m > 0,
                a == self@ % m,
                0 <= r1@ < r0@,
                r1_zero == (r1@ == 0),
                (r0@ - t0@ * self@) % m == 0,
                (r1@ - t1@ * self@) % m == 0,
                gcd_int(r0@, r1@) == gcd_int(m, a),
            decreases r1@,
        {
            let (q, r2) = match r0.checked_div_rem_euclid(&r1) {
                Some(p) => p,
                None => {
                    proof {
                        assert(false);
                    }
                    (Self::zero(), Self::zero())
                },
            };
            let t2 = t0.sub(&q.mul(&t1));
            proof {
                // The linear-combination invariant carries to the next pair.
                assert(r2@ - t2@ * self@ == (-q@) * (r1@ - t1@ * self@) + (r0@ - t0@ * self@))
                    by (nonlinear_arith)
                    requires
                        r0@ == q@ * r1@ + r2@,
                        t2@ == t0@ - q@ * t1@,
                ;
                crate::utils::lemma_linear_combo_mod(
                    -q@,
                    r1@ - t1@ * self@,
                    r0@ - t0@ * self@,
                    m,
                );
                // The GCD is unchanged by one Euclidean step.
                vstd::arithmetic::div_mod::lemma_fundamental_div_mod_converse(
                    r0@,
                    r1@,
                    q@,
                    r2@,
                );
                assert(gcd_int(r0@, r1@) == gcd_int(r1@, r0@ % r1@));
            }
            r0 = r1;
            r1 = r2;
            t0 = t1;
            t1 = t2;
            r1_zero = r1.is_zero();
        }
        proof {
            assert(gcd_int(r0@, 0) == r0@);
        }
        let one_val = Self::one();
        let is_unit = r0.cmp(&one_val) == 0;
        if !is_unit {
            return None;
        }
        let inv = match t0.checked_rem_euclid(modulus) {
            Some(x) => x,
            None => {
                proof {
                    assert(false);
                }
                Self::zero()
            },
        };
        proof {
            // From r0 == 1: t0 * self == 1 modulo m.
            vstd::arithmetic::div_mod::lemma_mod_equivalence(1, t0@ * self@, m);
            // Replacing t0 by its residue keeps the product's residue.
            lemma_mul_mod_noop_left(t0@, self@, m);
            assert((inv@ * self@) % m == 1int % m);
        }
        Some(inv)
    }

    /// Modular exponentiation in the Euclidean sense: the result lies in
    /// `[0, |modulus|)`.  Fails exactly on a zero modulus or on a negative
    /// exponent whose base is not invertible modulo `|modulus|`.  For a
    /// negative exponent the stated product residue determines the result
    /// uniquely (see [`crate::utils::lemma_mod_inverse_unique`]).
    pub fn checked_pow_rem_euclid(&self, exponent: &Self, modulus: &Self) -> (res: Option<Self>)
        requires
            self.wf(),
            exponent.wf(),
            modulus.wf(),
        ensures
            (res is None) <==> (modulus@ == 0 || (exponent@ < 0 && gcd_int(
                abs_val(modulus@),
                self@ % abs_val(modulus@),
            ) != 1)),
            res matches Some(r) ==> r.wf() && 0 <= r@ < abs_val(modulus@),
            exponent@ >= 0 ==> (res matches Some(r) ==> r@ == pow(self@, exponent@ as nat)
                % abs_val(modulus@)),
            exponent@ < 0 ==> (res matches Some(r) ==> (r@ * pow(self@, (-exponent@) as nat))
                % abs_val(modulus@) == 1int % abs_val(modulus@)),
    {
        let ghost m: int = abs_val(modulus@);
        if modulus.is_zero() {
            return None;
        }
        if !exponent.is_negative() {
            let base_red = match self.checked_rem_euclid(modulus) {
                Some(x) => x,
                None => {
                    proof {
                        assert(false);
                    }
                    Self::zero()
                },
            };
            let r = Self::pow_mod_loop(&base_red, exponent, modulus);
            proof {
                vstd::arithmetic::power::lemma_pow_mod_noop(self@, exponent@ as nat, m);
            }
            return Some(r);
        }
        let inv = match self.mod_inverse(modulus) {
            Some(x) => x,
            None => {
                return None;
            },
        };
        let neg_exp = exponent.neg();
        let r = Self::pow_mod_loop(&inv, &neg_exp, modulus);
        proof {
            let k = (-exponent@) as nat;
            // r == inv^k mod m; multiply by self^k and reduce.
            lemma_mul_mod_noop_left(pow(inv@, k), pow(self@, k), m);
            vstd::arithmetic::power::lemma_pow_distributes(inv@, self@, k);
            vstd::arithmetic::power::lemma_pow_mod_noop(inv@ * self@, k, m);
            if m == 1 {
                vstd::arithmetic::div_mod::lemma_mod_self_0(1);
                assert((r@ * pow(self@, k)) % 1 == 0) by {
                    assert(r@ == pow(inv@, k) % 1);
                    vstd::arithmetic::div_mod::lemma_mod_bound(pow(inv@, k), 1);
                    assert(r@ == 0);
                    assert((0int * pow(self@, k)) == 0) by (nonlinear_arith);
                    lemma_small_mod(0, 1);
                }
                assert(1int % 1int == 0) by {
                    vstd::arithmetic::div_mod::lemma_mod_self_0(1);
                }
            } else {
                assert(1int % m == 1) by {
                    lemma_small_mod(1, m as nat);
                }
                assert((inv@ * self@) % m == 1);
                vstd::arithmetic::power::lemma1_pow(k);
                assert(pow((inv@ * self@) % m, k) == 1);
                assert((r@ * pow(self@, k)) % m == 1int % m);
            }
        }
        Some(r)
    }
}

/// Failure modes of a left shift.
#[derive(Clone, Copy, Debug, PartialEq, Eq, Structural)]
pub enum LeftShiftError {
    /// The shift amount was negative.
    NegativeShift,
    /// The shifted value would not fit in memory.
    OutOfMemory,
    /// The shift amount exceeds the supported range.
    TooLarge,
}

impl LeftShiftError {
    /// A short description of the failure.
    pub fn description(&self) -> (r: &'static str)
        ensures
            *self == LeftShiftError::NegativeShift ==> r@
                == "Shift by a negative step is undefined."@,
            *self == LeftShiftError::OutOfMemory ==> r@
                == "Not enough memory for the shift result."@,
            *self == LeftShiftError::TooLarge ==> r@ == "Too large shift step."@,
    {
        match self {
            LeftShiftError::NegativeShift => "Shift by a negative step is undefined.",
            LeftShiftError::OutOfMemory => "Not enough memory for the shift result.",
            LeftShiftError::TooLarge => "Too large shift step.",
        }
    }
}

/// Failure modes of a right shift.
#[derive(Clone, Copy, Debug, PartialEq, Eq, Structural)]
pub enum RightShiftError {
    /// The shift amount was negative.
    NegativeShift,
}

impl RightShiftError {
    /// A short description of the failure.
    pub fn description(&self) -> (r: &'static str)
        ensures
            r@ == "Shift by a negative step is undefined."@,
    {
        match self {
            RightShiftError::NegativeShift => "Shift by a negative step is undefined.",
        }
    }
}

/// Largest accepted left-shift amount, in bits.
pub const SHL_CAP: u64 = 0x1000_0000;

/// Digit weights are powers of two: 256^n == 2^(8n).
pub proof fn lemma_p256_pow2(n: nat)
    ensures
        p256(n) == pow2((8 * n) as nat),
    decreases n,
{
    if n == 0 {
        lemma2_to64();
    } else {
        lemma_p256_pow2((n - 1) as nat);
        vstd::arithmetic::power2::lemma_pow2_adds((8 * (n - 1)) as nat, 8);
        lemma2_to64();
        assert(p256(n) == 256 * p256((n - 1) as nat));
        assert(pow2((8 * n) as nat) == pow2((8 * (n - 1)) as nat) * pow2(8)) by {
            assert(8 * n == 8 * (n - 1) + 8) by (nonlinear_arith);
        }
        assert(pow2((8 * (n - 1)) as nat) * 256 == 256 * pow2((8 * (n - 1)) as nat))
            by (nonlinear_arith);
    }
}

impl BigInt {
    /// The magnitude as a double machine word, when it fits.
    fn magnitude_as_u128(&self) -> (res: Option<u128>)
        requires
            self.wf(),
        ensures
            res matches Some(v) ==> v == abs_val(self@),
            res is None ==> abs_val(self@) > u128::MAX,
    {
        proof {
            self.lemma_abs_view();
        }
        let n = self.digits.len();
        if n > 16 {
            proof {
                crate::digits::lemma_canonical_lower(self.digits@);
                lemma_p256_increases(16, (n - 1) as nat);
                lemma_p256_pow2(16);
                lemma2_to64();
                lemma2_to64_rest();
                vstd::arithmetic::power2::lemma_pow2_adds(64, 64);
            }
            return None;
        }
        let mut acc: u128 = 0;
        let mut i: usize = n;
        proof {
            assert(self.digits@.skip(n as int) =~= Seq::<u8>::empty());
        }
        while i > 0
            invariant
                i <= n,
                n == self.digits@.len(),
                n <= 16,
                self.wf(),
                acc == mag_val(self.digits@.skip(i as int)),
            decreases i,
        {
            i = i - 1;
            proof {
                lemma_mag_val_skip_unfold(self.digits@, i as int);
                lemma_mag_val_bound(self.digits@.skip(i as int));
                assert(self.digits@.skip(i as int).len() == n - i);
                lemma_p256_increases((n - i) as nat, 16);
                lemma_p256_pow2(16);
                lemma2_to64();
                lemma2_to64_rest();
                vstd::arithmetic::power2::lemma_pow2_adds(64, 64);
                assert(mag_val(self.digits@.skip(i as int))
                    < 0x1_0000_0000_0000_0000_0000_0000_0000_0000);
            }
            acc = acc * 256 + (self.digits[i] as u128);
        }
        proof {
            assert(self.digits@.skip(0) =~= self.digits@);
        }
        Some(acc)
    }

    /// The digit holding a single bit below the digit width.
    fn bit_digit(b: u8) -> (r: u8)
        requires
            b < 8,
        ensures
            r == pow2(b as nat),
    {
        proof {
            lemma2_to64();
        }
        match b {
            0 => 1,
            1 => 2,
            2 => 4,
            3 => 8,
            4 => 16,
            5 => 32,
            6 => 64,
            _ => 128,
        }
    }

    /// Builds `2^k` as a big integer.
    fn pow2_big(k: u128) -> (r: Self)
        requires
            k as int / 8 <= usize::MAX,
        ensures
            r.wf(),
            r@ == pow2(k as nat),
    {
        let byte_shift = (k / 8) as usize;
        let bit_shift = (k % 8) as u8;
        let d = Self::bit_digit(bit_shift);
        let mag = crate::digits::shift_up(&single(d), byte_shift);
        proof {
            lemma_p256_pow2(byte_shift as nat);
            vstd::arithmetic::power2::lemma_pow2_adds((8 * byte_shift) as nat, bit_shift as nat);
            assert(8 * byte_shift + bit_shift == k) by (nonlinear_arith)
                requires
                    byte_shift == k / 8,
                    bit_shift == k % 8,
                    k == 8 * (k as int / 8) + k as int % 8,
            ;
            vstd::arithmetic::power2::lemma_pow2_pos(k as nat);
            assert(mag_val(mag@) == pow2(k as nat)) by (nonlinear_arith)
                requires
                    mag_val(mag@) == p256(byte_shift as nat) * (d as int),
                    p256(byte_shift as nat) == pow2((8 * byte_shift) as nat),
                    d == pow2(bit_shift as nat),
                    pow2(k as nat) == pow2((8 * byte_shift) as nat) * pow2(bit_shift as nat),
            ;
        }
        let ghost gm: int = mag_val(mag@);
        let mut mag = mag;
        trim(&mut mag);
        let r = Self::from_sign_mag(1, mag);
        proof {
            assert(r@ == 1 * gm);
        }
        r
    }

    /// Left shift: multiplies by `2^shift`.  Fails on a negative shift and on
    /// a shift beyond [`SHL_CAP`] bits.
    pub fn checked_shl(&self, shift: &Self) -> (res: Result<Self, LeftShiftError>)
        requires
            self.wf(),
            shift.wf(),
        ensures
            (res matches Err(LeftShiftError::NegativeShift)) <==> shift@ < 0,
            (res matches Err(LeftShiftError::TooLarge)) <==> shift@ > SHL_CAP,
            !(res matches Err(LeftShiftError::OutOfMemory)),
            res matches Ok(r) ==> {
                &&& 0 <= shift@ <= SHL_CAP
                &&& r.wf()
                &&& r@ == self@ * pow2(shift@ as nat)
            },
    {
        proof {
            self.lemma_abs_view();
            shift.lemma_abs_view();
        }
        if shift.is_negative() {
            return Err(LeftShiftError::NegativeShift);
        }
        let k = match shift.magnitude_as_u128() {
            Some(k) => {
                if k > SHL_CAP as u128 {
                    return Err(LeftShiftError::TooLarge);
                }
                k
            },
            None => {
                return Err(LeftShiftError::TooLarge);
            },
        };
        let p = Self::pow2_big(k);
        let r = self.mul(&p);
        Ok(r)
    }

    /// Arithmetic right shift: floor division by `2^shift`.  Fails exactly
    /// on a negative shift.
    pub fn checked_shr(&self, shift: &Self) -> (res: Result<Self, RightShiftError>)
        requires
            self.wf(),
            shift.wf(),
        ensures
            (res is Err) <==> shift@ < 0,
            res matches Ok(r) ==> {
                &&& r.wf()
                &&& r@ == self@ / (pow2(shift@ as nat) as int)
            },
    {
        proof {
            self.lemma_abs_view();
            shift.lemma_abs_view();
        }
        if shift.is_negative() {
            return Err(RightShiftError::NegativeShift);
        }
        let n = self.digits.len();
        let big = match shift.magnitude_as_u128() {
            Some(k) => k >= 8u128 * (n as u128),
            None => true,
        };
        let ghost k: nat = shift@ as nat;
        proof {
            if big {
                assert(8 * n < u128::MAX);
                assert(k >= 8 * n);
            }
        }
        if big {
            // The shift clears every significant bit: the result is 0 for a
            // non-negative value and -1 for a negative one.
            proof {
                lemma_mag_val_bound(self.digits@);
                lemma_p256_pow2(n as nat);
                assert(pow2((8 * n) as nat) <= pow2(k)) by {
                    if k > 8 * n {
                        vstd::arithmetic::power2::lemma_pow2_strictly_increases((8 * n) as nat, k);
                    }
                }
                vstd::arithmetic::power2::lemma_pow2_pos(k);
                assert(abs_val(self@) < pow2(k));
            }
            if self.is_negative() {
                let r = Self::from_i64(-1);
                proof {
                    vstd::arithmetic::div_mod::lemma_fundamental_div_mod_converse(
                        self@,
                        pow2(k) as int,
                        -1,
                        self@ + pow2(k),
                    );
                }
                Ok(r)
            } else {
                let r = Self::zero();
                proof {
                    vstd::arithmetic::div_mod::lemma_fundamental_div_mod_converse(
                        self@,
                        pow2(k) as int,
                        0,
                        self@,
                    );
                }
                Ok(r)
            }
        } else {
            let kk = match shift.magnitude_as_u128() {
                Some(k) => k,
                None => {
                    proof {
                        assert(false);
                    }
                    0
                },
            };
            proof {
                assert(kk < 8 * n);
            }
            let p = Self::pow2_big(kk);
            proof {
                vstd::arithmetic::power2::lemma_pow2_pos(k);
            }
            match self.checked_div_euclid(&p) {
                Some(q) => {
                    proof {
                        vstd::arithmetic::div_mod::lemma_fundamental_div_mod_converse(
                            self@,
                            pow2(k) as int,
                            q@,
                            self@ - q@ * (pow2(k) as int),
                        );
                    }
                    Ok(q)
                },
                None => {
                    proof {
                        assert(false);
                    }
                    Err(RightShiftError::NegativeShift)
                },
            }
        }
    }
}

/// Compares two digit vectors for equality.
fn eq_digits(a: &Vec<u8>, b: &Vec<u8>) -> (r: bool)
    ensures
        r == (a@ == b@),
{
    let la = a.len();
    let lb = b.len();
    if la != lb {
        proof {
            assert(a@ != b@);
        }
        return false;
    }
    let mut i: usize = 0;
    while i < la
        invariant
            i <= la,
            a@.len() == la,
            b@.len() == la,
            forall|j: int| 0 <= j < i ==> a@[j] == b@[j],
        decreases la - i,
    {
        if a[i] != b[i] {
            return false;
        }
        i = i + 1;
    }
    proof {
        assert(a@ =~= b@);
    }
    true
}

impl PartialEq for BigInt {
    /// Representation equality; on well-formed values this coincides with
    /// value equality (see [`BigInt::lemma_value_determines_repr`]).
    fn eq(&self, other: &Self) -> (r: bool) {
        self.sign == other.sign && eq_digits(&self.digits, &other.digits)
    }
}

impl vstd::std_specs::cmp::PartialEqSpecImpl for BigInt {
    open spec fn obeys_eq_spec() -> bool {
        true
    }

    open spec fn eq_spec(&self, other: &BigInt) -> bool {
        self.sign == other.sign && self.digits@ == other.digits@
    }
}

impl Eq for BigInt {

}

} // verus!
