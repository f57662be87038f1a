//! The capability surface shared by the value types and the machine words:
//! zero and one, sign queries, absolute value, GCD, checked and modular
//! division, word widening and sign counterparts.
//!
//! The traits name the capabilities; each impl states the exact result for
//! its own type, conditional on the type's validity where one exists, and
//! the big-integer and fraction impls delegate to the inherent methods that
//! carry the full contracts.

use vstd::prelude::*;

use crate::big_int::{abs_val, sgn, BigInt};
use crate::fraction::Fraction;
use crate::utils;

verus! {

/// Has a zero value and a zero test.
pub trait Zeroable: Sized {
    /// What it means for a value to be zero.
    spec fn is_zero_spec(&self) -> bool;

    /// The zero value.
    fn zero() -> (r: Self)
        ensures
            r.is_zero_spec(),
    ;

    /// Tests for zero.
    fn is_zero(&self) -> (r: bool)
        ensures
            r == self.is_zero_spec(),
    ;
}

impl Zeroable for u64 {
    open spec fn is_zero_spec(&self) -> bool {
        *self == 0
    }

    fn zero() -> (r: Self) {
        0
    }

    fn is_zero(&self) -> (r: bool) {
        *self == 0
    }
}

impl Zeroable for i64 {
    open spec fn is_zero_spec(&self) -> bool {
        *self == 0
    }

    fn zero() -> (r: Self) {
        0
    }

    fn is_zero(&self) -> (r: bool) {
        *self == 0
    }
}

impl Zeroable for BigInt {
    /// A well-formed big integer is zero exactly when its sign is.
    open spec fn is_zero_spec(&self) -> bool {
        self.sign == 0
    }

    fn zero() -> (r: Self) {
        BigInt::zero()
    }

    fn is_zero(&self) -> (r: bool) {
        self.sign == 0
    }
}

impl Zeroable for Fraction {
    /// A well-formed fraction is zero exactly when its numerator is.
    open spec fn is_zero_spec(&self) -> bool {
        self.numerator.sign == 0
    }

    fn zero() -> (r: Self) {
        Fraction::zero()
    }

    fn is_zero(&self) -> (r: bool) {
        self.numerator.sign == 0
    }
}

/// Has a unit value and a unit test.
pub trait Unitary: Sized {
    /// What it means for a value to be one.
    spec fn is_one_spec(&self) -> bool;

    /// The unit value.
    fn one() -> (r: Self)
        ensures
            r.is_one_spec(),
    ;

    /// Tests for one.
    fn is_one(&self) -> (r: bool)
        ensures
            r == self.is_one_spec(),
    ;
}

impl Unitary for u64 {
    open spec fn is_one_spec(&self) -> bool {
        *self == 1
    }

    fn one() -> (r: Self) {
        1
    }

    fn is_one(&self) -> (r: bool) {
        *self == 1
    }
}

impl Unitary for i64 {
    open spec fn is_one_spec(&self) -> bool {
        *self == 1
    }

    fn one() -> (r: Self) {
        1
    }

    fn is_one(&self) -> (r: bool) {
        *self == 1
    }
}

impl Unitary for BigInt {
    open spec fn is_one_spec(&self) -> bool {
        self.sign == 1 && self.digits@ == seq![1u8]
    }

    fn one() -> (r: Self) {
        let mut v: Vec<u8> = Vec::new();
        v.push(1);
        proof {
            assert(v@ =~= seq![1u8]);
        }
        BigInt { sign: 1, digits: v }
    }

    fn is_one(&self) -> (r: bool) {
        let r = self.sign == 1 && self.digits.len() == 1 && self.digits[0] == 1;
        proof {
            if r {
                assert(self.digits@ =~= seq![1u8]);
            }
            if self.sign == 1 && self.digits@ == seq![1u8] {
                assert(self.digits@.len() == 1);
                assert(self.digits@[0] == 1);
            }
        }
        r
    }
}

impl Unitary for Fraction {
    open spec fn is_one_spec(&self) -> bool {
        self.numerator.is_one_spec() && self.denominator.is_one_spec()
    }

    fn one() -> (r: Self) {
        Fraction { numerator: Unitary::one(), denominator: Unitary::one() }
    }

    fn is_one(&self) -> (r: bool) {
        Unitary::is_one(&self.numerator) && Unitary::is_one(&self.denominator)
    }
}

/// Distinguishes negative, zero and positive values.
pub trait Oppositive: Zeroable {
    /// What it means to be strictly negative.
    spec fn is_negative_spec(&self) -> bool;

    /// What it means to be strictly positive.
    spec fn is_positive_spec(&self) -> bool;

    /// Tests for a strictly negative value.
    fn is_negative(&self) -> (r: bool)
        ensures
            r == self.is_negative_spec(),
    ;

    /// Tests for a strictly positive value.
    fn is_positive(&self) -> (r: bool)
        ensures
            r == self.is_positive_spec(),
    ;
}

impl Oppositive for i64 {
    open spec fn is_negative_spec(&self) -> bool {
        *self < 0
    }

    open spec fn is_positive_spec(&self) -> bool {
        *self > 0
    }

    fn is_negative(&self) -> (r: bool) {
        *self < 0
    }

    fn is_positive(&self) -> (r: bool) {
        *self > 0
    }
}

impl Oppositive for BigInt {
    open spec fn is_negative_spec(&self) -> bool {
        self.sign == -1
    }

    open spec fn is_positive_spec(&self) -> bool {
        self.sign == 1
    }

    fn is_negative(&self) -> (r: bool) {
        self.sign == -1
    }

    fn is_positive(&self) -> (r: bool) {
        self.sign == 1
    }
}

impl Oppositive for Fraction {
    open spec fn is_negative_spec(&self) -> bool {
        self.numerator.sign == -1
    }

    open spec fn is_positive_spec(&self) -> bool {
        self.numerator.sign == 1
    }

    fn is_negative(&self) -> (r: bool) {
        self.numerator.sign == -1
    }

    fn is_positive(&self) -> (r: bool) {
        self.numerator.sign == 1
    }
}

/// Has an absolute value.
pub trait Abs: Sized {
    type Output;

    /// Inputs whose absolute value is representable.
    spec fn abs_req(&self) -> bool;

    /// The absolute value.
    fn abs(self) -> Self::Output
        requires
            self.abs_req(),
    ;
}

impl Abs for i64 {
    type Output = i64;

    open spec fn abs_req(&self) -> bool {
        *self != i64::MIN
    }

    fn abs(self) -> (r: i64)
        ensures
            r == abs_val(self as int),
    {
        if self < 0 {
            -self
        } else {
            self
        }
    }
}

impl Abs for BigInt {
    type Output = BigInt;

    open spec fn abs_req(&self) -> bool {
        true
    }

    fn abs(self) -> (r: BigInt)
        ensures
            self.wf() ==> r.wf() && r@ == abs_val(self@),
    {
        let ghost orig = self;
        let s: i32 = if self.sign == -1 {
            1
        } else {
            self.sign
        };
        let r = BigInt { sign: s, digits: self.digits };
        proof {
            if orig.wf() {
                orig.lemma_abs_view();
                if orig.sign == 0 {
                    assert(r@ == 0 * crate::digits::mag_val(orig.digits@));
                } else {
                    assert(r@ == 1 * crate::digits::mag_val(orig.digits@));
                }
            }
        }
        r
    }
}

impl Abs for Fraction {
    type Output = Fraction;

    open spec fn abs_req(&self) -> bool {
        true
    }

    fn abs(self) -> (r: Fraction)
        ensures
            self.wf() ==> r.wf() && r.num() == abs_val(self.num()) && r.den() == self.den(),
    {
        let ghost orig = self;
        let s: i32 = if self.numerator.sign == -1 {
            1
        } else {
            self.numerator.sign
        };
        let r = Fraction {
            numerator: BigInt { sign: s, digits: self.numerator.digits },
            denominator: self.denominator,
        };
        proof {
            if orig.wf() {
                orig.numerator.lemma_abs_view();
                if orig.numerator.sign == 0 {
                    assert(r.num() == 0 * crate::digits::mag_val(orig.numerator.digits@));
                } else {
                    assert(r.num() == 1 * crate::digits::mag_val(orig.numerator.digits@));
                }
                assert(abs_val(r.num()) == abs_val(orig.num()));
            }
        }
        r
    }
}

/// Has a greatest common divisor.
pub trait Gcd<Rhs = Self> {
    type Output;

    /// The GCD of the two values' magnitudes.
    fn gcd(self, other: Rhs) -> Self::Output;
}

impl Gcd for u64 {
    type Output = u64;

    fn gcd(self, other: u64) -> (r: u64)
        ensures
            r == utils::gcd_int(self as int, other as int),
    {
        utils::gcd(self, other)
    }
}

impl Gcd for BigInt {
    type Output = BigInt;

    fn gcd(self, other: BigInt) -> (r: BigInt)
        ensures
            self.wf() && other.wf() ==> r.wf() && r@ == utils::gcd_int(
                crate::big_int::abs_val(self@),
                crate::big_int::abs_val(other@),
            ),
    {
        if self.wf_exec() && other.wf_exec() {
            BigInt::gcd(&self, &other)
        } else {
            BigInt::zero()
        }
    }
}

/// Has a checked division that signals an undefined quotient.
pub trait CheckedDiv<Rhs = Self> {
    type Output;

    /// Divides, reporting a zero divisor instead of failing.
    fn checked_div(self, other: Rhs) -> Self::Output;
}

impl CheckedDiv for u64 {
    type Output = Option<u64>;

    fn checked_div(self, other: u64) -> (r: Option<u64>)
        ensures
            (r is None) <==> other == 0,
            r matches Some(q) ==> q == self as int / other as int,
    {
        if other == 0 {
            None
        } else {
            Some(self / other)
        }
    }
}

impl CheckedDiv for BigInt {
    type Output = Option<BigInt>;

    fn checked_div(self, other: BigInt) -> (r: Option<BigInt>)
        ensures
            self.wf() && other.wf() ==> ((r is None) <==> other@ == 0),
            self.wf() && other.wf() ==> (r matches Some(q) ==> {
                &&& q.wf()
                &&& abs_val(self@ - q@ * other@) < abs_val(other@)
                &&& (self@ - q@ * other@ == 0 || sgn(self@ - q@ * other@) == sgn(self@))
            }),
    {
        if self.wf_exec() && other.wf_exec() {
            BigInt::checked_div(&self, &other)
        } else {
            None
        }
    }
}

/// Has a Euclidean remainder.
pub trait Modulo<Rhs = Self> {
    type Output;

    /// The non-negative remainder.
    spec fn modulo_req(&self, other: &Rhs) -> bool;

    /// Reduces modulo the other value.
    fn modulo(self, other: Rhs) -> Self::Output
        requires
            self.modulo_req(&other),
    ;
}

impl Modulo for u64 {
    type Output = u64;

    open spec fn modulo_req(&self, other: &u64) -> bool {
        *other != 0
    }

    fn modulo(self, other: u64) -> (r: u64)
        ensures
            r == self as int % other as int,
    {
        self % other
    }
}

/// Has a wrapping subtraction.
pub trait ModularSub<Rhs = Self> {
    type Output;

    /// What the wrapped difference is.
    spec fn wrapping_sub_spec(&self, rhs: &Rhs) -> Self::Output;

    /// Subtracts, wrapping around on underflow.
    fn wrapping_sub(self, rhs: Rhs) -> (r: Self::Output)
        ensures
            r == self.wrapping_sub_spec(&rhs),
    ;
}

impl ModularSub for u64 {
    type Output = u64;

    open spec fn wrapping_sub_spec(&self, rhs: &u64) -> u64 {
        if *self >= *rhs {
            (*self - *rhs) as u64
        } else {
            (*self - *rhs + 0x1_0000_0000_0000_0000) as u64
        }
    }

    fn wrapping_sub(self, rhs: u64) -> (r: u64) {
        if self >= rhs {
            self - rhs
        } else {
            (self + 1) + (u64::MAX - rhs)
        }
    }
}

/// Associates a word type with its double-width accumulator.
pub trait DoublePrecision: Sized {
    type Result;
}

impl DoublePrecision for u8 {
    type Result = u16;
}

impl DoublePrecision for u16 {
    type Result = u32;
}

impl DoublePrecision for u32 {
    type Result = u64;
}

impl DoublePrecision for u64 {
    type Result = u128;
}

/// Associates an unsigned word type with its signed counterpart.
pub trait Oppose {
    type Result;
}

impl Oppose for u8 {
    type Result = i8;
}

impl Oppose for u16 {
    type Result = i16;
}

impl Oppose for u32 {
    type Result = i32;
}

impl Oppose for u64 {
    type Result = i64;
}

impl Oppose for u128 {
    type Result = i128;
}

/// The double-width accumulator of a word type.
pub type DoublePrecisionOf<T> = <T as DoublePrecision>::Result;

/// The signed counterpart of a word type.
pub type OppositionOf<T> = <T as Oppose>::Result;

} // verus!
