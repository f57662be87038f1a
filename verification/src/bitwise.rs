//! Bitwise operations on big integers.
//!
//! Negative operands are treated as if stored in infinite-precision
//! two's-complement form.  The mathematical meaning is captured by the bit
//! recursions [`int_bit_and`], [`int_bit_or`] and [`int_bit_xor`]: each peels
//! off the lowest bit (`x % 2`) and recurses on the arithmetic shift
//! (`x / 2`, flooring), until both operands reach one of the two sign-extended
//! fixed points 0 and -1.  NOT is `-(x + 1)` exactly.

#![verifier::loop_isolation(false)]

use vstd::prelude::*;

use crate::big_int::{abs_val, BigInt};

verus! {

/// The two values on which an arithmetic halving stalls: an all-zero and an
/// all-one two's-complement stream.
pub open spec fn is_bit_fix(x: int) -> bool {
    x == 0 || x == -1
}

/// Halving an integer shrinks its magnitude, strictly so away from the fixed
/// points.
pub proof fn lemma_half_abs(x: int)
    ensures
        abs_val(x / 2) <= abs_val(x),
        !is_bit_fix(x) ==> abs_val(x / 2) < abs_val(x),
        is_bit_fix(x) ==> x / 2 == x,
{
    vstd::arithmetic::div_mod::lemma_fundamental_div_mod(x, 2);
    assert(abs_val(x / 2) <= abs_val(x) && (!is_bit_fix(x) ==> abs_val(x / 2) < abs_val(x)) && (
    is_bit_fix(x) ==> x / 2 == x)) by (nonlinear_arith)
        requires
            x == 2 * (x / 2) + x % 2,
            0 <= x % 2 < 2,
            abs_val(x / 2) == (if x / 2 >= 0 { x / 2 } else { -(x / 2) }),
            abs_val(x) == (if x >= 0 { x } else { -x }),
            is_bit_fix(x) == (x == 0 || x == -1),
    ;
}

/// Bitwise AND of two integers in two's-complement reading.
pub open spec fn int_bit_and(x: int, y: int) -> int
    decreases abs_val(x) + abs_val(y),
    via int_bit_and_decreases
{
    if is_bit_fix(x) && is_bit_fix(y) {
        if x == -1 && y == -1 {
            -1
        } else {
            0
        }
    } else {
        (if x % 2 == 1 && y % 2 == 1 {
            1int
        } else {
            0int
        }) + 2 * int_bit_and(x / 2, y / 2)
    }
}

#[via_fn]
proof fn int_bit_and_decreases(x: int, y: int) {
    lemma_half_abs(x);
    lemma_half_abs(y);
}

/// Bitwise OR of two integers in two's-complement reading.
pub open spec fn int_bit_or(x: int, y: int) -> int
    decreases abs_val(x) + abs_val(y),
    via int_bit_or_decreases
{
    if is_bit_fix(x) && is_bit_fix(y) {
        if x == 0 && y == 0 {
            0
        } else {
            -1
        }
    } else {
        (if x % 2 == 1 || y % 2 == 1 {
            1int
        } else {
            0int
        }) + 2 * int_bit_or(x / 2, y / 2)
    }
}

#[via_fn]
proof fn int_bit_or_decreases(x: int, y: int) {
    lemma_half_abs(x);
    lemma_half_abs(y);
}

/// Bitwise XOR of two integers in two's-complement reading.
pub open spec fn int_bit_xor(x: int, y: int) -> int
    decreases abs_val(x) + abs_val(y),
    via int_bit_xor_decreases
{
    if is_bit_fix(x) && is_bit_fix(y) {
        if x == y {
            0
        } else {
            -1
        }
    } else {
        (if (x % 2 == 1) != (y % 2 == 1) {
            1int
        } else {
            0int
        }) + 2 * int_bit_xor(x / 2, y / 2)
    }
}

#[via_fn]
proof fn int_bit_xor_decreases(x: int, y: int) {
    lemma_half_abs(x);
    lemma_half_abs(y);
}

/// The identities that anchor the bitwise reading: an all-one stream is the
/// identity of AND and absorbs OR, an all-zero stream is the identity of OR
/// and XOR and absorbs AND, and XOR cancels equal operands.
pub proof fn lemma_bitwise_identities(x: int)
    ensures
        int_bit_and(x, -1) == x,
        int_bit_and(x, 0) == 0,
        int_bit_or(x, 0) == x,
        int_bit_or(x, -1) == -1,
        int_bit_xor(x, 0) == x,
        int_bit_xor(x, x) == 0,
    decreases abs_val(x),
{
    vstd::arithmetic::div_mod::lemma_fundamental_div_mod(x, 2);
    if is_bit_fix(x) {
    } else {
        lemma_half_abs(x);
        lemma_bitwise_identities(x / 2);
        assert(x == (if x % 2 == 1 {
            1int
        } else {
            0int
        }) + 2 * (x / 2));
    }
}

/// The three bitwise operations are symmetric in their operands.
pub proof fn lemma_bitwise_comm(x: int, y: int)
    ensures
        int_bit_and(x, y) == int_bit_and(y, x),
        int_bit_or(x, y) == int_bit_or(y, x),
        int_bit_xor(x, y) == int_bit_xor(y, x),
    decreases abs_val(x) + abs_val(y),
{
    if is_bit_fix(x) && is_bit_fix(y) {
    } else {
        lemma_half_abs(x);
        lemma_half_abs(y);
        lemma_bitwise_comm(x / 2, y / 2);
    }
}

impl BigInt {
    /// True exactly when the value is -1.
    fn is_neg_one(&self) -> (r: bool)
        requires
            self.wf(),
        ensures
            r == (self@ == -1),
    {
        proof {
            self.lemma_abs_view();
        }
        let neg = self.is_negative();
        if !neg {
            return false;
        }
        let one = Self::one();
        self.cmp(&one.neg()) == 0
    }

    /// True exactly when the value is one of the halving fixed points.
    fn is_bit_fix_exec(&self) -> (r: bool)
        requires
            self.wf(),
        ensures
            r == is_bit_fix(self@),
    {
        self.is_zero() || self.is_neg_one()
    }

    /// Splits off the lowest two's-complement bit: returns the arithmetic
    /// half (flooring) and the bit.
    fn half_with_bit(&self) -> (res: (Self, bool))
        requires
            self.wf(),
        ensures
            res.0.wf(),
            res.0@ == self@ / 2,
            res.1 == (self@ % 2 == 1),
    {
        let two = Self::from_u64(2);
        match self.checked_div_rem_euclid(&two) {
            Some((q, r)) => {
                proof {
                    vstd::arithmetic::div_mod::lemma_fundamental_div_mod_converse(
                        self@,
                        2,
                        q@,
                        r@,
                    );
                }
                let bit = !r.is_zero();
                (q, bit)
            },
            None => {
                proof {
                    assert(false);
                }
                (Self::zero(), false)
            },
        }
    }

    /// Bitwise AND.
    pub fn bitand(&self, other: &Self) -> (r: Self)
        requires
            self.wf(),
            other.wf(),
        ensures
            r.wf(),
            r@ == int_bit_and(self@, other@),
    {
        let mut x = self.clone();
        let mut y = other.clone();
        let mut r = Self::zero();
        let mut p = Self::one();
        let mut done = x.is_bit_fix_exec() && y.is_bit_fix_exec();
        while !done
            invariant
                x.wf(),
                y.wf(),
                r.wf(),
                p.wf(),
                p@ >= 1,
                done == (is_bit_fix(x@) && is_bit_fix(y@)),
                r@ + p@ * int_bit_and(x@, y@) == int_bit_and(self@, other@),
            decreases abs_val(x@) + abs_val(y@),
        {
            let (xq, xbit) = x.half_with_bit();
            let (yq, ybit) = y.half_with_bit();
            let bit = xbit && ybit;
            let r2 = if bit {
                r.add(&p)
            } else {
                r.clone()
            };
            let p2 = p.add(&p);
            proof {
                lemma_half_abs(x@);
                lemma_half_abs(y@);
                let bv: int = if bit {
                    1
                } else {
                    0
                };
                assert(int_bit_and(x@, y@) == bv + 2 * int_bit_and(xq@, yq@));
                assert(r2@ + p2@ * int_bit_and(xq@, yq@) == r@ + p@ * int_bit_and(x@, y@))
                    by (nonlinear_arith)
                    requires
                        r2@ == r@ + (if bit {
                            p@
                        } else {
                            0int
                        }),
                        p2@ == p@ + p@,
                        int_bit_and(x@, y@) == (if bit {
                            1int
                        } else {
                            0int
                        }) + 2 * int_bit_and(xq@, yq@),
                ;
            }
            x = xq;
            y = yq;
            r = r2;
            p = p2;
            done = x.is_bit_fix_exec() && y.is_bit_fix_exec();
        }
        if x.is_neg_one() && y.is_neg_one() {
            let out = r.sub(&p);
            proof {
                assert(int_bit_and(x@, y@) == -1);
                assert(p@ * (-1int) == -p@) by (nonlinear_arith);
            }
            out
        } else {
            proof {
                assert(int_bit_and(x@, y@) == 0);
                assert(p@ * 0int == 0) by (nonlinear_arith);
            }
            r
        }
    }

    /// Bitwise OR.
    pub fn bitor(&self, other: &Self) -> (r: Self)
        requires
            self.wf(),
            other.wf(),
        ensures
            r.wf(),
            r@ == int_bit_or(self@, other@),
    {
        let mut x = self.clone();
        let mut y = other.clone();
        let mut r = Self::zero();
        let mut p = Self::one();
        let mut done = x.is_bit_fix_exec() && y.is_bit_fix_exec();
        while !done
            invariant
                x.wf(),
                y.wf(),
                r.wf(),
                p.wf(),
                p@ >= 1,
                done == (is_bit_fix(x@) && is_bit_fix(y@)),
                r@ + p@ * int_bit_or(x@, y@) == int_bit_or(self@, other@),
            decreases abs_val(x@) + abs_val(y@),
        {
            let (xq, xbit) = x.half_with_bit();
            let (yq, ybit) = y.half_with_bit();
            let bit = xbit || ybit;
            let r2 = if bit {
                r.add(&p)
            } else {
                r.clone()
            };
            let p2 = p.add(&p);
            proof {
                lemma_half_abs(x@);
                lemma_half_abs(y@);
                assert(int_bit_or(x@, y@) == (if bit {
                    1int
                } else {
                    0int
                }) + 2 * int_bit_or(xq@, yq@));
                assert(r2@ + p2@ * int_bit_or(xq@, yq@) == r@ + p@ * int_bit_or(x@, y@))
                    by (nonlinear_arith)
                    requires
                        r2@ == r@ + (if bit {
                            p@
                        } else {
                            0int
                        }),
                        p2@ == p@ + p@,
                        int_bit_or(x@, y@) == (if bit {
                            1int
                        } else {
                            0int
                        }) + 2 * int_bit_or(xq@, yq@),
                ;
            }
            x = xq;
            y = yq;
            r = r2;
            p = p2;
            done = x.is_bit_fix_exec() && y.is_bit_fix_exec();
        }
        if x.is_zero() && y.is_zero() {
            proof {
                assert(int_bit_or(x@, y@) == 0);
                assert(p@ * 0int == 0) by (nonlinear_arith);
            }
            r
        } else {
            let out = r.sub(&p);
            proof {
                assert(int_bit_or(x@, y@) == -1);
                assert(p@ * (-1int) == -p@) by (nonlinear_arith);
            }
            out
        }
    }

    /// Bitwise XOR.
    pub fn bitxor(&self, other: &Self) -> (r: Self)
        requires
            self.wf(),
            other.wf(),
        ensures
            r.wf(),
            r@ == int_bit_xor(self@, other@),
    {
        let mut x = self.clone();
        let mut y = other.clone();
        let mut r = Self::zero();
        let mut p = Self::one();
        let mut done = x.is_bit_fix_exec() && y.is_bit_fix_exec();
        while !done
            invariant
                x.wf(),
                y.wf(),
                r.wf(),
                p.wf(),
                p@ >= 1,
                done == (is_bit_fix(x@) && is_bit_fix(y@)),
                r@ + p@ * int_bit_xor(x@, y@) == int_bit_xor(self@, other@),
            decreases abs_val(x@) + abs_val(y@),
        {
            let (xq, xbit) = x.half_with_bit();
            let (yq, ybit) = y.half_with_bit();
            let bit = xbit != ybit;
            let r2 = if bit {
                r.add(&p)
            } else {
                r.clone()
            };
            let p2 = p.add(&p);
            proof {
                lemma_half_abs(x@);
                lemma_half_abs(y@);
                assert(int_bit_xor(x@, y@) == (if bit {
                    1int
                } else {
                    0int
                }) + 2 * int_bit_xor(xq@, yq@));
                assert(r2@ + p2@ * int_bit_xor(xq@, yq@) == r@ + p@ * int_bit_xor(x@, y@))
                    by (nonlinear_arith)
                    requires
                        r2@ == r@ + (if bit {
                            p@
                        } else {
                            0int
                        }),
                        p2@ == p@ + p@,
                        int_bit_xor(x@, y@) == (if bit {
                            1int
                        } else {
                            0int
                        }) + 2 * int_bit_xor(xq@, yq@),
                ;
            }
            x = xq;
            y = yq;
            r = r2;
            p = p2;
            done = x.is_bit_fix_exec() && y.is_bit_fix_exec();
        }
        let same = (x.is_zero() && y.is_zero()) || (x.is_neg_one() && y.is_neg_one());
        if same {
            proof {
                assert(int_bit_xor(x@, y@) == 0);
                assert(p@ * 0int == 0) by (nonlinear_arith);
            }
            r
        } else {
            let out = r.sub(&p);
            proof {
                assert(int_bit_xor(x@, y@) == -1);
                assert(p@ * (-1int) == -p@) by (nonlinear_arith);
            }
            out
        }
    }

    /// Bitwise NOT in two's-complement reading: `!x == -(x + 1)`.
    pub fn not(&self) -> (r: Self)
        requires
            self.wf(),
        ensures
            r.wf(),
            r@ == -(self@ + 1),
    {
        self.add(&Self::one()).neg()
    }
}

} // verus!
