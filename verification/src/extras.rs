//! Derived queries on big integers: parity, bit length, power-of-two tests,
//! the round-half-to-even remainder, and the digit-width-independent hash.

#![verifier::loop_isolation(false)]

use vstd::arithmetic::div_mod::{
    lemma_fundamental_div_mod, lemma_fundamental_div_mod_converse, lemma_mod_multiples_basic,
    lemma_mod_multiples_vanish,
};
use vstd::arithmetic::power::pow;
use vstd::arithmetic::power2::{lemma2_to64, lemma2_to64_rest, lemma_pow2_adds, pow2};
use vstd::prelude::*;

use crate::big_int::{abs_val, lemma_p256_pow2, BigInt};
use crate::digits::{
    canonical, lemma_canonical_unique, lemma_mag_val_bound, lemma_mag_val_nonneg,
    lemma_mag_val_skip_unfold, lemma_mag_val_split, lemma_mag_val_zeros_above, mag_val, p256,
};

verus! {

/// Negating an integer keeps its parity (in the Euclidean reading of `%`).
pub proof fn lemma_neg_parity(x: int)
    ensures
        (-x) % 2 == x % 2,
{
    lemma_fundamental_div_mod(x, 2);
    if x % 2 == 0 {
        assert(-x == 2 * (-(x / 2))) by (nonlinear_arith)
            requires
                x == 2 * (x / 2),
        ;
        lemma_mod_multiples_basic(-(x / 2), 2);
        assert(-x == (-(x / 2)) * 2) by (nonlinear_arith)
            requires
                x == 2 * (x / 2),
        ;
    } else {
        assert(-x == (-(x / 2) - 1) * 2 + 1) by (nonlinear_arith)
            requires
                x == 2 * (x / 2) + 1,
        ;
        lemma_fundamental_div_mod_converse(-x, 2, -(x / 2) - 1, 1);
    }
}

impl BigInt {
    /// True exactly when the value is odd.
    pub fn is_odd(&self) -> (r: bool)
        requires
            self.wf(),
        ensures
            r == (self@ % 2 == 1),
    {
        proof {
            self.lemma_abs_view();
            lemma_mag_val_skip_unfold(self.digits@, 0);
            lemma_mag_val_nonneg(self.digits@.skip(1));
            let d0 = self.digits@[0] as int;
            let rest = mag_val(self.digits@.skip(1));
            assert(mag_val(self.digits@) == 2 * (128 * rest) + d0) by (nonlinear_arith)
                requires
                    mag_val(self.digits@) == d0 + 256 * rest,
            ;
            lemma_mod_multiples_vanish(128 * rest, d0, 2);
            lemma_fundamental_div_mod(d0, 2);
            assert(mag_val(self.digits@) % 2 == d0 % 2);
            lemma_neg_parity(mag_val(self.digits@));
            if self.sign == 1 {
                assert(self@ == mag_val(self.digits@));
            } else if self.sign == -1 {
                assert(self@ == -mag_val(self.digits@));
            } else {
                assert(self@ == 0 * mag_val(self.digits@));
            }
        }
        self.digits[0] % 2 == 1
    }

    /// True exactly when the value is even.
    pub fn is_even(&self) -> (r: bool)
        requires
            self.wf(),
        ensures
            r == (self@ % 2 == 0),
    {
        proof {
            vstd::arithmetic::div_mod::lemma_mod_bound(self@, 2);
        }
        !self.is_odd()
    }
}

/// The remainder of `a` by `d` rounded to the nearest multiple of `d`, ties
/// going to the even Euclidean quotient: the adjusted remainder `a - n*d`
/// where `n` is the multiple of `d` nearest to `a`.
pub open spec fn rem_to_near(a: int, d: int) -> int
    recommends
        d != 0,
{
    let r0 = a % abs_val(d);
    let qm = (a - r0) / abs_val(d);
    if (d > 0 && 2 * r0 > d) || (d < 0 && 2 * r0 < d) || (2 * r0 == d && qm % 2 == 1) {
        r0 - d
    } else {
        r0
    }
}

impl BigInt {
    /// Remainder rounded to the nearest multiple of the divisor, ties to the
    /// even quotient; `None` exactly on a zero divisor.
    pub fn checked_rem_to_near(&self, divisor: &Self) -> (res: Option<Self>)
        requires
            self.wf(),
            divisor.wf(),
        ensures
            (res is None) <==> divisor@ == 0,
            res matches Some(r) ==> r.wf() && r@ == rem_to_near(self@, divisor@),
    {
        let (q, r) = match self.checked_div_rem_euclid(divisor) {
            Some(p) => p,
            None => {
                return None;
            },
        };
        proof {
            let m = abs_val(divisor@);
            crate::big_int::lemma_sgn_abs(divisor@);
            assert(self@ == (q@ * crate::big_int::sgn(divisor@)) * m + r@) by (nonlinear_arith)
                requires
                    self@ == q@ * divisor@ + r@,
                    divisor@ == crate::big_int::sgn(divisor@) * m,
            ;
            vstd::arithmetic::div_mod::lemma_fundamental_div_mod_converse(
                self@,
                m,
                q@ * crate::big_int::sgn(divisor@),
                r@,
            );
            // The Euclidean quotient against |d| is q or -q; parity matches.
            let qm = (self@ - self@ % m) / m;
            assert((self@ - self@ % m) == (q@ * crate::big_int::sgn(divisor@)) * m);
            vstd::arithmetic::div_mod::lemma_fundamental_div_mod_converse(
                self@ - self@ % m,
                m,
                q@ * crate::big_int::sgn(divisor@),
                0,
            );
            assert(qm == q@ * crate::big_int::sgn(divisor@));
            if divisor@ < 0 {
                assert(qm == -q@) by (nonlinear_arith)
                    requires
                        qm == q@ * crate::big_int::sgn(divisor@),
                        crate::big_int::sgn(divisor@) == -1,
                ;
                lemma_neg_parity(q@);
            } else {
                assert(qm == q@ * 1int);
            }
            assert(qm % 2 == q@ % 2);
        }
        let double = r.add(&r);
        let greater_than_half = if divisor.is_positive() {
            double.gt(divisor)
        } else {
            double.lt(divisor)
        };
        let exactly_half = double.cmp(divisor) == 0;
        if greater_than_half || (exactly_half && q.is_odd()) {
            Some(r.sub(divisor))
        } else {
            Some(r)
        }
    }
}

/// A digit sequence of `q` zeros followed by a single digit `d`.
pub open spec fn zeros_then(q: nat, d: u8) -> Seq<u8> {
    Seq::new(
        (q + 1) as nat,
        |i: int|
            if i < q {
                0u8
            } else {
                d
            },
    )
}

pub proof fn lemma_zeros_then_val(q: nat, d: u8)
    ensures
        mag_val(zeros_then(q, d)) == p256(q) * d,
        canonical(zeros_then(q, d)) <==> (d != 0 || q == 0),
    decreases q,
{
    let s = zeros_then(q, d);
    if q == 0 {
        assert(s.skip(1) =~= Seq::<u8>::empty());
        assert(mag_val(s.skip(1)) == 0);
        assert(mag_val(s) == d);
        assert(p256(0) * d == 1 * d);
    } else {
        assert(s.skip(1) =~= zeros_then((q - 1) as nat, d));
        lemma_zeros_then_val((q - 1) as nat, d);
        assert(s[0] == 0);
        assert(mag_val(s) == 256 * (p256((q - 1) as nat) * d));
        assert(256 * (p256((q - 1) as nat) * d) == (256 * p256((q - 1) as nat)) * d)
            by (nonlinear_arith);
        assert(p256(q) == 256 * p256((q - 1) as nat));
    }
}

/// A digit is a power of two exactly when it is one of the eight bit values.
fn digit_is_pow2(d: u8) -> (r: bool)
    ensures
        r == exists|b: nat| b < 8 && d == pow2(b),
{
    proof {
        lemma2_to64();
    }
    let r = match d {
        1 | 2 | 4 | 8 | 16 | 32 | 64 | 128 => true,
        _ => false,
    };
    proof {
        if r {
            if d == 1 {
                assert(d == pow2(0));
            } else if d == 2 {
                assert(d == pow2(1));
            } else if d == 4 {
                assert(d == pow2(2));
            } else if d == 8 {
                assert(d == pow2(3));
            } else if d == 16 {
                assert(d == pow2(4));
            } else if d == 32 {
                assert(d == pow2(5));
            } else if d == 64 {
                assert(d == pow2(6));
            } else {
                assert(d == pow2(7));
            }
        } else {
            assert forall|b: nat| b < 8 implies d != pow2(b) by {
                assert(pow2(0) == 1 && pow2(1) == 2 && pow2(2) == 4 && pow2(3) == 8 && pow2(4)
                    == 16 && pow2(5) == 32 && pow2(6) == 64 && pow2(7) == 128);
            }
        }
    }
    r
}

impl BigInt {
    /// True exactly when the value is a positive power of two.
    pub fn is_power_of_two(&self) -> (r: bool)
        requires
            self.wf(),
        ensures
            r == vstd::arithmetic::power2::is_pow2(self@),
    {
        proof {
            self.lemma_abs_view();
            vstd::arithmetic::power2::is_pow2_equiv(self@);
        }
        if !self.is_positive() {
            proof {
                if vstd::arithmetic::power2::is_pow2_exists(self@) {
                    let i = choose|i: nat| pow(2, i) == self@;
                    vstd::arithmetic::power::lemma_pow_positive(2, i);
                }
            }
            return false;
        }
        let n = self.digits.len();
        let mut low_zero = true;
        let mut i: usize = 0;
        while i < n - 1
            invariant
                i <= n - 1,
                n == self.digits@.len(),
                self.wf(),
                low_zero == (forall|j: int| 0 <= j < i ==> self.digits@[j] == 0),
            decreases n - 1 - i,
        {
            if self.digits[i] != 0 {
                low_zero = false;
            }
            i = i + 1;
        }
        let top = self.digits[n - 1];
        let top_pow = digit_is_pow2(top);
        let r = low_zero && top_pow;
        proof {
            let s = self.digits@;
            if r {
                // The digits are exactly zeros below a one-bit top digit.
                let b = choose|b: nat| b < 8 && top == pow2(b);
                assert(s =~= zeros_then((n - 1) as nat, top));
                lemma_zeros_then_val((n - 1) as nat, top);
                lemma_p256_pow2((n - 1) as nat);
                lemma_pow2_adds((8 * (n - 1)) as nat, b);
                assert(mag_val(s) == pow2((8 * (n - 1)) as nat) * pow2(b)) by (nonlinear_arith)
                    requires
                        mag_val(s) == p256((n - 1) as nat) * (top as int),
                        p256((n - 1) as nat) == pow2((8 * (n - 1)) as nat),
                        top == pow2(b),
                ;
                assert(self@ == 1 * mag_val(s));
                vstd::arithmetic::power2::lemma_pow2((8 * (n - 1) + b) as nat);
                assert(pow(2, (8 * (n - 1) + b) as nat) == self@);
                assert(vstd::arithmetic::power2::is_pow2_exists(self@));
            } else {
                // If the value were a power of two, uniqueness of canonical
                // form would force exactly that digit pattern.
                if vstd::arithmetic::power2::is_pow2_exists(self@) {
                    let i0 = choose|i0: nat| pow(2, i0) == self@;
                    vstd::arithmetic::power2::lemma_pow2(i0);
                    let qd: nat = i0 / 8;
                    let bd: nat = i0 % 8;
                    let t = zeros_then(qd, pow2(bd) as u8);
                    assert(pow2(bd) < 256) by {
                        lemma2_to64();
                        if bd == 0 {
                        } else if bd == 1 {
                        } else if bd == 2 {
                        } else if bd == 3 {
                        } else if bd == 4 {
                        } else if bd == 5 {
                        } else if bd == 6 {
                        } else {
                            assert(bd == 7);
                        }
                    }
                    lemma_zeros_then_val(qd, pow2(bd) as u8);
                    lemma_p256_pow2(qd);
                    lemma_pow2_adds((8 * qd) as nat, bd);
                    assert(8 * qd + bd == i0) by (nonlinear_arith)
                        requires
                            qd == i0 / 8,
                            bd == i0 % 8,
                            i0 == 8 * (i0 / 8) + i0 % 8,
                    ;
                    assert(mag_val(t) == pow2(i0)) by (nonlinear_arith)
                        requires
                            mag_val(t) == p256(qd) * (pow2(bd) as u8 as int),
                            p256(qd) == pow2((8 * qd) as nat),
                            pow2(bd) < 256,
                            pow2(i0) == pow2((8 * qd) as nat) * pow2(bd),
                    ;
                    vstd::arithmetic::power2::lemma_pow2_pos(bd);
                    assert(canonical(t));
                    assert(mag_val(s) == self@) by {
                        assert(self@ == 1 * mag_val(s));
                    }
                    lemma_canonical_unique(s, t);
                    assert(s.len() == qd + 1);
                    assert(forall|j: int| 0 <= j < qd ==> s[j] == 0);
                    assert(top == pow2(bd));
                    assert(low_zero);
                    assert(top_pow);
                    assert(false);
                }
            }
        }
        r
    }

    /// Number of bits in the magnitude: 0 for zero, otherwise the unique `k`
    /// with `2^(k-1) <= |value| < 2^k`.
    pub fn bit_length(&self) -> (r: Self)
        requires
            self.wf(),
        ensures
            r.wf(),
            self@ == 0 ==> r@ == 0,
            self@ != 0 ==> r@ >= 1 && pow2((r@ - 1) as nat) <= abs_val(self@) < pow2(r@ as nat),
    {
        proof {
            self.lemma_abs_view();
        }
        if self.is_zero() {
            return Self::zero();
        }
        let n = self.digits.len();
        let top = self.digits[n - 1];
        proof {
            if top == 0 {
                assert(n > 1 ==> false);
                assert(mag_val(self.digits@) == self.digits@[0] + 256 * mag_val(
                    self.digits@.skip(1),
                ));
                assert(self.digits@.skip(1) =~= Seq::<u8>::empty());
                assert(mag_val(self.digits@) == 0);
            }
        }
        // Count the bits of the top digit.
        let mut v: u8 = top;
        let mut c: u64 = 0;
        proof {
            lemma2_to64();
        }
        while v > 0
            invariant
                c <= 8,
                v == top as int / (pow2(c as nat) as int),
                c > 0 ==> pow2((c - 1) as nat) <= top,
                top > 0,
            decreases v,
        {
            proof {
                vstd::arithmetic::power2::lemma_pow2_pos(c as nat);
                let p = pow2(c as nat) as int;
                vstd::arithmetic::div_mod::lemma_div_denominator(top as int, p, 2);
                vstd::arithmetic::power2::lemma_pow2_adds(c as nat, 1);
                lemma2_to64();
                assert(pow2((c + 1) as nat) == p * 2);
                lemma_fundamental_div_mod(top as int, p);
                assert(top >= p) by (nonlinear_arith)
                    requires
                        top as int == p * (top as int / p) + top as int % p,
                        top as int % p >= 0,
                        top as int / p >= 1,
                        p > 0,
                ;
                lemma_fundamental_div_mod(v as int, 2);
                assert(v as int / 2 < v) by (nonlinear_arith)
                    requires
                        v as int == 2 * (v as int / 2int) + v as int % 2int,
                        0 <= v as int % 2int < 2,
                        v >= 1,
                ;
                if c >= 8 {
                    lemma2_to64();
                    assert(pow2(8) <= pow2(c as nat)) by {
                        if c > 8 {
                            vstd::arithmetic::power2::lemma_pow2_strictly_increases(8, c as nat);
                        }
                    }
                    assert(top as int / p == 0) by {
                        vstd::arithmetic::div_mod::lemma_basic_div(top as int, p);
                    }
                    assert(false);
                }
            }
            v = v / 2;
            c = c + 1;
        }
        proof {
            // 2^(c-1) <= top < 2^c
            vstd::arithmetic::power2::lemma_pow2_pos(c as nat);
            lemma_fundamental_div_mod(top as int, pow2(c as nat) as int);
            assert(top < pow2(c as nat)) by (nonlinear_arith)
                requires
                    top as int == (pow2(c as nat) as int) * 0 + top as int % (pow2(
                        c as nat,
                    ) as int),
                    top as int % (pow2(c as nat) as int) < pow2(c as nat),
            ;
            assert(c >= 1);
            // Bound the whole magnitude by the top digit's bit range.
            let s = self.digits@;
            lemma_mag_val_split(s, n - 1);
            assert(s.skip(n - 1) =~= zeros_then(0, top));
            lemma_zeros_then_val(0, top);
            assert(mag_val(s.skip(n - 1)) == 1 * top);
            lemma_mag_val_bound(s.take(n - 1));
            lemma_mag_val_nonneg(s.take(n - 1));
            lemma_p256_pow2((n - 1) as nat);
            lemma_pow2_adds((8 * (n - 1)) as nat, (c - 1) as nat);
            lemma_pow2_adds((8 * (n - 1)) as nat, c as nat);
            let pn = p256((n - 1) as nat);
            assert(pn * pow2((c - 1) as nat) <= mag_val(s) && mag_val(s) < pn * pow2(c as nat))
                by (nonlinear_arith)
                requires
                    mag_val(s) == mag_val(s.take(n - 1)) + pn * (top as int),
                    0 <= mag_val(s.take(n - 1)) < pn,
                    pow2((c - 1) as nat) <= top as int,
                    top as int + 1 <= pow2(c as nat),
                    pn >= 1,
            ;
            assert(abs_val(self@) == mag_val(s));
        }
        // The bit length is 8*(n-1) + c, computed in exact arithmetic.
        let r = Self::from_u64((n as u64) - 1).mul(&Self::from_u64(8)).add(&Self::from_u64(c));
        proof {
            assert(r@ == 8 * (n - 1) + c);
            assert((8 * (n - 1) + c - 1) as nat == (8 * (n - 1)) as nat + (c - 1) as nat);
            assert((8 * (n - 1) + c) as nat == (8 * (n - 1)) as nat + c as nat);
        }
        r
    }
}

/// The hash modulus: the Mersenne prime 2^61 - 1.
pub const HASH_MODULUS: u64 = 0x1FFF_FFFF_FFFF_FFFF;

/// The hash of a big integer: the magnitude folded modulo 2^61 - 1, negated
/// by two's-complement wrap-around for negative values, with the all-ones
/// word remapped to avoid the host's reserved sentinel.
pub open spec fn hash_spec(x: int) -> int {
    let m = abs_val(x) % (HASH_MODULUS as int);
    if x >= 0 {
        m
    } else {
        let t = if m == 0 {
            0int
        } else {
            0x1_0000_0000_0000_0000 - m
        };
        if t == 0xFFFF_FFFF_FFFF_FFFF {
            0xFFFF_FFFF_FFFF_FFFE
        } else {
            t
        }
    }
}

/// One rotation step of the hash fold: for an accumulator below the modulus,
/// the rotated word splits `acc * 256` into its parts modulo 2^61 - 1.
proof fn lemma_hash_rotate(acc: u64)
    requires
        acc < 0x2000_0000_0000_0000,
    ensures
        (acc >> 53) < 256,
        ((acc << 8) & HASH_MODULUS) <= HASH_MODULUS,
        ((acc << 8) & HASH_MODULUS) | (acc >> 53) == ((acc << 8) & HASH_MODULUS) + (acc >> 53),
        acc * 256 == (acc >> 53) * 0x2000_0000_0000_0000 + ((acc << 8) & HASH_MODULUS),
{
    assert((acc >> 53) < 256 && ((acc << 8) & 0x1FFF_FFFF_FFFF_FFFFu64) <= 0x1FFF_FFFF_FFFF_FFFFu64
        && (((acc << 8) & 0x1FFF_FFFF_FFFF_FFFFu64) | (acc >> 53)) == ((acc << 8)
        & 0x1FFF_FFFF_FFFF_FFFFu64) + (acc >> 53) && (acc >> 53) == acc / 0x20_0000_0000_0000u64
        && ((acc << 8) & 0x1FFF_FFFF_FFFF_FFFFu64) == (acc % 0x20_0000_0000_0000u64) * 256)
        by (bit_vector)
        requires
            acc < 0x2000_0000_0000_0000u64,
    ;
    lemma_fundamental_div_mod(acc as int, 0x20_0000_0000_0000);
    assert(acc * 256 == (acc / 0x20_0000_0000_0000u64) * 0x2000_0000_0000_0000 + (acc
        % 0x20_0000_0000_0000u64) * 256) by (nonlinear_arith)
        requires
            acc as int == 0x20_0000_0000_0000 * (acc as int / 0x20_0000_0000_0000) + acc as int
                % 0x20_0000_0000_0000,
            acc as int / 0x20_0000_0000_0000 == acc / 0x20_0000_0000_0000u64,
            acc as int % 0x20_0000_0000_0000 == acc % 0x20_0000_0000_0000u64,
    ;
}

/// Folds a big integer into a machine word consistently with numeric
/// equality and independently of the digit width.
pub fn hash(value: &BigInt) -> (r: u64)
    requires
        value.wf(),
    ensures
        r == hash_spec(value@),
{
    proof {
        value.lemma_abs_view();
    }
    let n = value.digits.len();
    let mut result: u64 = 0;
    let mut i: usize = n;
    proof {
        assert(value.digits@.skip(n as int) =~= Seq::<u8>::empty());
        vstd::arithmetic::div_mod::lemma_small_mod(0, HASH_MODULUS as nat);
    }
    while i > 0
        invariant
            i <= n,
            n == value.digits@.len(),
            value.wf(),
            result < HASH_MODULUS,
            result == mag_val(value.digits@.skip(i as int)) % (HASH_MODULUS as int),
        decreases i,
    {
        i = i - 1;
        let d = value.digits[i];
        proof {
            lemma_hash_rotate(result);
            lemma_mag_val_skip_unfold(value.digits@, i as int);
            lemma_mag_val_nonneg(value.digits@.skip(i + 1));
            let prev = mag_val(value.digits@.skip(i + 1));
            let cur = mag_val(value.digits@.skip(i as int));
            let hm = HASH_MODULUS as int;
            // cur % hm == (256 * (prev % hm) + d) % hm
            vstd::arithmetic::div_mod::lemma_mul_mod_noop_right(256, prev, hm);
            vstd::arithmetic::div_mod::lemma_add_mod_noop(256 * prev, d as int, hm);
            vstd::arithmetic::div_mod::lemma_add_mod_noop(256 * (prev % hm), d as int, hm);
            vstd::arithmetic::div_mod::lemma_small_mod((d as nat), HASH_MODULUS as nat);
            assert(cur == 256 * prev + d) by (nonlinear_arith)
                requires
                    cur == d + 256 * prev,
            ;
            assert(cur % hm == (256 * (prev % hm) + d) % hm);
            // The rotation is exactly multiplication by 256 modulo hm.
            let rot = ((result << 8) & HASH_MODULUS) + (result >> 53);
            assert(result * 256 == hm * (result >> 53) + rot) by (nonlinear_arith)
                requires
                    result * 256 == (result >> 53) * (hm + 1) + ((result << 8) & HASH_MODULUS),
                    rot == ((result << 8) & HASH_MODULUS) + (result >> 53),
            ;
            assert((result * 256) % hm == rot % hm) by {
                lemma_mod_multiples_vanish((result >> 53) as int, rot as int, hm);
            }
        }
        let rotated = ((result << 8) & HASH_MODULUS) | (result >> 53);
        let mut next: u64 = rotated + (d as u64);
        proof {
            let hm = HASH_MODULUS as int;
            vstd::arithmetic::div_mod::lemma_mod_sub_multiples_vanish(next as int, hm);
            if next < HASH_MODULUS {
                vstd::arithmetic::div_mod::lemma_small_mod(next as nat, HASH_MODULUS as nat);
            } else {
                vstd::arithmetic::div_mod::lemma_small_mod(
                    (next - HASH_MODULUS) as nat,
                    HASH_MODULUS as nat,
                );
            }
        }
        if next >= HASH_MODULUS {
            next = next - HASH_MODULUS;
        }
        result = next;
    }
    proof {
        assert(value.digits@.skip(0) =~= value.digits@);
    }
    if value.is_negative() {
        if result == 0 {
            0
        } else {
            let t = (u64::MAX - result) + 1;
            if t == u64::MAX {
                u64::MAX - 1
            } else {
                t
            }
        }
    } else {
        result
    }
}

} // verus!
