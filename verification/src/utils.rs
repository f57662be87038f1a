//! Scalar helpers: the greatest-common-divisor theory shared by the value
//! types, machine-word GCD, and floor logarithms and powers.

#![verifier::loop_isolation(false)]

use vstd::arithmetic::div_mod::{
    lemma_add_mod_noop, lemma_div_denominator, lemma_div_pos_is_pos, lemma_fundamental_div_mod,
    lemma_mod_multiples_basic, lemma_mod_self_0, lemma_mul_mod_noop_right, lemma_small_mod,
};
use vstd::arithmetic::power::{lemma_pow0, lemma_pow1, lemma_pow_adds, lemma_pow_increases, pow};
use vstd::arithmetic::power2::{
    lemma2_to64, lemma2_to64_rest, lemma_pow2, lemma_pow2_strictly_increases, pow2,
};
use vstd::prelude::*;

verus! {

/// Greatest common divisor of two non-negative integers by the Euclidean
/// recursion; `gcd_int(a, 0) == a`.
pub open spec fn gcd_int(a: int, b: int) -> int
    recommends
        a >= 0,
        b >= 0,
    decreases b,
    when b >= 0
{
    if b <= 0 {
        a
    } else {
        gcd_int(b, a % b)
    }
}

/// `gcd(a, 0) == a` and `gcd(0, a) == a`.
pub proof fn lemma_gcd_zero(a: int)
    requires
        a >= 0,
    ensures
        gcd_int(a, 0) == a,
        gcd_int(0, a) == a,
{
    if a > 0 {
        lemma_small_mod(0, a as nat);
        assert(gcd_int(0, a) == gcd_int(a, 0int % a));
    }
}

/// The GCD of two non-negative numbers, not both zero, is positive.
pub proof fn lemma_gcd_pos(a: int, b: int)
    requires
        a >= 0,
        b >= 0,
        a > 0 || b > 0,
    ensures
        gcd_int(a, b) > 0,
    decreases b,
{
    if b > 0 {
        lemma_gcd_pos(b, a % b);
    }
}

/// The GCD is symmetric in its arguments.
pub proof fn lemma_gcd_comm(a: int, b: int)
    requires
        a >= 0,
        b >= 0,
    ensures
        gcd_int(a, b) == gcd_int(b, a),
{
    if a == 0 && b == 0 {
    } else if b == 0 {
        lemma_gcd_zero(a);
    } else if a == 0 {
        lemma_gcd_zero(b);
    } else if a < b {
        lemma_small_mod(a as nat, b as nat);
        assert(gcd_int(a, b) == gcd_int(b, a % b));
    } else if b < a {
        lemma_small_mod(b as nat, a as nat);
        assert(gcd_int(b, a) == gcd_int(a, b % a));
    } else {
        lemma_mod_self_0(a);
        assert(gcd_int(a, b) == gcd_int(b, 0));
        assert(gcd_int(b, a) == gcd_int(a, 0));
    }
}

/// A linear combination of two multiples of `g` is a multiple of `g`.
pub proof fn lemma_linear_combo_mod(m: int, x: int, y: int, g: int)
    requires
        g > 0,
        x % g == 0,
        y % g == 0,
    ensures
        (m * x + y) % g == 0,
{
    lemma_mul_mod_noop_right(m, x, g);
    assert(m * (x % g) == 0) by (nonlinear_arith)
        requires
            x % g == 0,
    ;
    lemma_small_mod(0, g as nat);
    assert((m * x) % g == 0);
    lemma_add_mod_noop(m * x, y, g);
}

/// The GCD divides both of its arguments.
pub proof fn lemma_gcd_divides(a: int, b: int)
    requires
        a >= 0,
        b >= 0,
        a > 0 || b > 0,
    ensures
        a % gcd_int(a, b) == 0,
        b % gcd_int(a, b) == 0,
    decreases b,
{
    lemma_gcd_pos(a, b);
    if b == 0 {
        if a > 0 {
            lemma_mod_self_0(a);
            lemma_small_mod(0, a as nat);
        }
    } else {
        let g = gcd_int(b, a % b);
        lemma_gcd_divides(b, a % b);
        lemma_fundamental_div_mod(a, b);
        lemma_linear_combo_mod(a / b, b, a % b, g);
        assert((a / b) * b == b * (a / b)) by (nonlinear_arith);
    }
}

/// Any positive common divisor of `a` and `b` divides their GCD.
pub proof fn lemma_common_divisor_divides_gcd(a: int, b: int, c: int)
    requires
        a >= 0,
        b >= 0,
        c > 0,
        a % c == 0,
        b % c == 0,
    ensures
        gcd_int(a, b) % c == 0,
    decreases b,
{
    if b == 0 {
    } else {
        lemma_fundamental_div_mod(a, b);
        assert(a % b == (-(a / b)) * b + a) by (nonlinear_arith)
            requires
                a == b * (a / b) + a % b,
        ;
        lemma_linear_combo_mod(-(a / b), b, a, c);
        lemma_common_divisor_divides_gcd(b, a % b, c);
    }
}

/// A positive divisor of a positive number is no larger than it.
pub proof fn lemma_divisor_le(x: int, d: int)
    requires
        x > 0,
        d > 0,
        x % d == 0,
    ensures
        d <= x,
{
    lemma_fundamental_div_mod(x, d);
    lemma_div_pos_is_pos(x, d);
    assert(d <= x) by (nonlinear_arith)
        requires
            x == d * (x / d),
            x > 0,
            d > 0,
            x / d >= 0,
    ;
}

/// A common factor scales the GCD: `gcd(k*a, k*b) == k * gcd(a, b)`.
pub proof fn lemma_gcd_scale(k: int, a: int, b: int)
    requires
        k > 0,
        a >= 0,
        b >= 0,
    ensures
        gcd_int(k * a, k * b) == k * gcd_int(a, b),
    decreases b,
{
    if b == 0 {
        assert(k * b == 0) by (nonlinear_arith)
            requires
                b == 0,
        ;
    } else {
        vstd::arithmetic::div_mod::lemma_truncate_middle(a, k, b);
        assert(k * b > 0) by (nonlinear_arith)
            requires
                k > 0,
                b > 0,
        ;
        assert(k * a >= 0) by (nonlinear_arith)
            requires
                k > 0,
                a >= 0,
        ;
        lemma_gcd_scale(k, b, a % b);
        assert(gcd_int(k * a, k * b) == gcd_int(k * b, (k * a) % (k * b)));
    }
}

/// Euclid's lemma for coprime factors: if `a` divides `b * c` and is coprime
/// with `b`, it divides `c`.
pub proof fn lemma_coprime_divides(a: int, b: int, c: int)
    requires
        a > 0,
        b >= 0,
        c >= 0,
        gcd_int(a, b) == 1,
        (b * c) % a == 0,
    ensures
        c % a == 0,
{
    if c == 0 {
        lemma_small_mod(0, a as nat);
    } else {
        lemma_gcd_scale(c, a, b);
        assert(c * 1 == c) by (nonlinear_arith);
        lemma_mod_multiples_basic(c, a);
        assert(c * a == a * c && c * b == b * c) by (nonlinear_arith);
        assert((c * a) % a == 0);
        assert((c * b) % a == 0);
        assert(c * a >= 0 && c * b >= 0) by (nonlinear_arith)
            requires
                a > 0,
                b >= 0,
                c > 0,
        ;
        lemma_common_divisor_divides_gcd(c * a, c * b, a);
    }
}

/// Modular inverses are unique: two residues with the same product residue
/// against an invertible element are equal.  This pins the result of a
/// modular exponentiation with a negative exponent.
pub proof fn lemma_mod_inverse_unique(a: int, m: int, r1: int, r2: int)
    requires
        m > 0,
        a >= 0,
        gcd_int(m, a % m) == 1,
        0 <= r1 < m,
        0 <= r2 < m,
        (r1 * a) % m == (r2 * a) % m,
    ensures
        r1 == r2,
{
    let a1 = a % m;
    vstd::arithmetic::div_mod::lemma_mod_bound(a, m);
    vstd::arithmetic::div_mod::lemma_mul_mod_noop_right(r1, a, m);
    vstd::arithmetic::div_mod::lemma_mul_mod_noop_right(r2, a, m);
    assert((r1 * a1) % m == (r2 * a1) % m);
    if r1 >= r2 {
        lemma_mod_inverse_unique_ordered(a1, m, r1, r2);
    } else {
        lemma_mod_inverse_unique_ordered(a1, m, r2, r1);
    }
}

proof fn lemma_mod_inverse_unique_ordered(a1: int, m: int, r1: int, r2: int)
    requires
        m > 0,
        0 <= a1 < m,
        gcd_int(m, a1) == 1,
        0 <= r2 <= r1 < m,
        (r1 * a1) % m == (r2 * a1) % m,
    ensures
        r1 == r2,
{
    let d = r1 - r2;
    vstd::arithmetic::div_mod::lemma_mod_equivalence(r1 * a1, r2 * a1, m);
    assert(a1 * d == r1 * a1 - r2 * a1) by (nonlinear_arith)
        requires
            d == r1 - r2,
    ;
    lemma_coprime_divides(m, a1, d);
    lemma_small_mod(d as nat, m as nat);
}

/// Dividing two numbers by their GCD leaves coprime quotients.
pub proof fn lemma_gcd_quotients_coprime(a: int, b: int)
    requires
        a >= 0,
        b >= 0,
        a > 0 || b > 0,
    ensures
        gcd_int(a / gcd_int(a, b), b / gcd_int(a, b)) == 1,
{
    let g = gcd_int(a, b);
    lemma_gcd_pos(a, b);
    lemma_gcd_divides(a, b);
    let a1 = a / g;
    let b1 = b / g;
    lemma_div_pos_is_pos(a, g);
    lemma_div_pos_is_pos(b, g);
    lemma_fundamental_div_mod(a, g);
    lemma_fundamental_div_mod(b, g);
    assert(a == g * a1 && b == g * b1);
    if a > 0 {
        assert(a1 > 0) by (nonlinear_arith)
            requires
                a == g * a1,
                a > 0,
                g > 0,
                a1 >= 0,
        ;
    } else {
        assert(b1 > 0) by (nonlinear_arith)
            requires
                b == g * b1,
                b > 0,
                g > 0,
                b1 >= 0,
        ;
    }
    let k = gcd_int(a1, b1);
    lemma_gcd_pos(a1, b1);
    lemma_gcd_divides(a1, b1);
    lemma_fundamental_div_mod(a1, k);
    lemma_fundamental_div_mod(b1, k);
    let gk = g * k;
    assert(gk > 0) by (nonlinear_arith)
        requires
            gk == g * k,
            g > 0,
            k > 0,
    ;
    assert(a == (a1 / k) * gk) by (nonlinear_arith)
        requires
            a == g * a1,
            a1 == k * (a1 / k),
            gk == g * k,
    ;
    assert(b == (b1 / k) * gk) by (nonlinear_arith)
        requires
            b == g * b1,
            b1 == k * (b1 / k),
            gk == g * k,
    ;
    lemma_mod_multiples_basic(a1 / k, gk);
    lemma_mod_multiples_basic(b1 / k, gk);
    lemma_common_divisor_divides_gcd(a, b, gk);
    lemma_divisor_le(g, gk);
    assert(k <= 1) by (nonlinear_arith)
        requires
            g * k <= g,
            g > 0,
            k > 0,
    ;
}

/// One step of exponentiation: `b^(e+1) == b * b^e`.
pub proof fn lemma_pow_succ(b: int, e: nat)
    ensures
        pow(b, e + 1) == b * pow(b, e),
{
    lemma_pow_adds(b, 1, e);
    lemma_pow1(b);
}

/// Euclid's algorithm on machine words.
pub fn gcd(first: u64, second: u64) -> (r: u64)
    ensures
        r == gcd_int(first as int, second as int),
{
    let mut a: u64 = first;
    let mut b: u64 = second;
    while b != 0
        invariant
            gcd_int(a as int, b as int) == gcd_int(first as int, second as int),
        decreases b,
    {
        let t: u64 = a % b;
        a = b;
        b = t;
    }
    a
}

/// Power of a machine word, proved free of overflow by its precondition.
pub fn power(base: usize, exponent: usize) -> (r: usize)
    requires
        pow(base as int, exponent as nat) <= usize::MAX,
    ensures
        r == pow(base as int, exponent as nat),
{
    let mut r: usize = 1;
    let mut k: usize = 0;
    proof {
        lemma_pow0(base as int);
    }
    while k < exponent
        invariant
            k <= exponent,
            r == pow(base as int, k as nat),
            pow(base as int, exponent as nat) <= usize::MAX,
        decreases exponent - k,
    {
        proof {
            lemma_pow_succ(base as int, k as nat);
            if base == 0 {
                assert(base * pow(base as int, k as nat) == 0) by (nonlinear_arith)
                    requires
                        base == 0,
                ;
                assert(pow(base as int, (k + 1) as nat) <= usize::MAX);
            } else {
                lemma_pow_increases(base as nat, (k + 1) as nat, exponent as nat);
            }
            assert(r * base == pow(base as int, (k + 1) as nat)) by (nonlinear_arith)
                requires
                    r == pow(base as int, k as nat),
                    pow(base as int, (k + 1) as nat) == base * pow(base as int, k as nat),
            ;
        }
        r = r * base;
        k = k + 1;
    }
    r
}

/// If a quotient is at least one, the divisor is at most the dividend.
proof fn lemma_quotient_bounds(value: int, base: int, l: nat)
    requires
        value >= 0,
        base >= 2,
        1 <= value / pow(base, l),
        value / pow(base, l) < base,
    ensures
        pow(base, l) <= value < pow(base, (l + 1) as nat),
{
    vstd::arithmetic::power::lemma_pow_positive(base, l);
    let p = pow(base, l);
    let v = value / p;
    lemma_fundamental_div_mod(value, p);
    lemma_pow_succ(base, l);
    assert(p <= value && value < base * p) by (nonlinear_arith)
        requires
            value == p * v + value % p,
            0 <= value % p < p,
            1 <= v < base,
            p >= 1,
    ;
}

/// Floor logarithm in an arbitrary base at least 2.  Fails exactly on a zero
/// value.
pub fn floor_log(value: usize, base: usize) -> (res: Result<usize, &'static str>)
    requires
        base >= 2,
    ensures
        (value == 0) <==> (res is Err),
        res matches Err(m) ==> m@ == "Logarithm of zero is undefined."@,
        res matches Ok(l) ==> pow(base as int, l as nat) <= value < pow(
            base as int,
            (l + 1) as nat,
        ),
{
    if value == 0 {
        return Err("Logarithm of zero is undefined.");
    }
    let mut v: usize = value;
    let mut l: usize = 0;
    proof {
        lemma_pow0(base as int);
        assert(value as int / 1 == value) by (nonlinear_arith);
    }
    while v >= base
        invariant
            base >= 2,
            1 <= v,
            l < 64,
            v == value as int / pow(base as int, l as nat),
            pow(base as int, l as nat) <= value,
        decreases v,
    {
        proof {
            let p = pow(base as int, l as nat);
            vstd::arithmetic::power::lemma_pow_positive(base as int, l as nat);
            lemma_div_denominator(value as int, p, base as int);
            lemma_pow_succ(base as int, l as nat);
            assert(pow(base as int, (l + 1) as nat) == p * base) by (nonlinear_arith)
                requires
                    pow(base as int, (l + 1) as nat) == base * p,
            ;
            // The new quotient is strictly smaller and still at least 1.
            lemma_fundamental_div_mod(v as int, base as int);
            assert(v as int / (base as int) < v && v as int / (base as int) >= 1) by (nonlinear_arith)
                requires
                    v as int == base * (v as int / (base as int)) + v as int % (base as int),
                    0 <= v as int % (base as int) < base,
                    v >= base,
                    base >= 2,
            ;
            // The next power still fits under the value.
            lemma_fundamental_div_mod(value as int, p * base);
            assert(p * base <= value) by (nonlinear_arith)
                requires
                    value as int == (p * base) * (value as int / (p * base)) + value as int % (p
                        * base),
                    0 <= value as int % (p * base),
                    value as int / (p * base) >= 1,
                    p * base > 0,
            ;
            // The exponent stays below the word size.
            assert(pow(base as int, (l + 1) as nat) <= value);
            lemma_pow2_bound((l + 1) as nat, base as int, value as int);
        }
        v = v / base;
        l = l + 1;
    }
    proof {
        lemma_quotient_bounds(value as int, base as int, l as nat);
    }
    Ok(l)
}

/// Powers of two grow no faster than powers of any base at least 2, which
/// bounds the exponent of any power that fits in a machine word.
proof fn lemma_pow2_bound(l: nat, base: int, value: int)
    requires
        base >= 2,
        pow(base, l) <= value,
        value <= usize::MAX,
    ensures
        l < 64,
{
    lemma_pow_base_monotone(2, base, l);
    lemma_pow2(l);
    if l >= 64 {
        assert(pow2(64) <= pow2(l)) by {
            if l > 64 {
                lemma_pow2_strictly_increases(64, l);
            }
        }
        lemma2_to64();
        lemma2_to64_rest();
        assert(false);
    }
}

/// Powers are monotone in the base.
proof fn lemma_pow_base_monotone(b1: int, b2: int, e: nat)
    requires
        1 <= b1 <= b2,
    ensures
        pow(b1, e) <= pow(b2, e),
    decreases e,
{
    if e == 0 {
        lemma_pow0(b1);
        lemma_pow0(b2);
    } else {
        lemma_pow_base_monotone(b1, b2, (e - 1) as nat);
        vstd::arithmetic::power::lemma_pow_positive(b1, (e - 1) as nat);
        lemma_pow_succ(b1, (e - 1) as nat);
        lemma_pow_succ(b2, (e - 1) as nat);
        assert(pow(b1, e) <= pow(b2, e)) by (nonlinear_arith)
            requires
                pow(b1, e) == b1 * pow(b1, (e - 1) as nat),
                pow(b2, e) == b2 * pow(b2, (e - 1) as nat),
                1 <= b1 <= b2,
                0 < pow(b1, (e - 1) as nat) <= pow(b2, (e - 1) as nat),
        ;
    }
}

/// Floor logarithm in base 2.  Fails exactly on a zero value.
pub fn floor_log2(value: u64) -> (res: Result<usize, &'static str>)
    ensures
        (value == 0) <==> (res is Err),
        res matches Err(m) ==> m@ == "Logarithm of zero is undefined."@,
        res matches Ok(l) ==> pow2(l as nat) <= value < pow2((l + 1) as nat),
{
    if value == 0 {
        return Err("Logarithm of zero is undefined.");
    }
    let mut v: u64 = value;
    let mut l: usize = 0;
    proof {
        lemma_pow2(0);
        lemma_pow0(2);
        assert(value as int / 1 == value) by (nonlinear_arith);
    }
    while v >= 2
        invariant
            1 <= v,
            l < 64,
            v == value as int / (pow2(l as nat) as int),
            pow2(l as nat) <= value,
        decreases v,
    {
        proof {
            let p = pow2(l as nat) as int;
            vstd::arithmetic::power2::lemma_pow2_pos(l as nat);
            lemma_div_denominator(value as int, p, 2);
            vstd::arithmetic::power2::lemma_pow2_adds(l as nat, 1);
            lemma_pow2(1);
            lemma_pow1(2);
            assert(pow2((l + 1) as nat) == p * 2);
            lemma_fundamental_div_mod(v as int, 2);
            assert(v as int / 2 < v && v as int / 2 >= 1) by (nonlinear_arith)
                requires
                    v as int == 2 * (v as int / 2int) + v as int % 2int,
                    0 <= v as int % 2int < 2,
                    v >= 2,
            ;
            lemma_fundamental_div_mod(value as int, p * 2);
            assert(p * 2 <= value) by (nonlinear_arith)
                requires
                    value as int == (p * 2) * (value as int / (p * 2)) + value as int % (p * 2),
                    0 <= value as int % (p * 2),
                    value as int / (p * 2) >= 1,
                    p * 2 > 0,
            ;
            if l + 1 >= 64 {
                assert(pow2(64) <= pow2((l + 1) as nat)) by {
                    if l + 1 > 64 {
                        lemma_pow2_strictly_increases(64, (l + 1) as nat);
                    }
                }
                lemma2_to64();
                lemma2_to64_rest();
            }
        }
        v = v / 2;
        l = l + 1;
    }
    proof {
        lemma_pow2(l as nat);
        lemma_pow2((l + 1) as nat);
        lemma_quotient_bounds(value as int, 2, l as nat);
    }
    Ok(l)
}

} // verus!
