//! The digit-sequence engine: pure algorithms on little-endian digit vectors.
//!
//! A magnitude is a `Vec<u8>` of digits in base 256, least significant digit
//! first.  The numeric value of a sequence is given by [`mag_val`]; canonical
//! form ([`canonical`]) forbids trailing (most-significant) zero digits, with
//! zero itself written as the single digit 0.  Every algorithm here is proved
//! against the value of its operand sequences.

#![verifier::loop_isolation(false)]

use vstd::prelude::*;

verus! {

/// 256 raised to the power `n`: the weight of the digit at position `n`.
pub open spec fn p256(n: nat) -> int
    decreases n,
{
    if n == 0 {
        1
    } else {
        256 * p256((n - 1) as nat)
    }
}

/// Value of a little-endian digit sequence in base 256.
pub open spec fn mag_val(s: Seq<u8>) -> int
    decreases s.len(),
{
    if s.len() == 0 {
        0
    } else {
        s[0] + 256 * mag_val(s.skip(1))
    }
}

/// Canonical form: non-empty, and no trailing zero digit unless the sequence
/// is exactly the single digit 0.
pub open spec fn canonical(s: Seq<u8>) -> bool {
    s.len() > 0 && (s.len() == 1 || s[s.len() - 1] != 0)
}

pub proof fn lemma_p256_pos(n: nat)
    ensures
        p256(n) >= 1,
    decreases n,
{
    if n > 0 {
        lemma_p256_pos((n - 1) as nat);
    }
}

pub proof fn lemma_p256_adds(m: nat, n: nat)
    ensures
        p256(m + n) == p256(m) * p256(n),
    decreases m,
{
    if m == 0 {
    } else {
        lemma_p256_adds((m - 1) as nat, n);
        assert(p256(m + n) == 256 * p256((m + n - 1) as nat));
        assert(p256(m) * p256(n) == (256 * p256((m - 1) as nat)) * p256(n));
        assert((256 * p256((m - 1) as nat)) * p256(n) == 256 * (p256((m - 1) as nat) * p256(n)))
            by (nonlinear_arith);
    }
}

pub proof fn lemma_p256_increases(m: nat, n: nat)
    requires
        m <= n,
    ensures
        p256(m) <= p256(n),
    decreases n,
{
    if m < n {
        lemma_p256_increases(m, (n - 1) as nat);
        lemma_p256_pos((n - 1) as nat);
    }
}

pub proof fn lemma_mag_val_nonneg(s: Seq<u8>)
    ensures
        mag_val(s) >= 0,
    decreases s.len(),
{
    if s.len() > 0 {
        lemma_mag_val_nonneg(s.skip(1));
    }
}

pub proof fn lemma_mag_val_bound(s: Seq<u8>)
    ensures
        0 <= mag_val(s) < p256(s.len()),
    decreases s.len(),
{
    if s.len() == 0 {
    } else {
        lemma_mag_val_bound(s.skip(1));
    }
}

/// Appending a digit at the most-significant end adds its weighted value.
pub proof fn lemma_mag_val_snoc(s: Seq<u8>, d: u8)
    ensures
        mag_val(s.push(d)) == mag_val(s) + d * p256(s.len()),
    decreases s.len(),
{
    if s.len() == 0 {
        assert(s.push(d)[0] == d);
        assert(s.push(d).skip(1) =~= Seq::<u8>::empty());
        assert(mag_val(Seq::<u8>::empty()) == 0);
        assert(mag_val(s.push(d)) == d);
        assert(mag_val(s) == 0);
        assert(p256(s.len()) == 1);
        assert(mag_val(s) + d * p256(s.len()) == d);
    } else {
        assert(s.push(d).skip(1) =~= s.skip(1).push(d));
        lemma_mag_val_snoc(s.skip(1), d);
        assert(s.push(d)[0] == s[0]);
        assert(mag_val(s.push(d)) == s[0] + 256 * (mag_val(s.skip(1)) + d * p256((s.len() - 1) as nat)));
        assert(256 * (mag_val(s.skip(1)) + d * p256((s.len() - 1) as nat))
            == 256 * mag_val(s.skip(1)) + d * (256 * p256((s.len() - 1) as nat))) by (nonlinear_arith);
        assert(p256(s.len()) == 256 * p256((s.len() - 1) as nat));
    }
}

/// The value of a prefix grows by the weighted next digit.
pub proof fn lemma_mag_val_take_succ(s: Seq<u8>, i: int)
    requires
        0 <= i < s.len(),
    ensures
        mag_val(s.take(i + 1)) == mag_val(s.take(i)) + s[i] * p256(i as nat),
{
    assert(s.take(i + 1) =~= s.take(i).push(s[i]));
    lemma_mag_val_snoc(s.take(i), s[i]);
}

/// A sequence's value splits at any position into a low part and a weighted
/// high part.
pub proof fn lemma_mag_val_split(s: Seq<u8>, i: int)
    requires
        0 <= i <= s.len(),
    ensures
        mag_val(s) == mag_val(s.take(i)) + p256(i as nat) * mag_val(s.skip(i)),
    decreases i,
{
    if i == 0 {
        assert(s.take(0) =~= Seq::<u8>::empty());
        assert(s.skip(0) =~= s);
    } else {
        lemma_mag_val_split(s, i - 1);
        lemma_mag_val_take_succ(s, i - 1);
        assert(s.skip(i - 1).len() == s.len() - i + 1);
        assert(s.skip(i - 1)[0] == s[i - 1]);
        assert(s.skip(i - 1).skip(1) =~= s.skip(i));
        assert(mag_val(s.skip(i - 1)) == s[i - 1] + 256 * mag_val(s.skip(i)));
        assert(p256((i - 1) as nat) * (s[i - 1] + 256 * mag_val(s.skip(i)))
            == p256((i - 1) as nat) * s[i - 1] + (256 * p256((i - 1) as nat)) * mag_val(s.skip(i)))
            by (nonlinear_arith);
        assert(p256(i as nat) == 256 * p256((i - 1) as nat));
        assert(s[i - 1] * p256((i - 1) as nat) == p256((i - 1) as nat) * s[i - 1]) by (nonlinear_arith);
    }
}

/// A canonical sequence of more than one digit reaches the weight of its top
/// position.
pub proof fn lemma_canonical_lower(s: Seq<u8>)
    requires
        canonical(s),
        s.len() > 1,
    ensures
        mag_val(s) >= p256((s.len() - 1) as nat),
{
    assert(s =~= s.take(s.len() - 1).push(s[s.len() - 1]));
    lemma_mag_val_snoc(s.take(s.len() - 1), s[s.len() - 1]);
    lemma_mag_val_nonneg(s.take(s.len() - 1));
    lemma_p256_pos((s.len() - 1) as nat);
    assert(s[s.len() - 1] * p256((s.len() - 1) as nat) >= 1 * p256((s.len() - 1) as nat))
        by (nonlinear_arith)
        requires
            s[s.len() - 1] >= 1,
            p256((s.len() - 1) as nat) >= 1,
    ;
}

/// Two sequences of equal length with equal value are equal.
pub proof fn lemma_mag_val_injective_same_len(s: Seq<u8>, t: Seq<u8>)
    requires
        s.len() == t.len(),
        mag_val(s) == mag_val(t),
    ensures
        s =~= t,
    decreases s.len(),
{
    if s.len() > 0 {
        lemma_mag_val_nonneg(s.skip(1));
        lemma_mag_val_nonneg(t.skip(1));
        assert(s[0] == t[0] && mag_val(s.skip(1)) == mag_val(t.skip(1)));
        lemma_mag_val_injective_same_len(s.skip(1), t.skip(1));
        assert(forall|i: int| 1 <= i < s.len() ==> s[i] == s.skip(1)[i - 1] && t[i] == t.skip(1)[i - 1]);
    }
}

/// Canonical form is a unique representation: equal values mean equal digit
/// sequences.
pub proof fn lemma_canonical_unique(s: Seq<u8>, t: Seq<u8>)
    requires
        canonical(s),
        canonical(t),
        mag_val(s) == mag_val(t),
    ensures
        s =~= t,
{
    if s.len() < t.len() {
        lemma_mag_val_bound(s);
        lemma_canonical_lower(t);
        lemma_p256_increases(s.len(), (t.len() - 1) as nat);
    } else if t.len() < s.len() {
        lemma_mag_val_bound(t);
        lemma_canonical_lower(s);
        lemma_p256_increases(t.len(), (s.len() - 1) as nat);
    } else {
        lemma_mag_val_injective_same_len(s, t);
    }
}

/// A canonical sequence whose value is zero is exactly the single digit 0,
/// and a value of zero forces every digit of any sequence to be zero.
pub proof fn lemma_mag_val_zero(s: Seq<u8>)
    requires
        mag_val(s) == 0,
    ensures
        forall|i: int| 0 <= i < s.len() ==> s[i] == 0,
    decreases s.len(),
{
    if s.len() > 0 {
        lemma_mag_val_nonneg(s.skip(1));
        lemma_mag_val_zero(s.skip(1));
        assert(forall|i: int| 1 <= i < s.len() ==> s[i] == s.skip(1)[i - 1]);
    }
}

/// Zero digits at and above position `i` contribute nothing to the value.
pub proof fn lemma_mag_val_zeros_above(s: Seq<u8>, i: int)
    requires
        0 <= i <= s.len(),
        forall|j: int| i <= j < s.len() ==> s[j] == 0,
    ensures
        mag_val(s.take(i)) == mag_val(s),
    decreases s.len() - i,
{
    if i < s.len() {
        lemma_mag_val_take_succ(s, i);
        lemma_mag_val_zeros_above(s, i + 1);
    } else {
        assert(s.take(i) =~= s);
    }
}

/// Removes trailing zero digits, restoring canonical form without changing
/// the value.
pub fn trim(v: &mut Vec<u8>)
    ensures
        canonical(final(v)@),
        mag_val(final(v)@) == mag_val(old(v)@),
{
    if v.len() == 0 {
        v.push(0);
        proof {
            assert(old(v)@.len() == 0);
            assert(mag_val(old(v)@) == 0);
            assert(v@ =~= seq![0u8]);
            assert(v@.skip(1) =~= Seq::<u8>::empty());
            assert(mag_val(v@.skip(1)) == 0);
            assert(mag_val(v@) == 0);
        }
        return;
    }
    let mut n: usize = v.len();
    while n > 1 && v[n - 1] == 0
        invariant
            1 <= n <= v@.len(),
            forall|j: int| n <= j < v@.len() ==> v@[j] == 0,
        decreases n,
    {
        n = n - 1;
    }
    proof {
        lemma_mag_val_zeros_above(v@, n as int);
    }
    v.truncate(n);
}

/// Largest of two lengths.
fn max_len(a: usize, b: usize) -> (r: usize)
    ensures
        r == if a >= b { a } else { b },
{
    if a >= b {
        a
    } else {
        b
    }
}

/// Value of the digits of `s` strictly below position `i`, reading positions
/// past the end of the sequence as zero.
pub open spec fn lowv(s: Seq<u8>, i: int) -> int {
    if i <= s.len() {
        mag_val(s.take(i))
    } else {
        mag_val(s)
    }
}

/// Digit of `s` at position `i`, zero past the end.
pub open spec fn digit_at(s: Seq<u8>, i: int) -> u8 {
    if 0 <= i < s.len() {
        s[i]
    } else {
        0
    }
}

pub proof fn lemma_lowv_succ(s: Seq<u8>, i: int)
    requires
        0 <= i,
    ensures
        lowv(s, i + 1) == lowv(s, i) + digit_at(s, i) * p256(i as nat),
{
    if i < s.len() {
        lemma_mag_val_take_succ(s, i);
    } else {
        if i == s.len() {
            assert(s.take(i) =~= s);
        }
    }
}

/// With equal lengths, equal digits above position `i` and a smaller digit at
/// `i`, the whole value is smaller.
pub proof fn lemma_lex_lt(s: Seq<u8>, t: Seq<u8>, i: int)
    requires
        s.len() == t.len(),
        0 <= i < s.len(),
        forall|j: int| i < j < s.len() ==> s[j] == t[j],
        s[i] < t[i],
    ensures
        mag_val(s) < mag_val(t),
{
    lemma_mag_val_split(s, i + 1);
    lemma_mag_val_split(t, i + 1);
    assert(s.skip(i + 1) =~= t.skip(i + 1));
    lemma_mag_val_take_succ(s, i);
    lemma_mag_val_take_succ(t, i);
    lemma_mag_val_bound(s.take(i));
    lemma_mag_val_nonneg(t.take(i));
    lemma_p256_pos(i as nat);
    assert(mag_val(s.take(i)) + s[i] * p256(i as nat) < mag_val(t.take(i)) + t[i] * p256(i as nat))
        by (nonlinear_arith)
        requires
            mag_val(s.take(i)) < p256(i as nat),
            mag_val(t.take(i)) >= 0,
            s[i] < t[i],
            p256(i as nat) >= 1,
    ;
}

/// A canonical sequence with a value no larger than another's is no longer.
pub proof fn lemma_canonical_len_le(s: Seq<u8>, t: Seq<u8>)
    requires
        canonical(s),
        canonical(t),
        mag_val(s) <= mag_val(t),
    ensures
        s.len() <= t.len(),
{
    if s.len() > t.len() {
        lemma_canonical_lower(s);
        lemma_mag_val_bound(t);
        lemma_p256_increases(t.len(), (s.len() - 1) as nat);
    }
}

/// Compares two canonical magnitudes; -1, 0 and 1 mean smaller, equal and
/// greater.
pub fn cmp_mag(a: &Vec<u8>, b: &Vec<u8>) -> (r: i8)
    requires
        canonical(a@),
        canonical(b@),
    ensures
        r == -1 || r == 0 || r == 1,
        (r == -1) <==> mag_val(a@) < mag_val(b@),
        (r == 0) <==> mag_val(a@) == mag_val(b@),
        (r == 1) <==> mag_val(a@) > mag_val(b@),
{
    let la = a.len();
    let lb = b.len();
    if la < lb {
        proof {
            lemma_mag_val_bound(a@);
            lemma_canonical_lower(b@);
            lemma_p256_increases(la as nat, (lb - 1) as nat);
        }
        return -1;
    }
    if la > lb {
        proof {
            lemma_mag_val_bound(b@);
            lemma_canonical_lower(a@);
            lemma_p256_increases(lb as nat, (la - 1) as nat);
        }
        return 1;
    }
    let mut i: usize = la;
    while i > 0
        invariant
            i <= la,
            forall|j: int| i <= j < la ==> a@[j] == b@[j],
        decreases i,
    {
        i = i - 1;
        if a[i] < b[i] {
            proof {
                lemma_lex_lt(a@, b@, i as int);
            }
            return -1;
        }
        if a[i] > b[i] {
            proof {
                lemma_lex_lt(b@, a@, i as int);
            }
            return 1;
        }
    }
    proof {
        assert(a@ =~= b@);
    }
    0
}

/// Subtracts a smaller magnitude from a larger one with borrow propagation;
/// the result is canonical.
pub fn sub_mag(a: &Vec<u8>, b: &Vec<u8>) -> (r: Vec<u8>)
    requires
        canonical(a@),
        canonical(b@),
        mag_val(b@) <= mag_val(a@),
    ensures
        canonical(r@),
        mag_val(r@) == mag_val(a@) - mag_val(b@),
{
    let la = a.len();
    let lb = b.len();
    proof {
        lemma_canonical_len_le(b@, a@);
    }
    let mut r: Vec<u8> = Vec::new();
    let mut borrow: u16 = 0;
    let mut i: usize = 0;
    proof {
        assert(a@.take(0) =~= Seq::<u8>::empty());
        assert(b@.take(0) =~= Seq::<u8>::empty());
    }
    while i < la
        invariant
            i <= la,
            borrow <= 1,
            r@.len() == i,
            mag_val(r@) == lowv(a@, i as int) - lowv(b@, i as int) + borrow * p256(i as nat),
        decreases la - i,
    {
        let db: u16 = if i < lb {
            b[i] as u16
        } else {
            0
        };
        let sum: u16 = 256 + (a[i] as u16) - db - borrow;
        let dig: u8 = (sum % 256) as u8;
        let new_borrow: u16 = if sum < 256 {
            1
        } else {
            0
        };
        proof {
            lemma_mag_val_snoc(r@, dig);
            lemma_lowv_succ(a@, i as int);
            lemma_lowv_succ(b@, i as int);
            assert(mag_val(r@.push(dig))
                == lowv(a@, i + 1) - lowv(b@, i + 1) + new_borrow * p256((i + 1) as nat))
                by (nonlinear_arith)
                requires
                    mag_val(r@.push(dig)) == mag_val(r@) + dig * p256(i as nat),
                    mag_val(r@) == lowv(a@, i as int) - lowv(b@, i as int) + borrow * p256(i as nat),
                    lowv(a@, i + 1) == lowv(a@, i as int) + digit_at(a@, i as int) * p256(i as nat),
                    lowv(b@, i + 1) == lowv(b@, i as int) + digit_at(b@, i as int) * p256(i as nat),
                    p256((i + 1) as nat) == 256 * p256(i as nat),
                    digit_at(a@, i as int) - digit_at(b@, i as int) - borrow == dig - 256 * new_borrow,
            ;
        }
        r.push(dig);
        borrow = new_borrow;
        i = i + 1;
    }
    proof {
        assert(a@.take(la as int) =~= a@);
        if lb >= la {
            assert(b@.take(la as int) =~= b@);
        }
        assert(lowv(a@, la as int) == mag_val(a@));
        assert(lowv(b@, la as int) == mag_val(b@));
        if borrow == 1 {
            lemma_mag_val_bound(r@);
            assert(1 * p256(la as nat) == p256(la as nat));
            assert(false);
        }
        assert(borrow * p256(la as nat) == 0) by (nonlinear_arith)
            requires
                borrow == 0,
        ;
    }
    trim(&mut r);
    r
}

/// Adds two magnitudes with carry propagation; the result is canonical.
pub fn add_mag(a: &Vec<u8>, b: &Vec<u8>) -> (r: Vec<u8>)
    ensures
        canonical(r@),
        mag_val(r@) == mag_val(a@) + mag_val(b@),
{
    let la = a.len();
    let lb = b.len();
    let n = max_len(la, lb);
    let mut r: Vec<u8> = Vec::new();
    let mut carry: u16 = 0;
    let mut i: usize = 0;
    proof {
        assert(r@.take(0) =~= Seq::<u8>::empty());
        assert(a@.take(0) =~= Seq::<u8>::empty());
        assert(b@.take(0) =~= Seq::<u8>::empty());
    }
    while i < n
        invariant
            i <= n,
            carry <= 1,
            r@.len() == i,
            mag_val(r@) + carry * p256(i as nat) == lowv(a@, i as int) + lowv(b@, i as int),
        decreases n - i,
    {
        let da: u16 = if i < la {
            a[i] as u16
        } else {
            0
        };
        let db: u16 = if i < lb {
            b[i] as u16
        } else {
            0
        };
        let sum: u16 = da + db + carry;
        let dig: u8 = (sum % 256) as u8;
        proof {
            lemma_mag_val_snoc(r@, dig);
            lemma_lowv_succ(a@, i as int);
            lemma_lowv_succ(b@, i as int);
            assert(sum == dig + 256 * (sum / 256));
            assert(p256((i + 1) as nat) == 256 * p256(i as nat));
            assert(mag_val(r@.push(dig)) + (sum / 256) * p256((i + 1) as nat)
                == mag_val(r@) + carry * p256(i as nat)
                    + digit_at(a@, i as int) * p256(i as nat)
                    + digit_at(b@, i as int) * p256(i as nat)) by (nonlinear_arith)
                requires
                    mag_val(r@.push(dig)) == mag_val(r@) + dig * p256(i as nat),
                    p256((i + 1) as nat) == 256 * p256(i as nat),
                    sum == dig + 256 * (sum / 256),
                    sum == digit_at(a@, i as int) + digit_at(b@, i as int) + carry,
            ;
        }
        r.push(dig);
        carry = sum / 256;
        i = i + 1;
    }
    proof {
        if la >= n {
            assert(a@.take(n as int) =~= a@);
        }
        if lb >= n {
            assert(b@.take(n as int) =~= b@);
        }
        assert(lowv(a@, n as int) == mag_val(a@));
        assert(lowv(b@, n as int) == mag_val(b@));
    }
    if carry > 0 {
        let c: u8 = carry as u8;
        proof {
            lemma_mag_val_snoc(r@, c);
            assert(c * p256(n as nat) == carry * p256(n as nat));
        }
        r.push(c);
        proof {
            assert(mag_val(r@) == mag_val(a@) + mag_val(b@));
        }
    } else {
        proof {
            assert(carry * p256(n as nat) == 0) by (nonlinear_arith)
                requires
                    carry == 0,
            ;
            assert(mag_val(r@) == mag_val(a@) + mag_val(b@));
        }
    }
    trim(&mut r);
    r
}

/// A one-digit magnitude.
pub fn single(d: u8) -> (r: Vec<u8>)
    ensures
        canonical(r@),
        mag_val(r@) == d,
{
    let mut r: Vec<u8> = Vec::new();
    r.push(d);
    proof {
        assert(r@ =~= seq![d]);
        assert(r@.skip(1) =~= Seq::<u8>::empty());
        assert(mag_val(r@.skip(1)) == 0);
        assert(mag_val(r@) == d);
    }
    r
}

/// Multiplies a magnitude by a single digit.
pub fn mul_small(a: &Vec<u8>, m: u8) -> (r: Vec<u8>)
    ensures
        canonical(r@),
        mag_val(r@) == mag_val(a@) * m,
{
    let la = a.len();
    let mut r: Vec<u8> = Vec::new();
    let mut carry: u32 = 0;
    let mut i: usize = 0;
    proof {
        assert(a@.take(0) =~= Seq::<u8>::empty());
        assert(mag_val(a@.take(0)) * m == 0) by (nonlinear_arith)
            requires
                mag_val(a@.take(0)) == 0,
        ;
    }
    while i < la
        invariant
            i <= la,
            carry <= 255,
            r@.len() == i,
            mag_val(r@) + carry * p256(i as nat) == mag_val(a@.take(i as int)) * m,
        decreases la - i,
    {
        proof {
            assert((a@[i as int] as int) * (m as int) <= 255 * 255) by (nonlinear_arith)
                requires
                    a@[i as int] <= 255,
                    m <= 255,
            ;
        }
        let cur: u32 = (a[i] as u32) * (m as u32) + carry;
        let dig: u8 = (cur % 256) as u8;
        proof {
            lemma_mag_val_snoc(r@, dig);
            lemma_mag_val_take_succ(a@, i as int);
            assert(mag_val(r@.push(dig)) + (cur / 256) * p256((i + 1) as nat)
                == mag_val(a@.take(i + 1)) * m) by (nonlinear_arith)
                requires
                    mag_val(r@.push(dig)) == mag_val(r@) + dig * p256(i as nat),
                    mag_val(r@) + carry * p256(i as nat) == mag_val(a@.take(i as int)) * m,
                    mag_val(a@.take(i + 1)) == mag_val(a@.take(i as int)) + a@[i as int] * p256(i as nat),
                    p256((i + 1) as nat) == 256 * p256(i as nat),
                    cur == dig + 256 * (cur / 256),
                    cur == a@[i as int] * m + carry,
            ;
        }
        r.push(dig);
        carry = cur / 256;
        i = i + 1;
    }
    proof {
        assert(a@.take(la as int) =~= a@);
    }
    if carry > 0 {
        let c: u8 = carry as u8;
        proof {
            lemma_mag_val_snoc(r@, c);
        }
        r.push(c);
    } else {
        proof {
            assert(carry * p256(la as nat) == 0) by (nonlinear_arith)
                requires
                    carry == 0,
            ;
        }
    }
    trim(&mut r);
    r
}

/// Shifts a magnitude up by `k` whole digits, multiplying it by 256^k.
pub fn shift_up(v: &Vec<u8>, k: usize) -> (r: Vec<u8>)
    ensures
        mag_val(r@) == p256(k as nat) * mag_val(v@),
        r@.len() == k + v@.len(),
{
    let mut r: Vec<u8> = Vec::new();
    let mut i: usize = 0;
    while i < k
        invariant
            i <= k,
            r@.len() == i,
            mag_val(r@) == 0,
        decreases k - i,
    {
        proof {
            lemma_mag_val_snoc(r@, 0u8);
        }
        r.push(0);
        i = i + 1;
    }
    let lv = v.len();
    let mut j: usize = 0;
    proof {
        assert(v@.take(0) =~= Seq::<u8>::empty());
        assert(p256(k as nat) * mag_val(v@.take(0)) == 0) by (nonlinear_arith)
            requires
                mag_val(v@.take(0)) == 0,
        ;
    }
    while j < lv
        invariant
            j <= lv,
            r@.len() == k + j,
            mag_val(r@) == p256(k as nat) * mag_val(v@.take(j as int)),
        decreases lv - j,
    {
        let d: u8 = v[j];
        proof {
            lemma_mag_val_snoc(r@, d);
            lemma_mag_val_take_succ(v@, j as int);
            lemma_p256_adds(k as nat, j as nat);
            assert(mag_val(r@.push(d)) == p256(k as nat) * mag_val(v@.take(j + 1)))
                by (nonlinear_arith)
                requires
                    mag_val(r@.push(d)) == mag_val(r@) + d * p256((k + j) as nat),
                    mag_val(r@) == p256(k as nat) * mag_val(v@.take(j as int)),
                    mag_val(v@.take(j + 1)) == mag_val(v@.take(j as int)) + v@[j as int] * p256(j as nat),
                    p256((k + j) as nat) == p256(k as nat) * p256(j as nat),
                    d == v@[j as int],
            ;
        }
        r.push(d);
        j = j + 1;
    }
    proof {
        assert(v@.take(lv as int) =~= v@);
    }
    r
}

/// Schoolbook multiplication of two magnitudes: one digit row at a time,
/// each row shifted into place and accumulated.
pub fn mul_mag(a: &Vec<u8>, b: &Vec<u8>) -> (r: Vec<u8>)
    ensures
        canonical(r@),
        mag_val(r@) == mag_val(a@) * mag_val(b@),
{
    let lb = b.len();
    let mut acc: Vec<u8> = single(0);
    let mut j: usize = 0;
    proof {
        assert(b@.take(0) =~= Seq::<u8>::empty());
        assert(mag_val(a@) * mag_val(b@.take(0)) == 0) by (nonlinear_arith)
            requires
                mag_val(b@.take(0)) == 0,
        ;
    }
    while j < lb
        invariant
            j <= lb,
            canonical(acc@),
            mag_val(acc@) == mag_val(a@) * mag_val(b@.take(j as int)),
        decreases lb - j,
    {
        let row = mul_small(a, b[j]);
        let shifted = shift_up(&row, j);
        proof {
            lemma_mag_val_take_succ(b@, j as int);
        }
        let next = add_mag(&acc, &shifted);
        proof {
            assert(mag_val(acc@) + p256(j as nat) * (mag_val(a@) * b@[j as int])
                == mag_val(a@) * mag_val(b@.take(j + 1))) by (nonlinear_arith)
                requires
                    mag_val(acc@) == mag_val(a@) * mag_val(b@.take(j as int)),
                    mag_val(b@.take(j + 1)) == mag_val(b@.take(j as int)) + b@[j as int] * p256(j as nat),
            ;
        }
        acc = next;
        j = j + 1;
    }
    proof {
        assert(b@.take(lb as int) =~= b@);
    }
    acc
}

pub proof fn lemma_mag_val_skip_unfold(s: Seq<u8>, i: int)
    requires
        0 <= i < s.len(),
    ensures
        mag_val(s.skip(i)) == s[i] + 256 * mag_val(s.skip(i + 1)),
{
    assert(s.skip(i)[0] == s[i]);
    assert(s.skip(i).skip(1) =~= s.skip(i + 1));
}

/// Long division of magnitudes: feeds the dividend's digits into the
/// remainder from the top and finds each quotient digit by repeated
/// subtraction of the divisor.  Returns quotient and remainder, both
/// canonical, with `a == q * d + r` and `0 <= r < d`.
pub fn div_rem_mag(a: &Vec<u8>, d: &Vec<u8>) -> (qr: (Vec<u8>, Vec<u8>))
    requires
        canonical(a@),
        canonical(d@),
        mag_val(d@) > 0,
    ensures
        canonical(qr.0@),
        canonical(qr.1@),
        mag_val(a@) == mag_val(qr.0@) * mag_val(d@) + mag_val(qr.1@),
        0 <= mag_val(qr.1@) < mag_val(d@),
{
    let la = a.len();
    let mut q: Vec<u8> = single(0);
    let mut rem: Vec<u8> = single(0);
    let mut i: usize = la;
    proof {
        assert(a@.skip(la as int) =~= Seq::<u8>::empty());
        assert(mag_val(q@) * mag_val(d@) == 0) by (nonlinear_arith)
            requires
                mag_val(q@) == 0,
        ;
    }
    while i > 0
        invariant
            i <= la,
            canonical(q@),
            canonical(rem@),
            0 <= mag_val(rem@) < mag_val(d@),
            mag_val(a@.skip(i as int)) == mag_val(q@) * mag_val(d@) + mag_val(rem@),
        decreases i,
    {
        i = i - 1;
        let ghost old_q: int = mag_val(q@);
        let ghost old_rem: int = mag_val(rem@);
        proof {
            lemma_mag_val_skip_unfold(a@, i as int);
        }
        // Shift the next dividend digit into the remainder.
        let shifted_rem = shift_up(&rem, 1);
        let mut new_rem = add_mag(&shifted_rem, &single(a[i]));
        let ghost rem0: int = mag_val(new_rem@);
        proof {
            assert(p256(0) == 1);
            assert(p256(1) == 256 * p256(0));
            assert(rem0 == a@[i as int] + 256 * old_rem);
            assert(rem0 < 256 * mag_val(d@));
        }
        // Find the quotient digit by repeated subtraction.
        let mut qd: u16 = 0;
        let mut ge = cmp_mag(&new_rem, d) >= 0;
        while ge
            invariant
                canonical(new_rem@),
                0 <= mag_val(new_rem@),
                qd * mag_val(d@) + mag_val(new_rem@) == rem0,
                rem0 < 256 * mag_val(d@),
                mag_val(d@) > 0,
                canonical(d@),
                ge == (mag_val(new_rem@) >= mag_val(d@)),
            decreases mag_val(new_rem@),
        {
            new_rem = sub_mag(&new_rem, d);
            proof {
                assert((qd + 1) * mag_val(d@) == qd * mag_val(d@) + mag_val(d@))
                    by (nonlinear_arith);
                assert(qd < 256) by (nonlinear_arith)
                    requires
                        (qd + 1) * mag_val(d@) + mag_val(new_rem@) == rem0,
                        rem0 < 256 * mag_val(d@),
                        mag_val(new_rem@) >= 0,
                        mag_val(d@) > 0,
                ;
            }
            qd = qd + 1;
            ge = cmp_mag(&new_rem, d) >= 0;
        }
        proof {
            assert(qd < 256) by (nonlinear_arith)
                requires
                    qd * mag_val(d@) + mag_val(new_rem@) == rem0,
                    rem0 < 256 * mag_val(d@),
                    mag_val(new_rem@) >= 0,
                    mag_val(d@) > 0,
            ;
        }
        // Append the quotient digit at the bottom of the quotient.
        let shifted_q = shift_up(&q, 1);
        let new_q = add_mag(&shifted_q, &single(qd as u8));
        proof {
            assert(p256(0) == 1);
            assert(p256(1) == 256 * p256(0));
            assert(mag_val(new_q@) == 256 * old_q + qd);
            assert(mag_val(a@.skip(i as int)) == mag_val(new_q@) * mag_val(d@) + mag_val(new_rem@))
                by (nonlinear_arith)
                requires
                    mag_val(a@.skip(i as int)) == a@[i as int] + 256 * mag_val(a@.skip(i + 1)),
                    mag_val(a@.skip(i + 1)) == old_q * mag_val(d@) + old_rem,
                    rem0 == a@[i as int] + 256 * old_rem,
                    qd * mag_val(d@) + mag_val(new_rem@) == rem0,
                    mag_val(new_q@) == 256 * old_q + qd,
            ;
        }
        q = new_q;
        rem = new_rem;
    }
    proof {
        assert(a@.skip(0) =~= a@);
    }
    (q, rem)
}

} // verus!
