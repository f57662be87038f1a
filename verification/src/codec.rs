//! Byte-buffer and text codecs for big integers.
//!
//! Byte buffers are minimal two's-complement encodings in a selectable
//! endianness; text is parsed in any radix 2..=36 with optional sign, radix
//! prefix and single `_` separators between digits, and formatted back.

#![verifier::loop_isolation(false)]

use vstd::arithmetic::power::pow;
use vstd::prelude::*;

use crate::big_int::{abs_val, copy_digits, mag_is_zero, BigInt};
use crate::digits::{
    canonical, lemma_canonical_lower, lemma_mag_val_bound, lemma_mag_val_nonneg,
    lemma_mag_val_skip_unfold, lemma_mag_val_snoc, lemma_mag_val_split, lemma_mag_val_take_succ,
    lemma_p256_increases, mag_val, p256, shift_up, single, sub_mag, trim,
};

verus! {

/// Byte order of an encoded buffer.
#[derive(Clone, Copy, Debug, PartialEq, Eq, Structural)]
pub enum Endianness {
    /// Most significant byte first.
    Big,
    /// Least significant byte first.
    Little,
}

/// The reversal of a sequence.
pub open spec fn rev_seq(s: Seq<u8>) -> Seq<u8> {
    Seq::new(s.len(), |i: int| s[s.len() - 1 - i])
}

/// The value of a non-empty little-endian two's-complement byte buffer.
pub open spec fn tc_val_le(s: Seq<u8>) -> int
    recommends
        s.len() > 0,
{
    if s[s.len() - 1] >= 128 {
        mag_val(s) - p256(s.len())
    } else {
        mag_val(s)
    }
}

/// The value of a non-empty two's-complement byte buffer in either
/// endianness.
pub open spec fn tc_val(s: Seq<u8>, e: Endianness) -> int
    recommends
        s.len() > 0,
{
    match e {
        Endianness::Little => tc_val_le(s),
        Endianness::Big => tc_val_le(rev_seq(s)),
    }
}

/// A little-endian two's-complement buffer with no redundant top byte.
pub open spec fn tc_minimal_le(s: Seq<u8>) -> bool {
    &&& s.len() > 0
    &&& (s.len() == 1 || !(s[s.len() - 1] == 0 && s[s.len() - 2] < 128))
    &&& (s.len() == 1 || !(s[s.len() - 1] == 255 && s[s.len() - 2] >= 128))
}

/// Reverses a byte vector.
fn rev_bytes(v: &Vec<u8>) -> (r: Vec<u8>)
    ensures
        r@ == rev_seq(v@),
{
    let n = v.len();
    let mut r: Vec<u8> = Vec::new();
    let mut i: usize = 0;
    while i < n
        invariant
            i <= n,
            n == v@.len(),
            r@.len() == i,
            forall|j: int| 0 <= j < i ==> r@[j] == v@[n - 1 - j],
        decreases n - i,
    {
        r.push(v[n - 1 - i]);
        i = i + 1;
    }
    proof {
        assert(r@ =~= rev_seq(v@));
    }
    r
}

/// Copies a byte slice into a vector.
fn slice_to_vec(s: &[u8]) -> (r: Vec<u8>)
    ensures
        r@ == s@,
{
    let n = s.len();
    let mut r: Vec<u8> = Vec::new();
    let mut i: usize = 0;
    while i < n
        invariant
            i <= n,
            n == s@.len(),
            r@ =~= s@.take(i as int),
        decreases n - i,
    {
        let b: u8 = s[i];
        r.push(b);
        i = i + 1;
    }
    proof {
        assert(s@.take(n as int) =~= s@);
    }
    r
}

/// Builds the magnitude `256^n` as a canonical digit vector.
fn p256_mag(n: usize) -> (r: Vec<u8>)
    ensures
        canonical(r@),
        mag_val(r@) == p256(n as nat),
{
    let one_digit = single(1);
    let mut v = shift_up(&one_digit, n);
    proof {
        crate::digits::lemma_p256_pos(n as nat);
    }
    trim(&mut v);
    v
}

impl BigInt {
    /// Decodes a non-empty two's-complement byte buffer.
    pub fn from_bytes(bytes: &[u8], endianness: Endianness) -> (r: Self)
        requires
            bytes@.len() > 0,
        ensures
            r.wf(),
            r@ == tc_val(bytes@, endianness),
    {
        let v = slice_to_vec(bytes);
        let v = match endianness {
            Endianness::Little => v,
            Endianness::Big => rev_bytes(&v),
        };
        let ghost le: Seq<u8> = v@;
        let n = v.len();
        let msb = v[n - 1];
        if msb >= 128 {
            // Negative: the magnitude is 256^n minus the raw value.
            proof {
                assert(canonical(v@));
                lemma_mag_val_bound(v@);
            }
            let pv = p256_mag(n);
            proof {
                lemma_mag_val_bound(v@);
            }
            let mag = sub_mag(&pv, &v);
            let ghost gm: int = mag_val(mag@);
            proof {
                assert(gm == p256(n as nat) - mag_val(le));
                assert(gm > 0);
            }
            let r = Self::from_sign_mag(-1, mag);
            proof {
                assert(r@ == -1 * gm);
            }
            r
        } else {
            let mut v = v;
            trim(&mut v);
            let ghost gm: int = mag_val(v@);
            let zero_mag = mag_is_zero(&v);
            let r = Self::from_sign_mag(
                if zero_mag {
                    0
                } else {
                    1
                },
                v,
            );
            proof {
                if zero_mag {
                    assert(r@ == 0 * gm);
                } else {
                    assert(r@ == 1 * gm);
                }
            }
            r
        }
    }

    /// Encodes the value as a minimal two's-complement byte buffer.
    pub fn to_bytes(&self, endianness: Endianness) -> (r: Vec<u8>)
        requires
            self.wf(),
        ensures
            r@.len() > 0,
            tc_val(r@, endianness) == self@,
            tc_minimal_le(
                match endianness {
                    Endianness::Little => r@,
                    Endianness::Big => rev_seq(r@),
                },
            ),
    {
        proof {
            self.lemma_abs_view();
        }
        let le = self.to_bytes_le();
        match endianness {
            Endianness::Little => le,
            Endianness::Big => {
                let r = rev_bytes(&le);
                proof {
                    assert(rev_seq(r@) =~= le@);
                }
                r
            },
        }
    }

    /// Encodes the value as a minimal little-endian two's-complement buffer.
    fn to_bytes_le(&self) -> (r: Vec<u8>)
        requires
            self.wf(),
        ensures
            r@.len() > 0,
            tc_val_le(r@) == self@,
            tc_minimal_le(r@),
    {
        proof {
            self.lemma_abs_view();
        }
        let n = self.digits.len();
        if self.sign >= 0 {
            let mut out = copy_digits(&self.digits);
            let top = out[n - 1];
            proof {
                if self.sign == 0 {
                    assert(self.digits@[0] as int + 256 * mag_val(self.digits@.skip(1)) == 0) by {
                        lemma_mag_val_skip_unfold(self.digits@, 0);
                    }
                    lemma_mag_val_nonneg(self.digits@.skip(1));
                    assert(self.digits@[0] == 0);
                    crate::digits::lemma_mag_val_zero(self.digits@);
                }
                assert(self@ == mag_val(self.digits@)) by {
                    if self.sign == 0 {
                        assert(self@ == 0 * mag_val(self.digits@));
                    } else {
                        assert(self@ == 1 * mag_val(self.digits@));
                    }
                }
            }
            if top >= 128 {
                proof {
                    lemma_mag_val_snoc(out@, 0);
                }
                out.push(0);
            } else {
                proof {
                    if out@.len() > 1 {
                        assert(out@[out@.len() - 1] != 0);
                    }
                }
            }
            return out;
        }
        // Negative value: encode 256^n - |x|, widening by one byte when the
        // top bit would not survive.
        let top = self.digits[n - 1];
        let mut low_zero = true;
        let mut i: usize = 0;
        while i < n - 1
            invariant
                i <= n - 1,
                n == self.digits@.len(),
                self.wf(),
                low_zero == (forall|j: int| 0 <= j < i ==> self.digits@[j] == 0),
            decreases n - 1 - i,
        {
            if self.digits[i] != 0 {
                low_zero = false;
            }
            i = i + 1;
        }
        let fits = top < 128 || (top == 128 && low_zero);
        let ghost width: int = if fits {
            n as int
        } else {
            n + 1
        };
        let ghost mv: int = mag_val(self.digits@);
        proof {
            // 128 * 256^(width-1) <= 256^width - mv < 256^width
            lemma_mag_val_split(self.digits@, n - 1);
            assert(self.digits@.skip(n - 1) =~= crate::extras::zeros_then(0, top));
            crate::extras::lemma_zeros_then_val(0, top);
            assert(mag_val(self.digits@.skip(n - 1)) == 1 * top);
            lemma_mag_val_bound(self.digits@.take(n - 1));
            lemma_mag_val_nonneg(self.digits@.take(n - 1));
            if fits {
                if top < 128 {
                    assert(mv <= 128 * p256((n - 1) as nat)) by (nonlinear_arith)
                        requires
                            mv == mag_val(self.digits@.take(n - 1)) + p256((n - 1) as nat) * (
                            top as int),
                            mag_val(self.digits@.take(n - 1)) < p256((n - 1) as nat),
                            top < 128,
                            p256((n - 1) as nat) >= 1,
                    ;
                } else {
                    assert(forall|j: int|
                        0 <= j < n - 1 ==> #[trigger] self.digits@.take(n - 1)[j] == 0);
                    crate::digits::lemma_mag_val_zeros_above(self.digits@.take(n - 1), 0);
                    assert(self.digits@.take(n - 1).take(0) =~= Seq::<u8>::empty());
                    assert(mag_val(self.digits@.take(n - 1)) == 0);
                    assert(mv == 128 * p256((n - 1) as nat)) by (nonlinear_arith)
                        requires
                            mv == 0 + p256((n - 1) as nat) * 128,
                    ;
                }
            } else {
                assert(p256(n as nat) == 256 * p256((n - 1) as nat));
                if top > 128 {
                    assert(mv > 128 * p256((n - 1) as nat)) by (nonlinear_arith)
                        requires
                            mv == mag_val(self.digits@.take(n - 1)) + p256((n - 1) as nat) * (
                            top as int),
                            mag_val(self.digits@.take(n - 1)) >= 0,
                            top > 128,
                            p256((n - 1) as nat) >= 1,
                    ;
                } else {
                    assert(top == 128 && !low_zero);
                    let j = choose|j: int| 0 <= j < n - 1 && self.digits@[j] != 0;
                    if mag_val(self.digits@.take(n - 1)) == 0 {
                        crate::digits::lemma_mag_val_zero(self.digits@.take(n - 1));
                        assert(self.digits@.take(n - 1)[j] == 0);
                        assert(false);
                    }
                    assert(mv > 128 * p256((n - 1) as nat)) by (nonlinear_arith)
                        requires
                            mv == mag_val(self.digits@.take(n - 1)) + p256((n - 1) as nat) * 128,
                            mag_val(self.digits@.take(n - 1)) > 0,
                    ;
                }
            }
        }
        let pv = if fits {
            p256_mag(n)
        } else {
            let base = p256_mag(n);
            let wide = shift_up(&base, 1);
            let ghost gw: int = mag_val(wide@);
            proof {
                assert(p256(1) == 256 * p256(0));
                assert(gw == 256 * p256(n as nat));
                assert(p256((n + 1) as nat) == 256 * p256(n as nat));
            }
            let mut wide = wide;
            trim(&mut wide);
            wide
        };
        proof {
            assert(mag_val(pv@) == p256(width as nat));
            lemma_mag_val_bound(self.digits@);
            lemma_p256_increases(n as nat, width as nat);
        }
        let out = sub_mag(&pv, &self.digits);
        let ghost ov: int = mag_val(out@);
        proof {
            assert(ov == p256(width as nat) - mv);
            // The result occupies exactly `width` bytes with its top bit set.
            assert(p256(width as nat) == 256 * p256((width - 1) as nat));
            if fits {
                assert(ov >= 128 * p256((width - 1) as nat));
            } else {
                lemma_mag_val_bound(self.digits@);
                assert(mv < p256(n as nat));
                assert(p256((width - 1) as nat) == p256(n as nat));
                assert(ov > p256(width as nat) - p256((width - 1) as nat));
                crate::digits::lemma_p256_pos((width - 1) as nat);
                assert(ov >= 128 * p256((width - 1) as nat));
            }
            lemma_mag_val_bound(out@);
            // exactly width digits
            if out@.len() < width {
                lemma_p256_increases(out@.len(), (width - 1) as nat);
                assert(false);
            }
            if out@.len() > width {
                lemma_canonical_lower(out@);
                lemma_p256_increases(width as nat, (out@.len() - 1) as nat);
                assert(false);
            }
            assert(out@.len() == width);
            // the top byte is at least 128
            lemma_mag_val_split(out@, width - 1);
            assert(out@.skip(width - 1) =~= crate::extras::zeros_then(
                0,
                out@[width - 1],
            ));
            crate::extras::lemma_zeros_then_val(0, out@[width - 1]);
            lemma_mag_val_bound(out@.take(width - 1));
            lemma_mag_val_nonneg(out@.take(width - 1));
            let tb = out@[width - 1] as int;
            assert(tb >= 128) by (nonlinear_arith)
                requires
                    ov == mag_val(out@.take(width - 1)) + p256((width - 1) as nat) * tb,
                    mag_val(out@.take(width - 1)) < p256((width - 1) as nat),
                    ov >= 128 * p256((width - 1) as nat),
                    p256((width - 1) as nat) >= 1,
            ;
            // value round-trip
            assert(tc_val_le(out@) == ov - p256(width as nat));
            assert(self@ == -1 * mv);
            // minimality: a 255 top byte over a high next byte would mean the
            // magnitude was small enough to fit one byte fewer.
            if width > 1 && out@[width - 1] == 255 && out@[width - 2] >= 128 {
                lemma_mag_val_split(out@, width - 2);
                assert(out@.skip(width - 2) =~= seq![out@[width - 2], out@[width - 1]]);
                assert(mag_val(out@.skip(width - 2)) == out@[width - 2] + 256 * (out@[width
                    - 1] as int)) by {
                    lemma_mag_val_skip_unfold(out@, width - 2);
                    lemma_mag_val_skip_unfold(out@, width - 1);
                    assert(out@.skip(width - 1).skip(1) =~= Seq::<u8>::empty());
                }
                lemma_mag_val_nonneg(out@.take(width - 2));
                assert(ov >= p256((width - 2) as nat) * (128 + 256 * 255)) by (nonlinear_arith)
                    requires
                        ov == mag_val(out@.take(width - 2)) + p256((width - 2) as nat) * (
                        out@[width - 2] + 256 * (out@[width - 1] as int)),
                        mag_val(out@.take(width - 2)) >= 0,
                        out@[width - 2] >= 128,
                        out@[width - 1] == 255,
                        p256((width - 2) as nat) >= 1,
                ;
                assert(p256(width as nat) == 65536 * p256((width - 2) as nat)) by {
                    assert(p256(width as nat) == 256 * p256((width - 1) as nat));
                    assert(p256((width - 1) as nat) == 256 * p256((width - 2) as nat));
                    assert(256 * (256 * p256((width - 2) as nat)) == 65536 * p256(
                        (width - 2) as nat,
                    )) by (nonlinear_arith);
                }
                assert(mv <= (65536 - 65408) * p256((width - 2) as nat)) by (nonlinear_arith)
                    requires
                        ov == p256(width as nat) - mv,
                        ov >= p256((width - 2) as nat) * (128 + 256 * 255),
                        p256(width as nat) == 65536 * p256((width - 2) as nat),
                ;
                // so mv <= 128 * 256^(width-2)
                if fits {
                    // but a canonical n-digit magnitude is at least 256^(n-1)
                    if n > 1 {
                        lemma_canonical_lower(self.digits@);
                        assert(128 * p256((n - 2) as nat) < p256((n - 1) as nat)) by {
                            assert(p256((n - 1) as nat) == 256 * p256((n - 2) as nat));
                            crate::digits::lemma_p256_pos((n - 2) as nat);
                            assert(128 * p256((n - 2) as nat) < 256 * p256((n - 2) as nat))
                                by (nonlinear_arith)
                                requires
                                    p256((n - 2) as nat) >= 1,
                            ;
                        }
                        assert(false);
                    } else {
                        // width == 1 here, contradicting width > 1
                        assert(false);
                    }
                } else {
                    // not fits: mv > 128 * 256^(n-1) == 128 * 256^(width-2)
                    assert(mv > 128 * p256((n - 1) as nat));
                    assert(false);
                }
            }
        }
        out
    }
}

/// A byte buffer splits into its top byte and the rest.
proof fn lemma_top_split(s: Seq<u8>)
    requires
        s.len() >= 1,
    ensures
        mag_val(s) == mag_val(s.take(s.len() - 1)) + s[s.len() - 1] * p256((s.len() - 1) as nat),
        0 <= mag_val(s.take(s.len() - 1)) < p256((s.len() - 1) as nat),
{
    lemma_mag_val_split(s, s.len() - 1);
    assert(s.skip(s.len() - 1) =~= crate::extras::zeros_then(0, s[s.len() - 1]));
    crate::extras::lemma_zeros_then_val(0, s[s.len() - 1]);
    lemma_mag_val_bound(s.take(s.len() - 1));
    assert(p256((s.len() - 1) as nat) * (s[s.len() - 1] as int) == s[s.len() - 1] * p256(
        (s.len() - 1) as nat,
    )) by (nonlinear_arith);
}

/// A buffer whose value reaches `255 * 256^(n-1)` has the top byte 255.
proof fn lemma_top_byte_full(s: Seq<u8>)
    requires
        s.len() >= 1,
        mag_val(s) >= 255 * p256((s.len() - 1) as nat),
    ensures
        s[s.len() - 1] == 255,
{
    lemma_top_split(s);
    let p = p256((s.len() - 1) as nat);
    crate::digits::lemma_p256_pos((s.len() - 1) as nat);
    assert(s[s.len() - 1] == 255) by (nonlinear_arith)
        requires
            mag_val(s) == mag_val(s.take(s.len() - 1)) + s[s.len() - 1] * p,
            0 <= mag_val(s.take(s.len() - 1)) < p,
            mag_val(s) >= 255 * p,
            s[s.len() - 1] <= 255,
            p >= 1,
    ;
}

/// Two minimal two's-complement buffers with the same value are the same
/// buffer: together with the codec contracts, encoding is the inverse of
/// decoding in both directions.
pub proof fn lemma_tc_minimal_unique(s: Seq<u8>, t: Seq<u8>)
    requires
        tc_minimal_le(s),
        tc_minimal_le(t),
        tc_val_le(s) == tc_val_le(t),
    ensures
        s == t,
{
    let v = tc_val_le(s);
    lemma_mag_val_bound(s);
    lemma_mag_val_bound(t);
    lemma_mag_val_nonneg(s);
    lemma_mag_val_nonneg(t);
    if v >= 0 {
        // Both buffers read as plain magnitudes.
        assert(s[s.len() - 1] < 128 && t[t.len() - 1] < 128);
        assert(mag_val(s) == mag_val(t));
        lemma_nonneg_minimal_unique(s, t);
        lemma_nonneg_minimal_unique(t, s);
        crate::digits::lemma_mag_val_injective_same_len(s, t);
    } else {
        // Both buffers have the sign bit set.
        assert(s[s.len() - 1] >= 128 && t[t.len() - 1] >= 128);
        lemma_neg_minimal_len_unique(s, t);
        lemma_neg_minimal_len_unique(t, s);
        assert(s.len() == t.len());
        assert(mag_val(s) == mag_val(t));
        crate::digits::lemma_mag_val_injective_same_len(s, t);
    }
}

/// For non-negative values, a minimal buffer is no longer than any other
/// minimal buffer of the same magnitude.
proof fn lemma_nonneg_minimal_unique(s: Seq<u8>, t: Seq<u8>)
    requires
        tc_minimal_le(s),
        tc_minimal_le(t),
        s[s.len() - 1] < 128,
        t[t.len() - 1] < 128,
        mag_val(s) == mag_val(t),
    ensures
        s.len() <= t.len(),
{
    if s.len() > t.len() {
        // The longer buffer's top region forces a larger magnitude.
        let ls = s.len() as int;
        let lt = t.len() as int;
        assert(ls >= 2);
        if s[ls - 1] != 0 {
            // A non-zero top byte puts the value beyond the shorter buffer.
            lemma_top_split(s);
            crate::digits::lemma_p256_pos((ls - 1) as nat);
            assert(mag_val(s) >= p256((ls - 1) as nat)) by (nonlinear_arith)
                requires
                    mag_val(s) == mag_val(s.take(ls - 1)) + s[ls - 1] * p256((ls - 1) as nat),
                    mag_val(s.take(ls - 1)) >= 0,
                    s[ls - 1] >= 1,
                    p256((ls - 1) as nat) >= 1,
            ;
            lemma_p256_increases(t.len(), (ls - 1) as nat);
            lemma_mag_val_bound(t);
            assert(false);
        } else {
            // A zero top byte is minimal only over a high next byte, which
            // the shorter buffer cannot reach either.
            assert(s[ls - 2] >= 128);
            lemma_top_split(s);
            assert(s[ls - 1] * p256((ls - 1) as nat) == 0) by (nonlinear_arith)
                requires
                    s[ls - 1] == 0,
            ;
            lemma_top_split(s.take(ls - 1));
            assert(s.take(ls - 1)[ls - 2] == s[ls - 2]);
            assert(s.take(ls - 1).take(ls - 2) =~= s.take(ls - 2));
            crate::digits::lemma_p256_pos((ls - 2) as nat);
            assert(mag_val(s) >= 128 * p256((ls - 2) as nat)) by (nonlinear_arith)
                requires
                    mag_val(s) == mag_val(s.take(ls - 2)) + s[ls - 2] * p256((ls - 2) as nat),
                    mag_val(s.take(ls - 2)) >= 0,
                    s[ls - 2] >= 128,
                    p256((ls - 2) as nat) >= 1,
            ;
            // The shorter buffer tops out below 128 * 256^(lt - 1).
            lemma_top_split(t);
            crate::digits::lemma_p256_pos((lt - 1) as nat);
            assert(mag_val(t) < 128 * p256((lt - 1) as nat)) by (nonlinear_arith)
                requires
                    mag_val(t) == mag_val(t.take(lt - 1)) + t[lt - 1] * p256((lt - 1) as nat),
                    mag_val(t.take(lt - 1)) < p256((lt - 1) as nat),
                    t[lt - 1] < 128,
                    p256((lt - 1) as nat) >= 1,
            ;
            lemma_p256_increases((lt - 1) as nat, (ls - 2) as nat);
            assert(false);
        }
    }
}

/// For negative values, two minimal buffers have the same length.
proof fn lemma_neg_minimal_len_unique(s: Seq<u8>, t: Seq<u8>)
    requires
        tc_minimal_le(s),
        tc_minimal_le(t),
        s[s.len() - 1] >= 128,
        t[t.len() - 1] >= 128,
        mag_val(s) - p256(s.len()) == mag_val(t) - p256(t.len()),
    ensures
        s.len() >= t.len(),
{
    if s.len() < t.len() {
        let ls = s.len() as int;
        let lt = t.len() as int;
        assert(lt >= 2);
        // The longer buffer's magnitude is nearly all of 256^lt.
        lemma_mag_val_bound(s);
        lemma_p256_increases(s.len(), (lt - 1) as nat);
        assert(p256(lt as nat) == 256 * p256((lt - 1) as nat));
        assert(mag_val(t) == mag_val(s) + p256(lt as nat) - p256(ls as nat));
        assert(mag_val(t) >= 255 * p256((lt - 1) as nat));
        lemma_top_byte_full(t);
        assert(t[lt - 1] == 255);
        // Its next byte is high as well, contradicting minimality.
        lemma_top_split(t);
        lemma_top_split(t.take(lt - 1));
        assert(t.take(lt - 1)[lt - 2] == t[lt - 2]);
        assert(t.take(lt - 1).take(lt - 2) =~= t.take(lt - 2));
        let p1 = p256((lt - 1) as nat);
        let p2 = p256((lt - 2) as nat);
        assert(p1 == 256 * p2);
        crate::digits::lemma_p256_pos((lt - 2) as nat);
        // mag(t.take(lt-1)) == mag(t) - 255 * p1 >= 128 * p2
        assert(mag_val(t.take(lt - 1)) == mag_val(t) - 255 * p1);
        if ls <= lt - 2 {
            lemma_p256_increases(ls as nat, (lt - 2) as nat);
            assert(mag_val(t) >= p256(lt as nat) - p2);
            assert(mag_val(t.take(lt - 1)) >= 256 * p1 - p2 - 255 * p1);
            assert(256 * p1 - p2 - 255 * p1 == 255 * p2) by (nonlinear_arith)
                requires
                    p1 == 256 * p2,
            ;
        } else {
            assert(ls == lt - 1);
            // The shorter buffer itself has its sign bit set.
            lemma_top_split(s);
            assert(mag_val(s) >= 128 * p2) by (nonlinear_arith)
                requires
                    mag_val(s) == mag_val(s.take(ls - 1)) + s[ls - 1] * p256((ls - 1) as nat),
                    mag_val(s.take(ls - 1)) >= 0,
                    s[ls - 1] >= 128,
                    p256((ls - 1) as nat) == p2,
                    p2 >= 1,
            ;
            assert(mag_val(t.take(lt - 1)) == mag_val(s) + 256 * p1 - p1 - 255 * p1);
            assert(256 * p1 - p1 - 255 * p1 == 0) by (nonlinear_arith);
        }
        assert(mag_val(t.take(lt - 1)) >= 128 * p2);
        assert(t[lt - 2] >= 128) by (nonlinear_arith)
            requires
                mag_val(t.take(lt - 1)) == mag_val(t.take(lt - 2)) + t[lt - 2] * p2,
                mag_val(t.take(lt - 2)) < p2,
                mag_val(t.take(lt - 1)) >= 128 * p2,
                p2 >= 1,
        ;
        assert(false);
    }
}

/// Failure modes of parsing an integer from text.
#[derive(Clone, Copy, Debug, PartialEq, Eq, Structural)]
pub enum ParseError {
    /// Two separators in a row.
    ConsecutiveSeparators,
    /// A character that is no digit of the active radix, or no digits at
    /// all.
    InvalidDigit,
    /// A radix outside 0 and 2..=36.
    InvalidRadix,
    /// A separator before the first digit.
    LeadingSeparator,
    /// A separator after the last digit.
    TrailingSeparator,
}

impl ParseError {
    /// A short description of the failure.
    pub fn description(&self) -> (r: &'static str)
        ensures
            *self == ParseError::ConsecutiveSeparators ==> r@
                == "Consecutive separators are not allowed."@,
            *self == ParseError::InvalidDigit ==> r@ == "Invalid digit for the given radix."@,
            *self == ParseError::InvalidRadix ==> r@
                == "Radix should be zero or in range from 2 to 36."@,
            *self == ParseError::LeadingSeparator ==> r@ == "Should not start with a separator."@,
            *self == ParseError::TrailingSeparator ==> r@ == "Should not end with a separator."@,
    {
        match self {
            ParseError::ConsecutiveSeparators => "Consecutive separators are not allowed.",
            ParseError::InvalidDigit => "Invalid digit for the given radix.",
            ParseError::InvalidRadix => "Radix should be zero or in range from 2 to 36.",
            ParseError::LeadingSeparator => "Should not start with a separator.",
            ParseError::TrailingSeparator => "Should not end with a separator.",
        }
    }
}

/// Numeric value of a digit character: `0`-`9`, `a`-`z` and `A`-`Z` in
/// order; any other character maps to an out-of-range marker.
pub open spec fn digit_val(c: char) -> int {
    let u = c as u32;
    if 48 <= u <= 57 {  // '0'..'9'
        u - 48
    } else if 97 <= u <= 122 {  // 'a'..'z'
        u - 97 + 10
    } else if 65 <= u <= 90 {  // 'A'..'Z'
        u - 65 + 10
    } else {
        99
    }
}

/// The separator character `_`.
pub open spec fn is_sep(c: char) -> bool {
    c as u32 == 95
}

/// Length of the optional sign prefix.
pub open spec fn sign_len(s: Seq<char>) -> int {
    if s.len() > 0 && (s[0] as u32 == 45 || s[0] as u32 == 43) {  // '-' or '+'
        1
    } else {
        0
    }
}

/// The sign carried by the optional sign prefix.
pub open spec fn sign_of(s: Seq<char>) -> int {
    if s.len() > 0 && s[0] as u32 == 45 {  // '-'
        -1
    } else {
        1
    }
}

/// True when the two characters at `i` spell a radix prefix `0?` for the
/// marker letter with the given lower- and upper-case codes.
pub open spec fn has_prefix(s: Seq<char>, i: int, lower: u32, upper: u32) -> bool {
    i + 2 <= s.len() && s[i] as u32 == 48 && (s[i + 1] as u32 == lower || s[i + 1] as u32
        == upper)
}

/// The radix that is actually used, after prefix handling: an explicit radix
/// stands; radix 0 is inferred from a `0b`/`0o`/`0x` prefix, defaulting to
/// 10.
pub open spec fn effective_radix(s: Seq<char>, i: int, radix: int) -> int {
    if radix == 0 {
        if has_prefix(s, i, 98, 66) {  // 'b' / 'B'
            2
        } else if has_prefix(s, i, 111, 79) {  // 'o' / 'O'
            8
        } else if has_prefix(s, i, 120, 88) {  // 'x' / 'X'
            16
        } else {
            10
        }
    } else {
        radix
    }
}

/// How many characters the radix prefix occupies.
pub open spec fn prefix_len(s: Seq<char>, i: int, radix: int) -> int {
    if radix == 0 {
        if has_prefix(s, i, 98, 66) || has_prefix(s, i, 111, 79) || has_prefix(s, i, 120, 88) {
            2
        } else {
            0
        }
    } else if radix == 2 && has_prefix(s, i, 98, 66) {
        2
    } else if radix == 8 && has_prefix(s, i, 111, 79) {
        2
    } else if radix == 16 && has_prefix(s, i, 120, 88) {
        2
    } else {
        0
    }
}

/// Scans the digit run from position `i`: folds digits into `acc`, allowing
/// single separators between digits only.
pub open spec fn scan_digits(
    s: Seq<char>,
    i: int,
    r: int,
    acc: int,
    seen: bool,
    prev_sep: bool,
) -> Result<int, ParseError>
    decreases s.len() - i,
{
    if i < 0 || i >= s.len() {
        if !seen {
            Err(ParseError::InvalidDigit)
        } else if prev_sep {
            Err(ParseError::TrailingSeparator)
        } else {
            Ok(acc)
        }
    } else if is_sep(s[i]) {
        if !seen {
            Err(ParseError::LeadingSeparator)
        } else if prev_sep {
            Err(ParseError::ConsecutiveSeparators)
        } else {
            scan_digits(s, i + 1, r, acc, seen, true)
        }
    } else if digit_val(s[i]) < r {
        scan_digits(s, i + 1, r, acc * r + digit_val(s[i]), true, false)
    } else {
        Err(ParseError::InvalidDigit)
    }
}

/// The meaning of a whole numeral: sign, optional radix prefix, digit run.
pub open spec fn parse_spec(s: Seq<char>, radix: int) -> Result<int, ParseError> {
    if !(radix == 0 || (2 <= radix && radix <= 36)) {
        Err(ParseError::InvalidRadix)
    } else {
        let i0 = sign_len(s);
        let r = effective_radix(s, i0, radix);
        let i1 = i0 + prefix_len(s, i0, radix);
        match scan_digits(s, i1, r, 0, false, false) {
            Ok(v) => Ok(sign_of(s) * v),
            Err(e) => Err(e),
        }
    }
}

/// Numeric value of a digit character, or the out-of-range marker.
fn digit_value(c: char) -> (r: u32)
    ensures
        r == digit_val(c),
{
    let u = c as u32;
    if 48 <= u && u <= 57 {
        u - 48
    } else if 97 <= u && u <= 122 {
        u - 97 + 10
    } else if 65 <= u && u <= 90 {
        u - 65 + 10
    } else {
        99
    }
}

/// Multiplies a magnitude by a small factor and adds a small term.
fn mul_small_add(v: &Vec<u8>, m: u8, a: u8) -> (r: Vec<u8>)
    ensures
        canonical(r@),
        mag_val(r@) == mag_val(v@) * m + a,
{
    let lv = v.len();
    let mut r: Vec<u8> = Vec::new();
    let mut carry: u32 = a as u32;
    let mut i: usize = 0;
    proof {
        assert(v@.take(0) =~= Seq::<u8>::empty());
        assert(mag_val(v@.take(0)) * m == 0) by (nonlinear_arith)
            requires
                mag_val(v@.take(0)) == 0,
        ;
    }
    while i < lv
        invariant
            i <= lv,
            carry <= 65535,
            r@.len() == i,
            mag_val(r@) + carry * p256(i as nat) == mag_val(v@.take(i as int)) * m + a,
        decreases lv - i,
    {
        proof {
            assert((v@[i as int] as int) * (m as int) <= 255 * 255) by (nonlinear_arith)
                requires
                    v@[i as int] <= 255,
                    m <= 255,
            ;
        }
        let cur: u32 = (v[i] as u32) * (m as u32) + carry;
        let dig: u8 = (cur % 256) as u8;
        proof {
            lemma_mag_val_snoc(r@, dig);
            lemma_mag_val_take_succ(v@, i as int);
            assert(mag_val(r@.push(dig)) + (cur / 256) * p256((i + 1) as nat) == mag_val(
                v@.take(i + 1),
            ) * m + a) by (nonlinear_arith)
                requires
                    mag_val(r@.push(dig)) == mag_val(r@) + dig * p256(i as nat),
                    mag_val(r@) + carry * p256(i as nat) == mag_val(v@.take(i as int)) * m + a,
                    mag_val(v@.take(i + 1)) == mag_val(v@.take(i as int)) + v@[i as int] * p256(
                        i as nat,
                    ),
                    p256((i + 1) as nat) == 256 * p256(i as nat),
                    cur == dig + 256 * (cur / 256),
                    cur == v@[i as int] * m + carry,
            ;
        }
        r.push(dig);
        carry = cur / 256;
        i = i + 1;
    }
    proof {
        assert(v@.take(lv as int) =~= v@);
    }
    while carry > 0
        invariant
            mag_val(r@) + carry * p256(r@.len()) == mag_val(v@) * m + a,
        decreases carry,
    {
        let dig: u8 = (carry % 256) as u8;
        proof {
            lemma_mag_val_snoc(r@, dig);
            assert(mag_val(r@.push(dig)) + (carry / 256) * p256((r@.len() + 1) as nat) == mag_val(
                r@,
            ) + carry * p256(r@.len())) by (nonlinear_arith)
                requires
                    mag_val(r@.push(dig)) == mag_val(r@) + dig * p256(r@.len()),
                    p256((r@.len() + 1) as nat) == 256 * p256(r@.len()),
                    carry == dig + 256 * (carry / 256),
            ;
        }
        r.push(dig);
        carry = carry / 256;
    }
    proof {
        assert(carry * p256(r@.len()) == 0) by (nonlinear_arith)
            requires
                carry == 0,
        ;
    }
    trim(&mut r);
    r
}

impl BigInt {
    /// Parses a numeral: an optional sign, an optional radix prefix when the
    /// radix is 0, 2, 8 or 16, and digits with single `_` separators
    /// between them.  A radix of 0 means "infer from the prefix".
    pub fn from_str_radix(text: &str, radix: u32) -> (res: Result<Self, ParseError>)
        ensures
            ({
                let sp = parse_spec(text@, radix as int);
                &&& ((res is Ok) <==> (sp is Ok))
                &&& (res matches Ok(b) ==> b.wf() && (sp matches Ok(v) && b@ == v))
                &&& (res matches Err(e) ==> (sp matches Err(e2) && e == e2))
            }),
    {
        if !(radix == 0 || (2 <= radix && radix <= 36)) {
            return Err(ParseError::InvalidRadix);
        }
        let s = text;
        let len = s.unicode_len();
        // Sign.
        let mut negative = false;
        let mut i: usize = 0;
        if len > 0 {
            let c0 = s.get_char(0);
            let u0 = c0 as u32;
            if u0 == 45 {
                negative = true;
                i = 1;
            } else if u0 == 43 {
                i = 1;
            }
        }
        proof {
            assert(i == sign_len(s@));
            assert(negative == (sign_of(s@) == -1));
        }
        // Radix prefix.
        let mut r_eff: u32 = if radix == 0 {
            10
        } else {
            radix
        };
        let mut skip2 = false;
        if i + 2 <= len {
            let ca = s.get_char(i);
            let cb = s.get_char(i + 1);
            let ua = ca as u32;
            let ub = cb as u32;
            if ua == 48 {
                if radix == 0 {
                    if ub == 98 || ub == 66 {
                        r_eff = 2;
                        skip2 = true;
                    } else if ub == 111 || ub == 79 {
                        r_eff = 8;
                        skip2 = true;
                    } else if ub == 120 || ub == 88 {
                        r_eff = 16;
                        skip2 = true;
                    }
                } else if radix == 2 && (ub == 98 || ub == 66) {
                    skip2 = true;
                } else if radix == 8 && (ub == 111 || ub == 79) {
                    skip2 = true;
                } else if radix == 16 && (ub == 120 || ub == 88) {
                    skip2 = true;
                }
            }
        }
        if skip2 {
            i = i + 2;
        }
        proof {
            assert(r_eff == effective_radix(s@, sign_len(s@), radix as int));
            assert(i == sign_len(s@) + prefix_len(s@, sign_len(s@), radix as int));
        }
        // Digit run.
        let ghost i1: int = i as int;
        let mut mag = single(0);
        let mut seen = false;
        let mut prev_sep = false;
        while i < len
            invariant
                i1 <= i <= len,
                len == s@.len(),
                2 <= r_eff <= 36,
                canonical(mag@),
                mag_val(mag@) >= 0,
                scan_digits(s@, i as int, r_eff as int, mag_val(mag@), seen, prev_sep)
                    == scan_digits(s@, i1, r_eff as int, 0, false, false),
            decreases len - i,
        {
            let c = s.get_char(i);
            let u = c as u32;
            if u == 95 {
                if !seen {
                    return Err(ParseError::LeadingSeparator);
                }
                if prev_sep {
                    return Err(ParseError::ConsecutiveSeparators);
                }
                prev_sep = true;
            } else {
                let d = digit_value(c);
                if d >= r_eff {
                    return Err(ParseError::InvalidDigit);
                }
                proof {
                    lemma_mag_val_nonneg(mag@);
                }
                let new_mag = mul_small_add(&mag, r_eff as u8, d as u8);
                mag = new_mag;
                seen = true;
                prev_sep = false;
            }
            i = i + 1;
        }
        if !seen {
            return Err(ParseError::InvalidDigit);
        }
        if prev_sep {
            return Err(ParseError::TrailingSeparator);
        }
        let ghost acc: int = mag_val(mag@);
        let zero_mag = mag_is_zero(&mag);
        let sg: i32 = if zero_mag {
            0
        } else if negative {
            -1
        } else {
            1
        };
        let b = Self::from_sign_mag(sg, mag);
        proof {
            assert(scan_digits(s@, len as int, r_eff as int, acc, true, false) == Ok::<
                int,
                ParseError,
            >(acc));
            if zero_mag {
                assert(b@ == 0 * acc);
                assert(sign_of(s@) * acc == 0) by (nonlinear_arith)
                    requires
                        acc == 0,
                ;
            } else if negative {
                assert(b@ == -1 * acc);
            } else {
                assert(b@ == 1 * acc);
            }
        }
        Ok(b)
    }
}

/// The digit character for a value below 36: `0`-`9` then `a`-`z`.
pub open spec fn digit_char(d: int) -> char
    recommends
        0 <= d < 36,
{
    if d < 10 {
        ((48 + d) as u8) as char
    } else {
        ((87 + d) as u8) as char
    }
}

/// The digits of a non-negative number in the given radix, least
/// significant first; zero has no digits.
pub open spec fn nat_to_digits(n: int, r: int) -> Seq<int>
    recommends
        n >= 0,
        2 <= r,
    decreases n,
    when n >= 0 && 2 <= r
    via nat_to_digits_decreases
{
    if n <= 0 {
        Seq::empty()
    } else {
        seq![n % r] + nat_to_digits(n / r, r)
    }
}

#[via_fn]
proof fn nat_to_digits_decreases(n: int, r: int) {
    if n > 0 && r >= 2 {
        vstd::arithmetic::div_mod::lemma_fundamental_div_mod(n, r);
        assert(0 <= n / r < n) by (nonlinear_arith)
            requires
                n == r * (n / r) + n % r,
                0 <= n % r < r,
                n > 0,
                r >= 2,
        ;
    }
}

/// The text of an integer in the given radix: an optional minus sign, then
/// the digits most significant first, with zero written as a single `0`.
pub open spec fn to_string_spec(x: int, r: int) -> Seq<char>
    recommends
        2 <= r <= 36,
{
    if x == 0 {
        seq![digit_char(0)]
    } else {
        let ds = nat_to_digits(abs_val(x), r);
        let chars = Seq::new(ds.len(), |i: int| digit_char(ds[ds.len() - 1 - i]));
        if x < 0 {
            seq![(45u8) as char] + chars
        } else {
            chars
        }
    }
}

/// Divides a magnitude by a small divisor, returning quotient and
/// remainder.
fn div_small(v: &Vec<u8>, m: u16) -> (res: (Vec<u8>, u16))
    requires
        canonical(v@),
        1 <= m <= 256,
    ensures
        canonical(res.0@),
        res.1 < m,
        mag_val(res.0@) * m + res.1 == mag_val(v@),
{
    let n = v.len();
    let mut q = copy_digits(v);
    let mut rem: u16 = 0;
    let mut i: usize = n;
    proof {
        assert(v@.skip(n as int) =~= Seq::<u8>::empty());
        assert(q@.skip(n as int) =~= Seq::<u8>::empty());
        assert(mag_val(q@.skip(n as int)) * m == 0) by (nonlinear_arith)
            requires
                mag_val(q@.skip(n as int)) == 0,
        ;
    }
    while i > 0
        invariant
            i <= n,
            n == v@.len(),
            q@.len() == n,
            1 <= m <= 256,
            rem < m,
            forall|j: int| 0 <= j < i ==> q@[j] == v@[j],
            mag_val(q@.skip(i as int)) * m + rem == mag_val(v@.skip(i as int)),
        decreases i,
    {
        i = i - 1;
        let cur: u32 = (rem as u32) * 256 + (v[i] as u32);
        proof {
            assert((rem as int) * 256 <= 255 * 256) by (nonlinear_arith)
                requires
                    rem <= 255,
            ;
        }
        let qd: u32 = cur / (m as u32);
        let new_rem: u16 = (cur % (m as u32)) as u16;
        proof {
            // The quotient digit fits in a byte.
            assert(cur < 256 * (m as int)) by (nonlinear_arith)
                requires
                    cur == (rem as int) * 256 + v@[i as int],
                    rem < m,
                    v@[i as int] < 256,
            ;
            vstd::arithmetic::div_mod::lemma_fundamental_div_mod(cur as int, m as int);
            assert(qd < 256) by (nonlinear_arith)
                requires
                    cur as int == (m as int) * (qd as int) + (cur as int % (m as int)),
                    cur as int % (m as int) >= 0,
                    cur < 256 * (m as int),
                    m >= 1,
            ;
        }
        let ghost old_q: Seq<u8> = q@;
        q[i] = qd as u8;
        proof {
            assert(q@ == old_q.update(i as int, qd as u8));
            assert(q@.skip(i as int)[0] == qd as u8);
            assert(q@.skip(i as int).skip(1) =~= old_q.skip(i + 1));
            lemma_mag_val_skip_unfold(q@, i as int);
            lemma_mag_val_skip_unfold(v@, i as int);
            assert(mag_val(q@.skip(i as int)) == qd + 256 * mag_val(old_q.skip(i + 1)));
            assert(mag_val(q@.skip(i as int)) * m + new_rem == mag_val(v@.skip(i as int)))
                by (nonlinear_arith)
                requires
                    mag_val(q@.skip(i as int)) == qd + 256 * mag_val(old_q.skip(i + 1)),
                    mag_val(old_q.skip(i + 1)) * m + rem == mag_val(v@.skip(i + 1)),
                    mag_val(v@.skip(i as int)) == v@[i as int] + 256 * mag_val(v@.skip(i + 1)),
                    cur == (rem as int) * 256 + v@[i as int],
                    cur == m * qd + new_rem,
            ;
        }
        rem = new_rem;
    }
    proof {
        assert(q@.skip(0) =~= q@);
        assert(v@.skip(0) =~= v@);
    }
    trim(&mut q);
    (q, rem)
}

/// The text for one digit value.
fn digit_str(d: u8) -> (r: &'static str)
    requires
        d < 36,
    ensures
        r@ == seq![digit_char(d as int)],
{
    proof {
        reveal_strlit("0");
        reveal_strlit("1");
        reveal_strlit("2");
        reveal_strlit("3");
        reveal_strlit("4");
        reveal_strlit("5");
        reveal_strlit("6");
        reveal_strlit("7");
        reveal_strlit("8");
        reveal_strlit("9");
        reveal_strlit("a");
        reveal_strlit("b");
        reveal_strlit("c");
        reveal_strlit("d");
        reveal_strlit("e");
        reveal_strlit("f");
        reveal_strlit("g");
        reveal_strlit("h");
        reveal_strlit("i");
        reveal_strlit("j");
        reveal_strlit("k");
        reveal_strlit("l");
        reveal_strlit("m");
        reveal_strlit("n");
        reveal_strlit("o");
        reveal_strlit("p");
        reveal_strlit("q");
        reveal_strlit("r");
        reveal_strlit("s");
        reveal_strlit("t");
        reveal_strlit("u");
        reveal_strlit("v");
        reveal_strlit("w");
        reveal_strlit("x");
        reveal_strlit("y");
        reveal_strlit("z");
    }
    match d {
        0 => "0",
        1 => "1",
        2 => "2",
        3 => "3",
        4 => "4",
        5 => "5",
        6 => "6",
        7 => "7",
        8 => "8",
        9 => "9",
        10 => "a",
        11 => "b",
        12 => "c",
        13 => "d",
        14 => "e",
        15 => "f",
        16 => "g",
        17 => "h",
        18 => "i",
        19 => "j",
        20 => "k",
        21 => "l",
        22 => "m",
        23 => "n",
        24 => "o",
        25 => "p",
        26 => "q",
        27 => "r",
        28 => "s",
        29 => "t",
        30 => "u",
        31 => "v",
        32 => "w",
        33 => "x",
        34 => "y",
        _ => "z",
    }
}

impl BigInt {
    /// Formats the value in the given radix.
    pub fn to_string_radix(&self, radix: u32) -> (r: String)
        requires
            self.wf(),
            2 <= radix <= 36,
        ensures
            r@ == to_string_spec(self@, radix as int),
    {
        proof {
            self.lemma_abs_view();
        }
        if self.is_zero() {
            let mut out = String::new();
            out.append(digit_str(0));
            proof {
                assert(out@ =~= to_string_spec(self@, radix as int));
            }
            return out;
        }
        // Extract the digits, least significant first.
        let mut digits_out: Vec<u8> = Vec::new();
        let mut mag = copy_digits(&self.digits);
        let ghost mv0: int = mag_val(self.digits@);
        let mut mag_zero = mag_is_zero(&mag);
        proof {
            assert(Seq::<int>::empty() + nat_to_digits(mv0, radix as int) =~= nat_to_digits(
                mv0,
                radix as int,
            ));
        }
        while !mag_zero
            invariant
                canonical(mag@),
                2 <= radix <= 36,
                mag_zero == (mag_val(mag@) == 0),
                mag_val(mag@) >= 0,
                digits_out@.map_values(|d: u8| d as int) + nat_to_digits(
                    mag_val(mag@),
                    radix as int,
                ) == nat_to_digits(mv0, radix as int),
                forall|j: int| 0 <= j < digits_out@.len() ==> digits_out@[j] < 36,
            decreases mag_val(mag@),
        {
            let (q, rem) = div_small(&mag, radix as u16);
            proof {
                lemma_mag_val_nonneg(q@);
                vstd::arithmetic::div_mod::lemma_fundamental_div_mod_converse(
                    mag_val(mag@),
                    radix as int,
                    mag_val(q@),
                    rem as int,
                );
                // One unfolding of the digit expansion.
                assert(nat_to_digits(mag_val(mag@), radix as int) == seq![rem as int]
                    + nat_to_digits(mag_val(q@), radix as int));
                assert(digits_out@.push(rem as u8).map_values(|d: u8| d as int) =~= digits_out@
                    .map_values(|d: u8| d as int).push(rem as int));
                assert(digits_out@.map_values(|d: u8| d as int).push(rem as int) + nat_to_digits(
                    mag_val(q@),
                    radix as int,
                ) =~= digits_out@.map_values(|d: u8| d as int) + (seq![rem as int]
                    + nat_to_digits(mag_val(q@), radix as int)));
                // The quotient is strictly smaller.
                assert(mag_val(q@) < mag_val(mag@)) by (nonlinear_arith)
                    requires
                        mag_val(q@) * radix + rem == mag_val(mag@),
                        mag_val(mag@) > 0,
                        mag_val(q@) >= 0,
                        radix >= 2,
                        rem >= 0,
                ;
            }
            digits_out.push(rem as u8);
            mag = q;
            mag_zero = mag_is_zero(&mag);
        }
        proof {
            assert(digits_out@.map_values(|d: u8| d as int) + Seq::<int>::empty() =~= digits_out@
                .map_values(|d: u8| d as int));
            assert(digits_out@.map_values(|d: u8| d as int) == nat_to_digits(
                mv0,
                radix as int,
            ));
            assert(mv0 == abs_val(self@));
            assert(mv0 > 0) by {
                if self.sign == 0 {
                    assert(self@ == 0 * mv0);
                }
            }
            assert(digits_out@.len() > 0);
        }
        // Emit the sign and the digits, most significant first.
        let mut out = String::new();
        if self.is_negative() {
            let minus = "-";
            proof {
                reveal_strlit("-");
            }
            out.append(minus);
        }
        let ghost sign_part: Seq<char> = out@;
        let nd = digits_out.len();
        let mut k: usize = 0;
        let ghost ds: Seq<int> = digits_out@.map_values(|d: u8| d as int);
        while k < nd
            invariant
                k <= nd,
                nd == digits_out@.len(),
                ds == digits_out@.map_values(|d: u8| d as int),
                forall|j: int| 0 <= j < nd ==> digits_out@[j] < 36,
                out@ == sign_part + Seq::new(k as nat, |i: int| digit_char(ds[ds.len() - 1 - i])),
            decreases nd - k,
        {
            let d = digits_out[nd - 1 - k];
            out.append(digit_str(d));
            proof {
                assert(out@ =~= sign_part + Seq::new(
                    (k + 1) as nat,
                    |i: int| digit_char(ds[ds.len() - 1 - i]),
                ));
            }
            k = k + 1;
        }
        proof {
            let chars = Seq::new(ds.len(), |i: int| digit_char(ds[ds.len() - 1 - i]));
            if self@ < 0 {
                assert(sign_part =~= seq![(45u8) as char]) by {
                    reveal_strlit("-");
                    assert(('-') as u32 == 45);
                }
                assert(out@ =~= seq![(45u8) as char] + chars);
            } else {
                assert(sign_part =~= Seq::<char>::empty());
                assert(out@ =~= chars);
            }
        }
        out
    }

    /// Formats the value in decimal.
    pub fn to_string(&self) -> (r: String)
        requires
            self.wf(),
        ensures
            r@ == to_string_spec(self@, 10),
    {
        self.to_string_radix(10)
    }
}

/// A digit character carries its value back, is no separator, no sign mark,
/// and is `0` only for the value zero.
proof fn lemma_digit_char_val(d: int)
    requires
        0 <= d < 36,
    ensures
        digit_val(digit_char(d)) == d,
        !is_sep(digit_char(d)),
        digit_char(d) as u32 != 45,
        digit_char(d) as u32 != 43,
        (digit_char(d) as u32 == 48) <==> (d == 0),
{
    if d < 10 {
        assert(((48 + d) as u8) as char as u32 == 48 + d);
    } else {
        assert(((87 + d) as u8) as char as u32 == 87 + d);
    }
}

/// Every digit of the expansion lies below the radix, and the leading digit
/// of a positive number is not zero.
proof fn lemma_ntd_shape(n: int, r: int)
    requires
        n >= 0,
        2 <= r,
    ensures
        forall|j: int| 0 <= j < nat_to_digits(n, r).len() ==> 0 <= #[trigger] nat_to_digits(
            n,
            r,
        )[j] < r,
        n > 0 ==> nat_to_digits(n, r).len() > 0 && nat_to_digits(n, r).last() != 0,
    decreases n,
{
    if n > 0 {
        vstd::arithmetic::div_mod::lemma_fundamental_div_mod(n, r);
        assert(0 <= n / r < n) by (nonlinear_arith)
            requires
                n == r * (n / r) + n % r,
                0 <= n % r < r,
                n > 0,
                r >= 2,
        ;
        lemma_ntd_shape(n / r, r);
        let ds = nat_to_digits(n, r);
        let rest = nat_to_digits(n / r, r);
        assert(ds == seq![n % r] + rest);
        assert(forall|j: int| 1 <= j < ds.len() ==> ds[j] == rest[j - 1]);
        if n / r == 0 {
            assert(rest.len() == 0);
            assert(ds.last() == n % r);
            assert(n % r != 0) by (nonlinear_arith)
                requires
                    n == r * (n / r) + n % r,
                    n / r == 0,
                    n > 0,
            ;
        } else {
            assert(ds.last() == rest.last());
        }
    }
}

/// Folding the digits one by one, as the scanner does.
pub open spec fn scan_fold(acc: int, ds: Seq<int>, r: int) -> int
    decreases ds.len(),
{
    if ds.len() == 0 {
        acc
    } else {
        scan_fold(acc * r + ds[0], ds.skip(1), r)
    }
}

proof fn lemma_scan_fold_snoc(acc: int, ds: Seq<int>, d: int, r: int)
    ensures
        scan_fold(acc, ds.push(d), r) == scan_fold(acc, ds, r) * r + d,
    decreases ds.len(),
{
    if ds.len() == 0 {
        assert(ds.push(d)[0] == d);
        assert(ds.push(d).skip(1) =~= Seq::<int>::empty());
        assert(scan_fold(acc * r + d, Seq::<int>::empty(), r) == acc * r + d);
        assert(scan_fold(acc, ds, r) == acc);
    } else {
        assert(ds.push(d).skip(1) =~= ds.skip(1).push(d));
        assert(ds.push(d)[0] == ds[0]);
        lemma_scan_fold_snoc(acc * r + ds[0], ds.skip(1), d, r);
    }
}

/// The reversal of an integer sequence.
pub open spec fn rev_ints(ds: Seq<int>) -> Seq<int> {
    Seq::new(ds.len(), |i: int| ds[ds.len() - 1 - i])
}

/// Folding the reversed digit expansion recovers the number.
proof fn lemma_fold_rev_ntd(acc: int, n: int, r: int)
    requires
        n >= 0,
        2 <= r,
    ensures
        scan_fold(acc, rev_ints(nat_to_digits(n, r)), r) == acc * pow(
            r,
            nat_to_digits(n, r).len(),
        ) + n,
    decreases n,
{
    let ds = nat_to_digits(n, r);
    if n == 0 {
        assert(rev_ints(ds) =~= Seq::<int>::empty());
        vstd::arithmetic::power::lemma_pow0(r);
        assert(acc * 1 == acc) by (nonlinear_arith);
    } else {
        vstd::arithmetic::div_mod::lemma_fundamental_div_mod(n, r);
        assert(0 <= n / r < n) by (nonlinear_arith)
            requires
                n == r * (n / r) + n % r,
                0 <= n % r < r,
                n > 0,
                r >= 2,
        ;
        lemma_fold_rev_ntd(acc, n / r, r);
        let rest = nat_to_digits(n / r, r);
        assert(ds == seq![n % r] + rest);
        assert(rev_ints(ds) =~= rev_ints(rest).push(n % r));
        lemma_scan_fold_snoc(acc, rev_ints(rest), n % r, r);
        crate::utils::lemma_pow_succ(r, rest.len());
        assert((acc * pow(r, rest.len()) + n / r) * r + n % r == acc * (r * pow(r, rest.len()))
            + n) by (nonlinear_arith)
            requires
                n == r * (n / r) + n % r,
        ;
        assert(ds.len() == rest.len() + 1);
    }
}

/// Scanning a run of plain digit characters folds their values.
proof fn lemma_scan_pure_digits(s: Seq<char>, i: int, r: int, acc: int, ds: Seq<int>, seen: bool)
    requires
        2 <= r <= 36,
        0 <= i <= s.len(),
        s.len() - i == ds.len(),
        forall|j: int| 0 <= j < ds.len() ==> s[i + j] == digit_char(#[trigger] ds[j]) && 0 <= ds[j]
            < r,
        seen || ds.len() > 0,
    ensures
        scan_digits(s, i, r, acc, seen, false) == Ok::<int, ParseError>(scan_fold(acc, ds, r)),
    decreases ds.len(),
{
    if ds.len() == 0 {
    } else {
        assert(s[i + 0] == digit_char(ds[0]));
        lemma_digit_char_val(ds[0]);
        assert(ds.skip(1).len() == ds.len() - 1);
        assert(forall|j: int|
            0 <= j < ds.skip(1).len() ==> s[i + 1 + j] == digit_char(#[trigger] ds.skip(1)[j]) && 0
                <= ds.skip(1)[j] < r) by {
            assert(forall|j: int| 0 <= j < ds.skip(1).len() ==> ds.skip(1)[j] == ds[j + 1]);
        }
        lemma_scan_pure_digits(s, i + 1, r, acc * r + ds[0], ds.skip(1), true);
        assert(ds.skip(1) =~= ds.skip(1));
    }
}

/// Formatting and then parsing in the same radix gives the number back: the
/// printer's output is always a valid numeral for the parser, and it reads
/// back to the same value.
pub proof fn lemma_parse_format_round_trip(x: int, radix: int)
    requires
        2 <= radix <= 36,
    ensures
        parse_spec(to_string_spec(x, radix), radix) == Ok::<int, ParseError>(x),
{
    let s = to_string_spec(x, radix);
    if x == 0 {
        lemma_digit_char_val(0);
        assert(s.len() == 1 && s[0] == digit_char(0));
        assert(sign_len(s) == 0);
        assert(prefix_len(s, 0, radix) == 0);
        assert(effective_radix(s, 0, radix) == radix);
        assert(scan_digits(s, 0, radix, 0, false, false) == scan_digits(
            s,
            1,
            radix,
            0,
            true,
            false,
        ));
        assert(scan_digits(s, 1, radix, 0, true, false) == Ok::<int, ParseError>(0));
        assert(sign_of(s) * 0 == 0) by (nonlinear_arith);
    } else {
        let a = if x > 0 {
            x
        } else {
            -x
        };
        let ds = nat_to_digits(a, radix);
        let rds = rev_ints(ds);
        lemma_ntd_shape(a, radix);
        let chars = Seq::new(ds.len(), |i: int| digit_char(ds[ds.len() - 1 - i]));
        let i0: int = if x < 0 {
            1
        } else {
            0
        };
        assert(abs_val(x) == a);
        // The string is the optional minus sign followed by the digit chars.
        assert(s.len() == i0 + ds.len());
        assert(forall|j: int| 0 <= j < ds.len() ==> s[i0 + j] == digit_char(#[trigger] rds[j]))
            by {
            assert(forall|j: int| 0 <= j < ds.len() ==> chars[j] == digit_char(rds[j]));
        }
        assert(forall|j: int| 0 <= j < rds.len() ==> 0 <= #[trigger] rds[j] < radix);
        // Sign handling.
        if x < 0 {
            assert(s[0] == (45u8) as char);
            assert(s[0] as u32 == 45);
            assert(sign_len(s) == 1 && sign_of(s) == -1);
        } else {
            assert(s[0] == digit_char(rds[0]));
            lemma_digit_char_val(rds[0]);
            assert(sign_len(s) == 0 && sign_of(s) == 1);
        }
        // The first digit is not zero, so no radix prefix is recognised.
        assert(rds[0] == ds.last());
        assert(rds[0] != 0);
        assert(s[i0] == digit_char(rds[0]));
        lemma_digit_char_val(rds[0]);
        assert(s[i0] as u32 != 48);
        assert(prefix_len(s, i0, radix) == 0);
        assert(effective_radix(s, i0, radix) == radix);
        // Scan the digit run and fold it back.
        lemma_scan_pure_digits(s, i0, radix, 0, rds, false);
        lemma_fold_rev_ntd(0, a, radix);
        assert(0 * pow(radix, ds.len()) == 0) by (nonlinear_arith);
        assert(scan_digits(s, i0, radix, 0, false, false) == Ok::<int, ParseError>(a));
        if x < 0 {
            assert(sign_of(s) * a == x) by (nonlinear_arith)
                requires
                    sign_of(s) == -1,
                    a == -x,
            ;
        } else {
            assert(sign_of(s) * a == x) by (nonlinear_arith)
                requires
                    sign_of(s) == 1,
                    a == x,
            ;
        }
    }
}

} // verus!
