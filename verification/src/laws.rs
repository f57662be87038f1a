//! The algebraic laws of the arithmetic surface, stated over the
//! mathematical values that the operations' contracts speak of.
//!
//! Every arithmetic operation of [`crate::big_int::BigInt`] states its result
//! as an integer equation (`add` returns `self@ + other@`, and so on), so the
//! ring laws hold of the operations exactly when they hold of the integers;
//! they are recorded here.  Canonical-form uniqueness
//! ([`crate::big_int::BigInt::lemma_value_determines_repr`]) then lifts each
//! value-level law to representation equality, which is what the round-trip
//! laws of the codecs rest on as well.

use vstd::prelude::*;

use crate::big_int::BigInt;
use crate::codec::{parse_spec, tc_val, to_string_spec, Endianness, ParseError};
use crate::utils::gcd_int;

verus! {

/// Adding and then subtracting the same value is the identity:
/// `a + b - b == a`.
pub proof fn lemma_add_sub_cancel(a: int, b: int)
    ensures
        (a + b) - b == a,
{
}

/// Multiplication of values is commutative: `a * b == b * a`.
pub proof fn lemma_mul_comm(a: int, b: int)
    ensures
        a * b == b * a,
{
    vstd::arithmetic::mul::lemma_mul_is_commutative(a, b);
}

/// Addition of values is associative: `(a + b) + c == a + (b + c)`.
pub proof fn lemma_add_assoc(a: int, b: int, c: int)
    ensures
        (a + b) + c == a + (b + c),
{
}

/// The GCD laws: `gcd(a, 0) == a`, `gcd(0, 0) == 0` and symmetry, for the
/// non-negative magnitudes that [`crate::big_int::BigInt::gcd`] reports.
pub proof fn lemma_gcd_laws(a: int, b: int)
    requires
        a >= 0,
        b >= 0,
    ensures
        gcd_int(a, 0) == a,
        gcd_int(0, 0) == 0,
        gcd_int(a, b) == gcd_int(b, a),
{
    crate::utils::lemma_gcd_zero(a);
    crate::utils::lemma_gcd_comm(a, b);
}

/// The byte round trip: a buffer that encodes a value (which is what
/// [`BigInt::to_bytes`] ensures of its output) decodes back to the very same
/// representation through [`BigInt::from_bytes`].  The reverse direction
/// rests on [`crate::codec::lemma_tc_minimal_unique`]: a value has only one
/// minimal encoding.
pub proof fn lemma_bytes_round_trip(x: &BigInt, buffer: Seq<u8>, e: Endianness, back: &BigInt)
    requires
        x.wf(),
        back.wf(),
        tc_val(buffer, e) == x@,
        back@ == tc_val(buffer, e),
    ensures
        back.sign == x.sign,
        back.digits@ == x.digits@,
{
    BigInt::lemma_value_determines_repr(back, x);
}

/// The text round trip: the decimal (or any radix's) text of a value parses
/// back to the very same representation.  The value level is
/// [`crate::codec::lemma_parse_format_round_trip`]; canonical-form
/// uniqueness lifts it to the representation.
pub proof fn lemma_text_round_trip(x: &BigInt, radix: int, back: &BigInt)
    requires
        x.wf(),
        back.wf(),
        2 <= radix <= 36,
        Ok::<int, ParseError>(back@) == parse_spec(to_string_spec(x@, radix), radix),
    ensures
        back.sign == x.sign,
        back.digits@ == x.digits@,
{
    crate::codec::lemma_parse_format_round_trip(x@, radix);
    BigInt::lemma_value_determines_repr(back, x);
}

} // verus!
