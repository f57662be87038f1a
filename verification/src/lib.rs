//! Arbitrary-precision sign-magnitude integers and exact reduced fractions.
//!
//! The crate is organised bottom-up:
//! - [`digits`] holds the digit-sequence engine: pure algorithms on
//!   little-endian base-256 digit vectors, each proved against the numeric
//!   value of the sequence;
//! - [`big_int`] wraps a digit sequence and a sign into the [`big_int::BigInt`]
//!   value type with arithmetic, division in two sign policies, GCD, powers
//!   (plain and modular) and shifts;
//! - [`bitwise`] gives the big integers AND, OR, XOR and NOT in the
//!   infinite-precision two's-complement reading;
//! - [`extras`] holds the derived queries: parity, bit length, power-of-two
//!   tests, the round-half-to-even remainder and the width-independent hash;
//! - [`codec`] parses integers from text in any radix 2..=36, formats them
//!   back, and encodes/decodes minimal two's-complement byte buffers;
//! - [`fraction`] keeps a numerator/denominator pair of big integers in lowest
//!   terms with a positive denominator;
//! - [`laws`] records the algebraic laws the contracts add up to;
//! - [`traits`] is the small capability surface (zero, one, absolute value,
//!   GCD, ...) shared by the value types and the machine integers;
//! - [`utils`] holds the scalar helpers (word-level GCD, floor logarithms,
//!   powers) and the greatest-common-divisor theory.

pub mod big_int;
pub mod bitwise;
pub mod codec;
pub mod digits;
pub mod extras;
pub mod fraction;
pub mod laws;
pub mod traits;
pub mod utils;
