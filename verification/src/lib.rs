//! A twisted Edwards elliptic-curve arithmetic engine over a prime field:
//! affine and extended projective point representations with a complete
//! (unified) addition law, scalar multiplication, amortized-inversion batch
//! normalization, a Tonelli–Shanks square root, canonical point encoding with
//! an embedded sign bit, and a deterministic hash-to-curve map.
//!
//! Field elements are little-endian sequences of base `2^32` digits; the
//! low-level big-integer arithmetic is delegated to an external big-integer
//! library, and every contract is stated over the natural number such a
//! sequence stands for.

pub mod affine;
pub mod codec;
pub mod curve;
pub mod digits;
pub mod field;
pub mod hash;
pub mod laws;
pub mod modular;
pub mod montgomery;
pub mod primes;
pub mod program;
pub mod projective;
