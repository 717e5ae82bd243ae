//! Proof-carrying program input: a program's verification key and proof,
//! held as opaque byte strings so the container is generic over the proving
//! system that produced them.

use vstd::prelude::*;

verus! {

/// A program verification key and proof, represented as bytes.
#[derive(Clone)]
pub struct PrivateProgramInput {
    /// The serialized verification key.
    pub verification_key: Vec<u8>,
    /// The serialized proof.
    pub proof: Vec<u8>,
}

} // verus!
