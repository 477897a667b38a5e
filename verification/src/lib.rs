//! A Keccak-family sponge hash built from first principles: an arbitrary-length
//! bit-string container (`bit_string`), the Keccak-p permutation, and the
//! sponge construction (padding, absorbing, squeezing) on top of it (`keccak`).

use vstd::prelude::*;

pub mod bit_string;
pub mod keccak;

verus! {

/// Failure modes of the fallible operations of this library.
///
/// Canonical-form violations of `BitString` have no variant here: every
/// mutator is proved to leave the vector canonical, so that failure mode
/// is unreachable by verification.
#[derive(Debug, Clone, Copy, PartialEq, Eq, Structural)]
pub enum KeccakError {
    /// A construction parameter outside its documented set: an unsupported
    /// permutation width or round count, a security parameter that leaves
    /// no positive rate, or a malformed binary-character string.
    InvalidParameter,
    /// An extraction range that does not fit the vector.
    RangeError,
}

} // verus!
