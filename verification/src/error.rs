//! The ways in which a cipher operation can fail.
use vstd::prelude::*;

verus! {

/// Why a cipher operation gave no result.
#[derive(Debug, Clone, Copy, PartialEq, Eq, Structural)]
pub enum CipherError {
    /// The keyword is empty or holds a character outside the alphabet, or
    /// the column key is no permutation of 1 to 6.
    InvalidKey,
    /// A plaintext character has no representation in the cipher's alphabet.
    InvalidCharacter,
    /// The ciphertext cannot have come out of the cipher.
    MalformedCiphertext,
    /// The keyword stream is not as long as the text it goes with.
    LengthMismatch,
}

} // verus!
