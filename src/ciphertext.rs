//! Ciphertexts of gate inputs and outputs.

use crate::lwe::LweCiphertext;
use vstd::prelude::*;

verus! {

/// A bit, either encrypted or told to the server in the clear.
#[derive(Clone, Debug)]
pub enum Ciphertext {
    Encrypted(LweCiphertext),
    Trivial(bool),
}

} // verus!
