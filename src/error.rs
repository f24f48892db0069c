//! Errors of the library.

use vstd::prelude::*;

verus! {

/// Why an operation was refused.
#[derive(Clone, Copy, Debug, PartialEq, Eq, Structural)]
pub enum GadgetError {
    /// A parameter is out of range: `p < 2`, a polynomial size too small for `p`, or an
    /// input count that differs from the encoding's pin count.
    ParameterError,
    /// The output sets of an encoding do not partition `[0, p)`, or a pin scalar is not in it.
    EncodingError,
    /// The random generator failed while keys were generated.
    KeyGenError,
    /// An underlying primitive failed.
    InternalError,
}

impl GadgetError {
    /// A short description of the error.
    pub fn message(&self) -> (r: &'static str) {
        match self {
            GadgetError::ParameterError => "invalid parameter",
            GadgetError::EncodingError => "invalid encoding",
            GadgetError::KeyGenError => "key generation failed",
            GadgetError::InternalError => "internal error",
        }
    }
}

} // verus!
