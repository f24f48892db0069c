//! The secret key of the client.

use crate::encrypt::is_binary;
use crate::engine::GadgetEngine;
use crate::error::GadgetError;
use crate::parameters::GadgetParameters;
use vstd::prelude::*;

verus! {

/// The client's secret key: a binary LWE secret of `n` coefficients, used to encrypt inputs
/// and decrypt outputs, and a binary GLWE secret of `k` polynomials of `N` coefficients,
/// used with it to generate the server key.
#[derive(Clone, Debug, PartialEq, Eq)]
pub struct ClientKey {
    pub lwe_secret_key: Vec<u32>,
    pub glwe_secret_key: Vec<u32>,
    pub parameters: GadgetParameters,
}

impl ClientKey {
    /// The key matches its parameters.
    pub open spec fn wf(&self) -> bool {
        &&& self.parameters.wf()
        &&& self.lwe_secret_key@.len() == self.parameters.lwe_dimension
        &&& self.glwe_secret_key@.len() == self.parameters.glwe_dimension
            * self.parameters.polynomial_size
        &&& is_binary(self.lwe_secret_key@)
        &&& is_binary(self.glwe_secret_key@)
    }

    /// Generates a client key for `parameter_set` with the secret generator of `engine`.
    pub fn new(parameter_set: &GadgetParameters, engine: &mut GadgetEngine) -> (r: Result<
        ClientKey,
        GadgetError,
    >)
        ensures
            !parameter_set.wf() <==> r == Err::<ClientKey, GadgetError>(
                GadgetError::ParameterError,
            ),
            r matches Ok(ck) ==> ck.wf() && ck.parameters == *parameter_set,
            r is Err ==> r == Err::<ClientKey, GadgetError>(GadgetError::ParameterError) || r
                == Err::<ClientKey, GadgetError>(GadgetError::KeyGenError),
    {
        engine.create_client_key(parameter_set)
    }
}

} // verus!
