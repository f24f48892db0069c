//! Gate bootstrapping over LWE ciphertexts with p-ary encodings.
//!
//! A gate of up to six Boolean inputs is evaluated by forming a scaled sum of its
//! encrypted inputs in ℤ_p and refreshing that sum through one programmable
//! bootstrap whose test vector holds its truth table.

pub mod boolean;
pub mod ciphertext;
pub mod client_key;
pub mod encoding;
pub mod encrypt;
pub mod engine;
pub mod error;
pub mod lwe;
pub mod parameters;
pub mod pbs;
pub mod plaintext;
pub mod poly;
pub mod random;
pub mod server_key;

use crate::client_key::ClientKey;
use crate::engine::{server_key_of, GadgetEngine};
use crate::error::GadgetError;
use crate::parameters::GadgetParameters;
use crate::server_key::ServerKey;
use vstd::prelude::*;

verus! {

/// Generates a client key for `parameter_set` and the matching server key, with the
/// generators of `engine`.
pub fn gen_keys(parameter_set: &GadgetParameters, engine: &mut GadgetEngine) -> (r: Result<
    (ClientKey, ServerKey),
    GadgetError,
>)
    ensures
        !parameter_set.wf() <==> r == Err::<(ClientKey, ServerKey), GadgetError>(
            GadgetError::ParameterError,
        ),
        r matches Ok((ck, sk)) ==> ck.wf() && ck.parameters == *parameter_set && server_key_of(
            sk,
            ck,
        ),
        r is Err ==> r == Err::<(ClientKey, ServerKey), GadgetError>(GadgetError::ParameterError)
            || r == Err::<(ClientKey, ServerKey), GadgetError>(GadgetError::KeyGenError),
{
    let client_key = match ClientKey::new(parameter_set, engine) {
        Ok(ck) => ck,
        Err(e) => {
            return Err(e);
        },
    };
    let server_key = match ServerKey::new(&client_key, engine) {
        Ok(sk) => sk,
        Err(e) => {
            return Err(e);
        },
    };
    Ok((client_key, server_key))
}

} // verus!
