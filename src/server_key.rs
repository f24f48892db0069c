//! The server's public key material.

use crate::ciphertext::Ciphertext;
use crate::client_key::ClientKey;
use crate::encoding::Encoding;
use crate::engine::{
    bootstrap_trivial, bootstrap_with, bootstrappable, partial_sum, refresh_spec, trivial_lookup, evaluate_gate_with, inputs_fit, lwe_fits, server_key_of,
    GadgetEngine, Memory,
};
use crate::error::GadgetError;
use crate::parameters::GadgetParameters;
use crate::parameters::lemma_sizes;
use crate::pbs::{ggsw_rows, ComputationBuffers};
use crate::poly::lemma_block;
use crate::random::CsRng;
use vstd::prelude::*;

verus! {

/// The bootstrap key and the keyswitch key, published by the client to the server.
#[derive(Clone, Debug)]
pub struct ServerKey {
    pub bootstrapping_key: Vec<u32>,
    pub key_switching_key: Vec<u32>,
    pub parameters: GadgetParameters,
}

impl ServerKey {
    /// The key matches its parameters.
    pub open spec fn wf(&self) -> bool {
        &&& self.parameters.wf()
        &&& self.bootstrapping_key@.len() == self.parameters.bsk_len()
        &&& self.key_switching_key@.len() == self.parameters.ksk_len()
    }

    /// Generates the server key of `client_key` with the generators of `engine`.
    pub fn new(client_key: &ClientKey, engine: &mut GadgetEngine) -> (r: Result<ServerKey, GadgetError>)
        requires
            client_key.wf(),
        ensures
            r matches Ok(sk) ==> server_key_of(sk, *client_key),
            r is Err ==> r == Err::<ServerKey, GadgetError>(GadgetError::KeyGenError),
    {
        engine.create_server_key(client_key)
    }

    /// Bootstraps `ct` with the lookup of `encoding`, in scratch space of its own; a trivial
    /// bit passes through unchanged.
    pub fn bootstrap(&self, ct: Ciphertext, encoding: &Encoding) -> (r: Result<Ciphertext, GadgetError>)
        requires
            self.wf(),
        ensures
            ct matches Ciphertext::Trivial(b) ==> trivial_lookup(*encoding, b, r),
            ct matches Ciphertext::Encrypted(c) ==> (r is Ok <==> (bootstrappable(
                self.parameters,
                *encoding,
            ) && lwe_fits(c, self.parameters))),
            ct matches Ciphertext::Encrypted(c0) ==> (r matches Ok(o) ==> o matches Ciphertext::Encrypted(c)
                && lwe_fits(c, self.parameters) && c.data@ == refresh_spec(*self, c0.data@, *encoding)),
    {
        match ct {
            Ciphertext::Encrypted(lwe_ct) => {
                let mut memory = Memory::new();
                let mut buffers = ComputationBuffers::new();
                bootstrap_with(&mut memory, &mut buffers, lwe_ct, self, encoding)
            },
            Ciphertext::Trivial(b) => bootstrap_trivial(encoding, b),
        }
    }

    /// Evaluates `encoding`'s gate on `input_ciphertexts`, in scratch space of its own.
    pub fn evaluate_gate(&self, input_ciphertexts: Vec<Ciphertext>, encoding: &Encoding) -> (r:
        Result<Ciphertext, GadgetError>)
        requires
            self.wf(),
        ensures
            r is Ok <==> (bootstrappable(self.parameters, *encoding) && input_ciphertexts@.len()
                == encoding.pin_count && inputs_fit(
                input_ciphertexts@,
                self.parameters.lwe_dimension + 1,
            )),
            r matches Ok(o) ==> o matches Ciphertext::Encrypted(c) && lwe_fits(c, self.parameters)
                && c.data@ == refresh_spec(
                *self,
                partial_sum(
                    *encoding,
                    input_ciphertexts@,
                    input_ciphertexts@.len() as int,
                    self.parameters.lwe_dimension + 1,
                ),
                *encoding,
            ),
            r == Err::<Ciphertext, GadgetError>(GadgetError::EncodingError) <==> (
            input_ciphertexts@.len() == encoding.pin_count && inputs_fit(
                input_ciphertexts@,
                self.parameters.lwe_dimension + 1,
            ) && encoding.params_ok() && 2 * encoding.p <= self.parameters.polynomial_size
                && !encoding.wf()),
            r == Err::<Ciphertext, GadgetError>(GadgetError::ParameterError) <==> (
            input_ciphertexts@.len() != encoding.pin_count || !inputs_fit(
                input_ciphertexts@,
                self.parameters.lwe_dimension + 1,
            ) || !encoding.params_ok() || 2 * encoding.p > self.parameters.polynomial_size),
    {
        let mut memory = Memory::new();
        let mut buffers = ComputationBuffers::new();
        evaluate_gate_with(&mut memory, &mut buffers, self, encoding, &input_ciphertexts)
    }

    /// The number of words of the bootstrap key.
    pub fn bootstrapping_key_size_elements(&self) -> (r: usize)
        ensures
            r == self.bootstrapping_key@.len(),
    {
        self.bootstrapping_key.len()
    }

    /// The size of the bootstrap key in bytes (a `u64`, as it may pass `usize` on 32-bit targets).
    pub fn bootstrapping_key_size_bytes(&self) -> (r: u64)
        requires
            self.wf(),
        ensures
            r == 4 * self.bootstrapping_key@.len(),
    {
        4 * (self.bootstrapping_key.len() as u64)
    }

    /// The number of words of the keyswitch key.
    pub fn key_switching_key_size_elements(&self) -> (r: usize)
        ensures
            r == self.key_switching_key@.len(),
    {
        self.key_switching_key.len()
    }

    /// The size of the keyswitch key in bytes (a `u64`, as it may pass `usize` on 32-bit targets).
    pub fn key_switching_key_size_bytes(&self) -> (r: u64)
        requires
            self.wf(),
        ensures
            r == 4 * self.key_switching_key@.len(),
    {
        4 * (self.key_switching_key.len() as u64)
    }
}

/// GLWE rows of the bootstrap key: `n·(k + 1)·ℓ`.
pub open spec fn bsk_rows(params: GadgetParameters) -> int {
    params.lwe_dimension * ggsw_rows(params)
}

/// LWE rows of the keyswitch key: `kN·ℓ_ks`.
pub open spec fn ksk_rows(params: GadgetParameters) -> int {
    (params.glwe_dimension * params.polynomial_size) * params.ks_level
}

/// A server key without its masks: the masks are the stream of a generator seeded by
/// `mask_seed`, drawn row by row, bootstrap key first; only the bodies are kept.
#[derive(Clone, Debug)]
pub struct CompressedServerKey {
    pub mask_seed: u128,
    /// The body polynomial (`N` words) of each GLWE row of the bootstrap key.
    pub bootstrapping_key_bodies: Vec<u32>,
    /// The body word of each LWE row of the keyswitch key.
    pub key_switching_key_bodies: Vec<u32>,
    pub parameters: GadgetParameters,
}

impl CompressedServerKey {
    /// The bodies match the parameters.
    pub open spec fn wf(&self) -> bool {
        &&& self.parameters.wf()
        &&& self.bootstrapping_key_bodies@.len() == bsk_rows(self.parameters)
            * self.parameters.polynomial_size
        &&& self.key_switching_key_bodies@.len() == ksk_rows(self.parameters)
    }

    /// The bodies of `server_key` are the stored ones: the body polynomial of every GLWE row of
    /// its bootstrap key and the body word of every LWE row of its keyswitch key.
    pub open spec fn bodies_of(&self, server_key: ServerKey) -> bool {
        let prm = self.parameters;
        let n = prm.polynomial_size as int;
        let kn = prm.glwe_dimension * n;
        let lwe_size = prm.lwe_dimension + 1;
        &&& forall|q: int, t: int|
            0 <= q < bsk_rows(prm) && 0 <= t < n ==> server_key.bootstrapping_key@[q * prm.glwe_len()
                + kn + t] == #[trigger] self.bootstrapping_key_bodies@[q * n + t]
        &&& forall|q: int|
            0 <= q < ksk_rows(prm) ==> server_key.key_switching_key@[q * lwe_size + lwe_size - 1]
                == #[trigger] self.key_switching_key_bodies@[q]
    }

    /// Keeps the bodies of a server key whose masks were drawn from a generator seeded by
    /// `mask_seed`.
    pub fn from_server_key(server_key: &ServerKey, mask_seed: u128) -> (r: CompressedServerKey)
        requires
            server_key.wf(),
        ensures
            r.wf(),
            r.bodies_of(*server_key),
            r.parameters == server_key.parameters,
            r.mask_seed == mask_seed,
    {
        let prm = server_key.parameters;
        proof {
            lemma_sizes(prm);
        }
        let n = prm.polynomial_size;
        let kn = prm.glwe_dimension * n;
        let glwe_len = kn + n;
        let rows = prm.lwe_dimension * ((prm.glwe_dimension + 1) * prm.pbs_level);
        proof {
            assert(prm.bsk_len() == rows * glwe_len) by (nonlinear_arith)
                requires
                    prm.bsk_len() == prm.lwe_dimension * ggsw_rows(prm) * prm.glwe_len(),
                    rows == prm.lwe_dimension * ggsw_rows(prm),
                    glwe_len == prm.glwe_len(),
            ;
            assert(rows * n <= rows * glwe_len) by (nonlinear_arith)
                requires n <= glwe_len, rows >= 0;
        }
        let mut bodies: Vec<u32> = Vec::with_capacity(rows * n);
        let mut q: usize = 0;
        while q < rows
            invariant
                server_key.wf(),
                prm == server_key.parameters,
                glwe_len == kn + n,
                rows * glwe_len == prm.bsk_len(),
                rows * n <= rows * glwe_len,
                server_key.bootstrapping_key@.len() == prm.bsk_len(),
                prm.bsk_len() <= 0xffff_ffff,
                q <= rows,
                bodies@.len() == q * n,
                n == prm.polynomial_size,
                kn == prm.glwe_dimension * n,
                n >= 1,
                forall|idx: int|
                    0 <= idx < bodies@.len() ==> #[trigger] bodies@[idx]
                        == server_key.bootstrapping_key@[(idx / n as int) * glwe_len + kn + idx % n as int],
            decreases rows - q,
        {
            proof {
                lemma_block(q as int, rows as int, glwe_len as int);
                lemma_block(q as int, rows as int, n as int);
            }
            let base = q * glwe_len + kn;
            let mut t: usize = 0;
            while t < n
                invariant
                    base + n <= server_key.bootstrapping_key@.len(),
                    server_key.bootstrapping_key@.len() <= 0xffff_ffff,
                    bodies@.len() == q * n + t,
                    q * n + n <= rows * n,
                    rows * n <= rows * glwe_len,
                    rows * glwe_len == server_key.bootstrapping_key@.len(),
                    t <= n,
                    n >= 1,
                    base == q * glwe_len + kn,
                    forall|idx: int|
                        0 <= idx < bodies@.len() ==> #[trigger] bodies@[idx]
                            == server_key.bootstrapping_key@[(idx / n as int) * glwe_len + kn + idx % n as int],
                decreases n - t,
            {
                proof {
                    vstd::arithmetic::div_mod::lemma_fundamental_div_mod_converse((q * n + t) as int, n as int, q as int, t as int);
                }
                bodies.push(server_key.bootstrapping_key[base + t]);
                t = t + 1;
            }
            proof {
                assert(q * n + n == (q + 1) * n) by (nonlinear_arith);
            }
            q = q + 1;
        }
        let ks_rows = kn * prm.ks_level;
        let lwe_size = prm.lwe_dimension + 1;
        let mut ks_bodies: Vec<u32> = Vec::with_capacity(ks_rows);
        let mut q: usize = 0;
        while q < ks_rows
            invariant
                server_key.wf(),
                prm == server_key.parameters,
                ks_rows == ksk_rows(prm),
                lwe_size == prm.lwe_dimension + 1,
                prm.ksk_len() == ks_rows * lwe_size,
                server_key.key_switching_key@.len() == prm.ksk_len(),
                q <= ks_rows,
                ks_bodies@.len() == q,
                forall|q2: int|
                    0 <= q2 < q ==> #[trigger] ks_bodies@[q2]
                        == server_key.key_switching_key@[q2 * lwe_size + lwe_size - 1],
            decreases ks_rows - q,
        {
            proof {
                lemma_block(q as int, ks_rows as int, lwe_size as int);
            }
            ks_bodies.push(server_key.key_switching_key[q * lwe_size + lwe_size - 1]);
            q = q + 1;
        }
        let r = CompressedServerKey {
            mask_seed,
            bootstrapping_key_bodies: bodies,
            key_switching_key_bodies: ks_bodies,
            parameters: prm,
        };
        proof {
            assert forall|q2: int, t: int| 0 <= q2 < bsk_rows(prm) && 0 <= t < n implies server_key.bootstrapping_key@[q2
                * prm.glwe_len() + kn + t] == #[trigger] r.bootstrapping_key_bodies@[q2 * n + t] by {
                vstd::arithmetic::div_mod::lemma_fundamental_div_mod_converse(q2 * n + t, n as int, q2, t);
                lemma_block(q2, rows as int, n as int);
            }
        }
        r
    }

    /// Rebuilds the server key: each row's mask drawn again from the generator seeded by
    /// `mask_seed`, then its stored body. `KeyGenError` when the generator is exhausted.
    pub fn decompress(&self) -> (r: Result<ServerKey, GadgetError>)
        requires
            self.wf(),
        ensures
            r matches Ok(sk) ==> sk.wf() && sk.parameters == self.parameters && self.bodies_of(sk),
            r is Err ==> r == Err::<ServerKey, GadgetError>(GadgetError::KeyGenError),
    {
        let prm = self.parameters;
        proof {
            lemma_sizes(prm);
        }
        let mut masks = CsRng::new(self.mask_seed);
        let n = prm.polynomial_size;
        let kn = prm.glwe_dimension * n;
        let glwe_len = kn + n;
        let rows = prm.lwe_dimension * ((prm.glwe_dimension + 1) * prm.pbs_level);
        proof {
            assert(prm.bsk_len() == rows * glwe_len) by (nonlinear_arith)
                requires
                    prm.bsk_len() == prm.lwe_dimension * ggsw_rows(prm) * prm.glwe_len(),
                    rows == prm.lwe_dimension * ggsw_rows(prm),
                    glwe_len == prm.glwe_len(),
            ;
        }
        let mut bsk: Vec<u32> = Vec::with_capacity(rows * glwe_len);
        let mut q: usize = 0;
        while q < rows
            invariant
                self.wf(),
                prm == self.parameters,
                glwe_len == kn + n,
                n == prm.polynomial_size,
                rows == bsk_rows(prm),
                rows * glwe_len == prm.bsk_len(),
                prm.bsk_len() <= 0xffff_ffff,
                rows * n <= prm.bsk_len(),
                self.bootstrapping_key_bodies@.len() == rows * n,
                q <= rows,
                bsk@.len() == q * glwe_len,
                kn == prm.glwe_dimension * n,
                forall|q2: int, t2: int|
                    0 <= q2 < q && 0 <= t2 < n ==> bsk@[q2 * glwe_len + kn + t2]
                        == #[trigger] self.bootstrapping_key_bodies@[q2 * n + t2],
            decreases rows - q,
        {
            proof {
                lemma_block(q as int, rows as int, glwe_len as int);
                lemma_block(q as int, rows as int, n as int);
            }
            let ghost done = bsk@;
            let mut t: usize = 0;
            while t < kn
                invariant
                    bsk@.len() == q * glwe_len + t,
                    done.len() == q * glwe_len,
                    bsk@.subrange(0, done.len() as int) == done,
                    q * glwe_len + glwe_len <= rows * glwe_len,
                    glwe_len == kn + n,
                    t <= kn,
                decreases kn - t,
            {
                let ghost before = bsk@;
                match masks.next_u32() {
                    Some(a) => bsk.push(a),
                    None => {
                        return Err(GadgetError::KeyGenError);
                    },
                }
                proof {
                    assert(bsk@.subrange(0, done.len() as int) =~= before.subrange(0, done.len() as int));
                }
                t = t + 1;
            }
            let base = q * n;
            let mut t: usize = 0;
            while t < n
                invariant
                    bsk@.len() == q * glwe_len + kn + t,
                    done.len() == q * glwe_len,
                    bsk@.subrange(0, done.len() as int) == done,
                    base == q * n,
                    forall|t2: int|
                        0 <= t2 < t ==> bsk@[q * glwe_len + kn + t2]
                            == #[trigger] self.bootstrapping_key_bodies@[base + t2],
                    q * glwe_len + glwe_len <= rows * glwe_len,
                    glwe_len == kn + n,
                    base + n <= self.bootstrapping_key_bodies@.len(),
                    self.bootstrapping_key_bodies@.len() <= 0xffff_ffff,
                    t <= n,
                decreases n - t,
            {
                let ghost before = bsk@;
                bsk.push(self.bootstrapping_key_bodies[base + t]);
                proof {
                    assert(bsk@.subrange(0, done.len() as int) =~= before.subrange(0, done.len() as int));
                }
                t = t + 1;
            }
            proof {
                assert(q * glwe_len + glwe_len == (q + 1) * glwe_len) by (nonlinear_arith);
                assert forall|q2: int, t2: int|
                    0 <= q2 < q + 1 && 0 <= t2 < n implies bsk@[q2 * glwe_len + kn + t2]
                        == #[trigger] self.bootstrapping_key_bodies@[q2 * n + t2] by {
                    if q2 < q {
                        assert(q2 * glwe_len + kn + t2 < q * glwe_len) by (nonlinear_arith)
                            requires q2 < q, kn + t2 < glwe_len, glwe_len == kn + n, t2 < n;
                        assert(q2 * glwe_len + kn + t2 >= 0) by (nonlinear_arith)
                            requires q2 >= 0, kn >= 0, t2 >= 0, glwe_len >= 0;
                        assert(bsk@[q2 * glwe_len + kn + t2] == bsk@.subrange(0, done.len() as int)[q2 * glwe_len + kn + t2]);
                    } else {
                        assert(q2 * n + t2 == base + t2);
                    }
                }
            }
            q = q + 1;
        }
        let ks_rows = kn * prm.ks_level;
        let lwe_dim = prm.lwe_dimension;
        let lwe_size = lwe_dim + 1;
        let mut ksk: Vec<u32> = Vec::new();
        let mut q: usize = 0;
        while q < ks_rows
            invariant
                self.wf(),
                prm == self.parameters,
                ks_rows == ksk_rows(prm),
                lwe_dim == prm.lwe_dimension,
                lwe_size == lwe_dim + 1,
                prm.ksk_len() == ks_rows * lwe_size,
                prm.ksk_len() <= 0xffff_ffff,
                self.key_switching_key_bodies@.len() == ks_rows,
                q <= ks_rows,
                ksk@.len() == q * lwe_size,
                forall|q2: int|
                    0 <= q2 < q ==> ksk@[q2 * lwe_size + lwe_size - 1]
                        == #[trigger] self.key_switching_key_bodies@[q2],
            decreases ks_rows - q,
        {
            proof {
                lemma_block(q as int, ks_rows as int, lwe_size as int);
            }
            let ghost done = ksk@;
            let mut t: usize = 0;
            while t < lwe_dim
                invariant
                    ksk@.len() == q * lwe_size + t,
                    done.len() == q * lwe_size,
                    ksk@.subrange(0, done.len() as int) == done,
                    q * lwe_size + lwe_size <= ks_rows * lwe_size,
                    lwe_size == lwe_dim + 1,
                    t <= lwe_dim,
                decreases lwe_dim - t,
            {
                let ghost before = ksk@;
                match masks.next_u32() {
                    Some(a) => ksk.push(a),
                    None => {
                        return Err(GadgetError::KeyGenError);
                    },
                }
                proof {
                    assert(ksk@.subrange(0, done.len() as int) =~= before.subrange(0, done.len() as int));
                }
                t = t + 1;
            }
            ksk.push(self.key_switching_key_bodies[q]);
            proof {
                assert(q * lwe_size + lwe_size == (q + 1) * lwe_size) by (nonlinear_arith);
                assert forall|q2: int| 0 <= q2 < q + 1 implies ksk@[q2 * lwe_size + lwe_size - 1]
                    == #[trigger] self.key_switching_key_bodies@[q2] by {
                    if q2 < q {
                        assert(q2 * lwe_size + lwe_size - 1 < q * lwe_size) by (nonlinear_arith)
                            requires q2 < q, lwe_size >= 1;
                        assert(q2 * lwe_size >= 0) by (nonlinear_arith)
                            requires q2 >= 0, lwe_size >= 1;
                        assert(ksk@[q2 * lwe_size + lwe_size - 1] == ksk@.subrange(0, done.len() as int)[q2 * lwe_size + lwe_size - 1]);
                    }
                }
            }
            q = q + 1;
        }
        Ok(ServerKey { bootstrapping_key: bsk, key_switching_key: ksk, parameters: prm })
    }
}

} // verus!
