//! The engine: a scratch arena, a bootstrapper and gate evaluation, with the random
//! generators for key generation and encryption.

use crate::ciphertext::Ciphertext;
use crate::client_key::ClientKey;
use crate::encoding::{test_vector_coeff, write_test_vector, Encoding};
use crate::encrypt::{
    binary_secret, bootstrap_key_encrypts, keyswitch_key_encrypts, generate_bootstrap_key, generate_keyswitch_key, lwe_encrypt, lwe_phase,
    EncryptionRandomGenerator,
};
use crate::error::GadgetError;
use crate::lwe::{
    cong, dot, encrypts_near, lemma_cong_add, lemma_cong_tmod, lemma_phase_affine,
    phase, within, LweCiphertext,
};
use crate::parameters::{lemma_sizes, GadgetParameters};
use crate::pbs::{
    blind_rotate, blind_rotate_spec, extracted_word, glwe_rotate_spec, keyswitch, keyswitch_spec,
    lemma_keyswitch_shift, sample_extract, ComputationBuffers,
};
use crate::poly::{rotated_coeff, lemma_block};
use crate::plaintext::{
    decode, decode_spec, encode, encode_spec, lemma_decode_encode, noise_fits, tmod,
};
use crate::random::{noise_bound, CsRng};
use crate::server_key::{CompressedServerKey, ServerKey};
use vstd::prelude::*;

verus! {

/// The three regions of the arena for one bootstrap, each as `(start, length)`.
#[derive(Clone, Copy, Debug, PartialEq, Eq)]
pub struct BuffersRef {
    /// The accumulator: a trivial GLWE ciphertext of the test vector, `(k + 1)·N` words.
    pub lookup_table: (usize, usize),
    /// The LWE ciphertext after a key switch, `n + 1` words.
    pub buffer_lwe_after_ks: (usize, usize),
    /// The LWE ciphertext after a bootstrap, `kN + 1` words.
    pub buffer_lwe_after_pbs: (usize, usize),
}

/// The accumulator of `encoding` as a sequence of `p + 1` entries.
pub open spec fn accumulator_of(encoding: Encoding) -> Seq<u32> {
    Seq::new((encoding.p + 1) as nat, |i: int| encoding.acc_entry(i))
}

/// The encoding can be bootstrapped with `params`: it is well formed and the polynomial has
/// at least two coefficients per value of ℤ_p.
pub open spec fn bootstrappable(params: GadgetParameters, encoding: Encoding) -> bool {
    &&& encoding.wf()
    &&& 2 * encoding.p <= params.polynomial_size
}

/// The first `(k + 1)·N` words of `buffer` hold the accumulator of `encoding` for the
/// parameters of `server_key`: a zero mask, then the test vector.
pub open spec fn lookup_table_written(buffer: Seq<u32>, server_key: ServerKey, encoding: Encoding) -> bool {
    let prm = server_key.parameters;
    let kn = prm.glwe_dimension * prm.polynomial_size;
    &&& buffer.len() >= prm.glwe_len()
    &&& forall|j: int| 0 <= j < kn ==> buffer[j] == 0
    &&& forall|j: int|
        0 <= j < prm.polynomial_size ==> buffer[kn + j] as int == #[trigger] test_vector_coeff(
            accumulator_of(encoding),
            encoding.p as int,
            prm.polynomial_size as int,
            j,
        )
}

/// No state leaks through the arena: two arenas prepared by `as_buffers` for the same key and
/// encoding hold the same lookup table, whatever they held before.
pub proof fn lemma_lookup_table_fresh(b1: Seq<u32>, b2: Seq<u32>, server_key: ServerKey, encoding: Encoding)
    requires
        server_key.wf(),
        lookup_table_written(b1, server_key, encoding),
        lookup_table_written(b2, server_key, encoding),
    ensures
        b1.subrange(0, server_key.parameters.glwe_len()) == b2.subrange(
            0,
            server_key.parameters.glwe_len(),
        ),
{
    let prm = server_key.parameters;
    let kn = prm.glwe_dimension * prm.polynomial_size;
    lemma_sizes(prm);
    assert forall|j: int| 0 <= j < prm.glwe_len() implies b1[j] == b2[j] by {
        if j >= kn {
            let t = j - kn;
            assert(b1[kn + t] as int == test_vector_coeff(
                accumulator_of(encoding),
                encoding.p as int,
                prm.polynomial_size as int,
                t,
            ));
            assert(b2[kn + t] as int == test_vector_coeff(
                accumulator_of(encoding),
                encoding.p as int,
                prm.polynomial_size as int,
                t,
            ));
        }
    }
    assert(b1.subrange(0, prm.glwe_len()) =~= b2.subrange(0, prm.glwe_len()));
}

/// The bootstrap of a clear bit `b` is its lookup, after the encoding's checks: the bit is
/// read as `b ∈ ℤ_p`, and the result is clear 0 when it lies in the 0-set, clear 1 otherwise.
pub open spec fn trivial_lookup(encoding: Encoding, b: bool, r: Result<Ciphertext, GadgetError>) -> bool {
    &&& (r is Ok <==> encoding.wf())
    &&& (r == Err::<Ciphertext, GadgetError>(GadgetError::ParameterError) <==> !encoding.params_ok())
    &&& (r == Err::<Ciphertext, GadgetError>(GadgetError::EncodingError) <==> (encoding.params_ok()
        && !encoding.wf()))
    &&& (r is Ok ==> r == Ok::<Ciphertext, GadgetError>(
        Ciphertext::Trivial(!encoding.output_encodings_0@.contains(if b { 1u32 } else { 0u32 })),
    ))
}

/// Looks a clear bit up in `encoding`'s output partition (see `trivial_lookup`).
pub fn bootstrap_trivial(encoding: &Encoding, b: bool) -> (r: Result<Ciphertext, GadgetError>)
    ensures
        trivial_lookup(*encoding, b, r),
{
    match encoding.validate() {
        Ok(()) => {},
        Err(e) => {
            return Err(e);
        },
    }
    let v: u32 = if b { 1 } else { 0 };
    Ok(Ciphertext::Trivial(!crate::encoding::contains(&encoding.output_encodings_0, v)))
}

/// A growable word buffer, sliced into the regions of one bootstrap at a time.
pub struct Memory {
    pub buffer: Vec<u32>,
}

impl Memory {
    /// An empty arena.
    pub fn new() -> (r: Memory)
        ensures
            r.buffer@.len() == 0,
    {
        Memory { buffer: Vec::new() }
    }

    /// Grows the arena to hold the three regions of a bootstrap with `server_key`, writes the
    /// accumulator of `encoding` into the first (mask zero, body the test vector) and returns
    /// the regions. What the arena held before does not show in the accumulator.
    pub fn as_buffers(&mut self, server_key: &ServerKey, encoding: &Encoding) -> (r: BuffersRef)
        requires
            server_key.wf(),
            encoding.params_ok(),
            2 * encoding.p <= server_key.parameters.polynomial_size,
        ensures
            ({
                let prm = server_key.parameters;
                let kn = prm.glwe_dimension * prm.polynomial_size;
                let total = prm.glwe_len() + (prm.lwe_dimension + 1) + (kn + 1);
                &&& r.lookup_table == (0usize, prm.glwe_len() as usize)
                &&& r.buffer_lwe_after_ks == (prm.glwe_len() as usize, (prm.lwe_dimension
                    + 1) as usize)
                &&& r.buffer_lwe_after_pbs == ((prm.glwe_len() + prm.lwe_dimension
                    + 1) as usize, (kn + 1) as usize)
                &&& final(self).buffer@.len() == if old(self).buffer@.len() < total {
                    total
                } else {
                    old(self).buffer@.len() as int
                }
                &&& lookup_table_written(final(self).buffer@, *server_key, *encoding)
                &&& forall|j: int|
                    prm.glwe_len() <= j < old(self).buffer@.len() ==> final(self).buffer@[j]
                        == old(self).buffer@[j]
            }),
    {
        let prm = &server_key.parameters;
        proof {
            lemma_sizes(*prm);
        }
        let n = prm.polynomial_size;
        let kn = prm.glwe_dimension * n;
        let glwe_len = kn + n;
        let after_ks = prm.lwe_dimension + 1;
        let after_pbs = kn + 1;
        let total = glwe_len + after_ks + after_pbs;
        if self.buffer.len() < total {
            self.buffer.resize(total, 0u32);
        }
        let len = self.buffer.len();
        let ghost grown = self.buffer@;
        proof {
            assert forall|j: int| glwe_len <= j < old(self).buffer@.len() implies grown[j] == old(self).buffer@[j] by {
                if old(self).buffer@.len() < total {
                    assert(grown.subrange(0, old(self).buffer@.len() as int)[j] == grown[j]);
                }
            }
        }
        let mut j: usize = 0;
        while j < kn
            invariant
                kn + n <= total <= len,
                self.buffer@.len() == len,
                forall|t: int| kn <= t < len ==> self.buffer@[t] == grown[t],
                j <= kn,
                forall|t: int| 0 <= t < j ==> self.buffer@[t] == 0,
            decreases kn - j,
        {
            self.buffer.set(j, 0u32);
            j = j + 1;
        }
        let acc = encoding.create_accumulator();
        proof {
            assert(acc@ =~= accumulator_of(*encoding));
        }
        write_test_vector(&mut self.buffer, kn, &acc, encoding.p, n);
        proof {
            assert forall|j: int| glwe_len <= j < old(self).buffer@.len() implies self.buffer@[j] == old(self).buffer@[j] by {
                assert(self.buffer@[j] == grown[j]);
            }
        }
        BuffersRef {
            lookup_table: (0, glwe_len),
            buffer_lwe_after_ks: (glwe_len, after_ks),
            buffer_lwe_after_pbs: (glwe_len + after_ks, after_pbs),
        }
    }
}

/// The accumulator of `encoding` as a GLWE ciphertext of `params`: a zero mask, then the test
/// vector.
pub open spec fn lookup_table_spec(params: GadgetParameters, encoding: Encoding) -> Seq<u32> {
    let kn = params.glwe_dimension * params.polynomial_size;
    Seq::new(
        params.glwe_len() as nat,
        |w: int|
            if w < kn {
                0u32
            } else {
                test_vector_coeff(
                    accumulator_of(encoding),
                    encoding.p as int,
                    params.polynomial_size as int,
                    w - kn,
                ) as u32
            },
    )
}

/// The LWE ciphertext, under the GLWE secret read as an LWE secret, of the constant
/// coefficient of the GLWE ciphertext `acc`.
pub open spec fn extract_spec(params: GadgetParameters, acc: Seq<u32>) -> Seq<u32> {
    Seq::new(
        (params.glwe_dimension * params.polynomial_size + 1) as nat,
        |idx: int|
            extracted_word(
                acc,
                params.polynomial_size as int,
                params.glwe_dimension as int,
                idx,
            ) as u32,
    )
}

/// The bootstrap of LWE ciphertext `ct` with the lookup of `encoding`: the blind rotation of
/// its lookup table by `ct` under `server_key`, then the extraction of the constant
/// coefficient. The result is under the GLWE secret read as an LWE secret.
pub open spec fn pbs_spec(server_key: ServerKey, ct: Seq<u32>, encoding: Encoding) -> Seq<u32> {
    let prm = server_key.parameters;
    extract_spec(
        prm,
        blind_rotate_spec(
            prm,
            server_key.bootstrapping_key@,
            ct,
            lookup_table_spec(prm, encoding),
            prm.lwe_dimension as int,
        ),
    )
}

/// The refresh of LWE ciphertext `ct` with the lookup of `encoding`: its bootstrap, then the
/// key switch back to the small secret.
pub open spec fn refresh_spec(server_key: ServerKey, ct: Seq<u32>, encoding: Encoding) -> Seq<u32> {
    keyswitch_spec(
        server_key.parameters,
        server_key.key_switching_key@,
        pbs_spec(server_key, ct, encoding),
        0,
    )
}

/// The blind rotation reads only the first `(k + 1)·N` words of its lookup table.
pub proof fn lemma_blind_rotate_lut(
    params: GadgetParameters,
    bsk: Seq<u32>,
    ct: Seq<u32>,
    lut1: Seq<u32>,
    lut2: Seq<u32>,
    i: int,
)
    requires
        params.wf(),
        lut1.len() >= params.glwe_len(),
        lut2.len() >= params.glwe_len(),
        forall|x: int| 0 <= x < params.glwe_len() ==> #[trigger] lut1[x] == lut2[x],
    ensures
        blind_rotate_spec(params, bsk, ct, lut1, i) == blind_rotate_spec(params, bsk, ct, lut2, i),
    decreases i,
{
    if i > 0 {
        lemma_blind_rotate_lut(params, bsk, ct, lut1, lut2, i - 1);
    } else {
        lemma_sizes(params);
        let n = params.polynomial_size as int;
        let comps = params.glwe_dimension + 1;
        let two_n = 2 * n;
        let r = (two_n - crate::pbs::ms_spec(ct[params.lwe_dimension as int], two_n)) % two_n;
        let g1 = glwe_rotate_spec(params, lut1, r);
        let g2 = glwe_rotate_spec(params, lut2, r);
        assert forall|w: int| 0 <= w < params.glwe_len() implies g1[w] == g2[w] by {
            vstd::arithmetic::div_mod::lemma_fundamental_div_mod(w, n);
            let c = w / n;
            let t = w % n;
            assert(0 <= c < comps) by (nonlinear_arith)
                requires c == w / n, 0 <= w < comps * n, n > 0;
            lemma_block(c, comps as int, n);
            let rm = r % n;
            assert(0 <= rm < n);
            if t >= rm {
                assert(lut1[c * n + t - rm] == lut2[c * n + t - rm]);
            } else {
                assert(lut1[c * n + t + n - rm] == lut2[c * n + t + n - rm]);
            }
        }
        assert(g1 =~= g2);
    }
}

/// The LWE ciphertext has the size of the small secret of `params`.
pub open spec fn lwe_fits(c: LweCiphertext, params: GadgetParameters) -> bool {
    c.data@.len() == params.lwe_dimension + 1
}

/// The checks that a bootstrap of `ciphertext` with `encoding` passes: `ParameterError` on a
/// malformed encoding, a ciphertext of the wrong size or a polynomial with fewer than `2p`
/// coefficients; `EncodingError` on a bad output partition or pin scalar.
pub fn check_bootstrap(server_key: &ServerKey, encoding: &Encoding, size: usize) -> (r: Result<
    (),
    GadgetError,
>)
    requires
        server_key.wf(),
    ensures
        r is Ok <==> (bootstrappable(server_key.parameters, *encoding) && size
            == server_key.parameters.lwe_dimension + 1),
        r == Err::<(), GadgetError>(GadgetError::EncodingError) <==> (encoding.params_ok()
            && !encoding.wf() && size == server_key.parameters.lwe_dimension + 1 && 2
            * encoding.p <= server_key.parameters.polynomial_size),
        r == Err::<(), GadgetError>(GadgetError::ParameterError) <==> (!encoding.params_ok()
            || size != server_key.parameters.lwe_dimension + 1 || 2 * encoding.p
            > server_key.parameters.polynomial_size),
        r is Err ==> r == Err::<(), GadgetError>(GadgetError::EncodingError) || r == Err::<
            (),
            GadgetError,
        >(GadgetError::ParameterError),
{
    if size != server_key.parameters.lwe_dimension + 1 {
        return Err(GadgetError::ParameterError);
    }
    match encoding.validate() {
        Ok(()) => {},
        Err(e) => {
            if e == GadgetError::ParameterError {
                return Err(GadgetError::ParameterError);
            }
            if (encoding.p as usize) > server_key.parameters.polynomial_size / 2 {
                return Err(GadgetError::ParameterError);
            }
            return Err(e);
        },
    }
    if (encoding.p as usize) > server_key.parameters.polynomial_size / 2 {
        return Err(GadgetError::ParameterError);
    }
    Ok(())
}

/// Bootstraps `ciphertext` with the lookup of `encoding`, then key-switches the result back
/// to the small secret, in place; `memory` and `buffers` are scratch space.
pub fn bootstrap_with(
    memory: &mut Memory,
    buffers: &mut ComputationBuffers,
    ciphertext: LweCiphertext,
    server_key: &ServerKey,
    encoding: &Encoding,
) -> (r: Result<Ciphertext, GadgetError>)
    requires
        server_key.wf(),
    ensures
        r is Ok <==> (bootstrappable(server_key.parameters, *encoding) && lwe_fits(
            ciphertext,
            server_key.parameters,
        )),
        r matches Ok(Ciphertext::Encrypted(c)) ==> lwe_fits(c, server_key.parameters)
            && c.data@ == refresh_spec(*server_key, ciphertext.data@, *encoding),
        r matches Ok(c) ==> c is Encrypted,
        r is Err ==> r == Err::<Ciphertext, GadgetError>(GadgetError::EncodingError) || r
            == Err::<Ciphertext, GadgetError>(GadgetError::ParameterError),
{
    let ghost ct0 = ciphertext.data@;
    let checked = check_bootstrap(server_key, encoding, ciphertext.data.len());
    if let Err(e) = checked {
        return Err(e);
    }

    let prm = &server_key.parameters;
    proof {
        lemma_sizes(*prm);
    }
    let regions = memory.as_buffers(server_key, encoding);
    buffers.resize(prm);
    let mut ciphertext = ciphertext;
    let ghost lut = memory.buffer@;
    blind_rotate(prm, &server_key.bootstrapping_key, &ciphertext.data, &memory.buffer, buffers);
    proof {
        crate::pbs::lemma_fits(buffers, *prm);
        let kn = prm.glwe_dimension * prm.polynomial_size;
        let spec_lut = lookup_table_spec(*prm, *encoding);
        assert forall|x: int| 0 <= x < prm.glwe_len() implies #[trigger] lut[x] == spec_lut[x] by {
            if x >= kn {
                let j = x - kn;
                assert(lut[kn + j] as int == test_vector_coeff(
                    accumulator_of(*encoding),
                    encoding.p as int,
                    prm.polynomial_size as int,
                    j,
                ));
            }
        }
        lemma_blind_rotate_lut(
            *prm,
            server_key.bootstrapping_key@,
            ct0,
            lut,
            spec_lut,
            prm.lwe_dimension as int,
        );
    }
    let ghost acc = buffers.acc@;
    let pbs_start = regions.buffer_lwe_after_pbs.0;
    sample_extract(prm, &buffers.acc, &mut memory.buffer, pbs_start);
    keyswitch(
        prm,
        &server_key.key_switching_key,
        &memory.buffer,
        pbs_start,
        &mut ciphertext.data,
        &mut buffers.ks_digits,
    );
    proof {
        let ext = extract_spec(*prm, acc);
        assert(ext == pbs_spec(*server_key, ct0, *encoding));
        assert forall|x: int| 0 <= x <= prm.glwe_dimension * prm.polynomial_size implies #[trigger] memory.buffer@[pbs_start + x] == ext[0 + x] by {
        }
        lemma_keyswitch_shift(*prm, server_key.key_switching_key@, memory.buffer@, pbs_start as int, ext, 0);
    }
    Ok(Ciphertext::Encrypted(ciphertext))
}

/// What pin input `input` with scalar `scalar` adds to word `t` of a gate sum, whose body
/// is word `body`: the ciphertext times the scalar, the lifted scalar on the body for a
/// trivial 1, nothing for a trivial 0.
pub open spec fn pin_term(input: Ciphertext, scalar: u32, p: u32, t: int, body: int) -> int {
    match input {
        Ciphertext::Encrypted(c) => scalar * c.data@[t],
        Ciphertext::Trivial(b) => if b && t == body {
            encode_spec(scalar as int, p as int)
        } else {
            0
        },
    }
}

/// The scalar of pin `i`: pins are paired with `input_mappings_1` in reverse order.
pub open spec fn pin_scalar(encoding: Encoding, i: int) -> u32 {
    encoding.input_mappings_1@[encoding.pin_count - 1 - i]
}

/// Word `t` of the sum of the first `k` pins, before reduction modulo 2^32.
pub open spec fn gate_sum_word(
    encoding: Encoding,
    inputs: Seq<Ciphertext>,
    k: int,
    t: int,
    body: int,
) -> int
    decreases k,
{
    if k <= 0 {
        0
    } else {
        gate_sum_word(encoding, inputs, k - 1, t, body) + pin_term(
            inputs[k - 1],
            pin_scalar(encoding, k - 1),
            encoding.p,
            t,
            body,
        )
    }
}

/// Every encrypted input has `size` words.
pub open spec fn inputs_fit(inputs: Seq<Ciphertext>, size: int) -> bool {
    forall|i: int|
        0 <= i < inputs.len() ==> (#[trigger] inputs[i] matches Ciphertext::Encrypted(c)
            ==> c.data@.len() == size)
}

/// Tells whether every encrypted input has `size` words.
pub fn inputs_sized(inputs: &Vec<Ciphertext>, size: usize) -> (r: bool)
    ensures
        r == inputs_fit(inputs@, size as int),
{
    let mut i: usize = 0;
    while i < inputs.len()
        invariant
            i <= inputs@.len(),
            inputs_fit(inputs@.subrange(0, i as int), size as int),
        decreases inputs@.len() - i,
    {
        if let Ciphertext::Encrypted(c) = &inputs[i] {
            if c.data.len() != size {
                proof {
                    assert(inputs@[i as int] matches Ciphertext::Encrypted(c) ==> c.data@.len()
                        != size);
                }
                return false;
            }
        }
        proof {
            assert forall|j: int| 0 <= j < i + 1 implies (#[trigger] inputs@.subrange(
                0,
                i + 1,
            )[j] matches Ciphertext::Encrypted(c) ==> c.data@.len() == size) by {
                if j < i {
                    assert(inputs@.subrange(0, i + 1)[j] == inputs@.subrange(0, i as int)[j]);
                }
            }
        }
        i = i + 1;
    }
    proof {
        assert(inputs@.subrange(0, inputs@.len() as int) =~= inputs@);
    }
    true
}

/// The sum of the pins scaled by their scalars in ℤ_p: for pin `i`, an encrypted input is
/// multiplied by `input_mappings_1[pin_count − 1 − i]` and added; a trivial 1 adds that
/// scalar lifted to the native modulus to the body; a trivial 0 adds nothing.
pub fn gate_sum(encoding: &Encoding, inputs: &Vec<Ciphertext>, size: usize) -> (r: LweCiphertext)
    requires
        encoding.wf(),
        inputs@.len() == encoding.pin_count,
        size >= 1,
        inputs_fit(inputs@, size as int),
    ensures
        r.data@.len() == size,
        forall|t: int|
            0 <= t < size ==> r.data@[t] as int == tmod(
                #[trigger] gate_sum_word(*encoding, inputs@, inputs@.len() as int, t, size - 1),
            ),
{
    let mut sum = LweCiphertext::new_zero(size);
    let m = inputs.len();
    let mut i: usize = 0;
    while i < m
        invariant
            encoding.wf(),
            m == inputs@.len(),
            m == encoding.pin_count,
            size >= 1,
            inputs_fit(inputs@, size as int),
            i <= m,
            sum.data@.len() == size,
            forall|t: int|
                0 <= t < size ==> sum.data@[t] as int == tmod(
                    #[trigger] gate_sum_word(*encoding, inputs@, i as int, t, size - 1),
                ),
        decreases m - i,
    {
        let scalar = encoding.input_mappings_1[m - 1 - i];
        let ghost before = sum.data@;
        match &inputs[i] {
            Ciphertext::Encrypted(c) => {
                assert(inputs@[i as int] matches Ciphertext::Encrypted(c) ==> c.data@.len() == size);
                let scaled = c.cleartext_mul(scalar);
                sum.add_assign(&scaled);
                proof {
                    assert forall|t: int| 0 <= t < size implies sum.data@[t] as int == tmod(
                        #[trigger] gate_sum_word(*encoding, inputs@, i + 1, t, size - 1),
                    ) by {
                        let prev = gate_sum_word(*encoding, inputs@, i as int, t, size - 1);
                        let term = scalar * c.data@[t];
                        lemma_cong_tmod(prev);
                        lemma_cong_tmod(term);
                        lemma_cong_add(before[t] as int, prev, scaled.data@[t] as int, term);
                        lemma_cong_tmod(before[t] + scaled.data@[t]);
                        lemma_cong_tmod(prev + term);
                    }
                }
            },
            Ciphertext::Trivial(b) => {
                if *b {
                    let pt = encode(scalar, encoding.p);
                    sum.plaintext_add_assign(pt);
                    proof {
                        assert forall|t: int| 0 <= t < size implies sum.data@[t] as int == tmod(
                            #[trigger] gate_sum_word(*encoding, inputs@, i + 1, t, size - 1),
                        ) by {
                            let prev = gate_sum_word(*encoding, inputs@, i as int, t, size - 1);
                            if t == size - 1 {
                                let term = encode_spec(scalar as int, encoding.p as int);
                                lemma_cong_tmod(prev);
                                lemma_cong_add(before[t] as int, prev, pt as int, term);
                                lemma_cong_tmod(before[t] + pt);
                                lemma_cong_tmod(prev + term);
                            }
                        }
                    }
                } else {
                    proof {
                        assert forall|t: int| 0 <= t < size implies sum.data@[t] as int == tmod(
                            #[trigger] gate_sum_word(*encoding, inputs@, i + 1, t, size - 1),
                        ) by {
                            assert(gate_sum_word(*encoding, inputs@, i + 1, t, size - 1)
                                == gate_sum_word(*encoding, inputs@, i as int, t, size - 1));
                        }
                    }
                }
            },
        }
        i = i + 1;
    }
    sum
}

/// Evaluates `encoding`'s gate on `input_ciphertexts` with the given scratch space: the
/// gate sum, then a bootstrap.
pub fn evaluate_gate_with(
    memory: &mut Memory,
    buffers: &mut ComputationBuffers,
    server_key: &ServerKey,
    encoding: &Encoding,
    input_ciphertexts: &Vec<Ciphertext>,
) -> (r: Result<Ciphertext, GadgetError>)
    requires
        server_key.wf(),
    ensures
        r is Ok <==> (bootstrappable(server_key.parameters, *encoding)
            && input_ciphertexts@.len() == encoding.pin_count && inputs_fit(
            input_ciphertexts@,
            server_key.parameters.lwe_dimension + 1,
        )),
        r matches Ok(o) ==> o matches Ciphertext::Encrypted(c) && lwe_fits(
            c,
            server_key.parameters,
        ) && c.data@ == refresh_spec(
            *server_key,
            partial_sum(
                *encoding,
                input_ciphertexts@,
                input_ciphertexts@.len() as int,
                server_key.parameters.lwe_dimension + 1,
            ),
            *encoding,
        ),
        r == Err::<Ciphertext, GadgetError>(GadgetError::EncodingError) <==> (
        input_ciphertexts@.len() == encoding.pin_count && inputs_fit(
            input_ciphertexts@,
            server_key.parameters.lwe_dimension + 1,
        ) && encoding.params_ok() && 2 * encoding.p <= server_key.parameters.polynomial_size
            && !encoding.wf()),
        r == Err::<Ciphertext, GadgetError>(GadgetError::ParameterError) <==> (
        input_ciphertexts@.len() != encoding.pin_count || !inputs_fit(
            input_ciphertexts@,
            server_key.parameters.lwe_dimension + 1,
        ) || !encoding.params_ok() || 2 * encoding.p > server_key.parameters.polynomial_size),
{
    let size = server_key.parameters.lwe_dimension + 1;
    if input_ciphertexts.len() != encoding.pin_count || !inputs_sized(input_ciphertexts, size) {
        return Err(GadgetError::ParameterError);
    }
    match check_bootstrap(server_key, encoding, size) {
        Ok(()) => {},
        Err(e) => {
            return Err(e);
        },
    }
    let sum = gate_sum(encoding, input_ciphertexts, size);
    proof {
        let ps = partial_sum(*encoding, input_ciphertexts@, input_ciphertexts@.len() as int, size as int);
        assert forall|t: int| 0 <= t < size implies sum.data@[t] == ps[t] by {
        }
        assert(sum.data@ =~= ps);
    }
    bootstrap_with(memory, buffers, sum, server_key, encoding)
}

/// The order of the two steps of a refresh.
#[derive(Clone, Copy, Debug, PartialEq, Eq)]
pub enum PBSOrder {
    /// Key switch from the big secret first, then bootstrap: ciphertexts live under the big
    /// secret.
    KeyswitchBootstrap,
    /// Bootstrap first, then key switch back: ciphertexts live under the small secret.
    BootstrapKeyswitch,
}

/// The LWE ciphertext has the size of the big secret (`kN` coefficients) of `params`.
pub open spec fn big_lwe_fits(c: LweCiphertext, params: GadgetParameters) -> bool {
    c.data@.len() == params.glwe_dimension * params.polynomial_size + 1
}

/// The server key was made for `client_key`: same parameters, its bootstrap key holds GGSW
/// encryptions of the LWE secret under the GLWE secret (see `bootstrap_key_encrypts`), and
/// its keyswitch key encrypts, under the LWE secret, the GLWE secret read as an LWE secret
/// (see `keyswitch_key_encrypts`).
pub open spec fn server_key_of(server_key: ServerKey, client_key: ClientKey) -> bool {
    &&& server_key.wf()
    &&& server_key.parameters == client_key.parameters
    &&& bootstrap_key_encrypts(
        server_key.bootstrapping_key@,
        client_key.parameters,
        client_key.lwe_secret_key@,
        client_key.glwe_secret_key@,
    )
    &&& keyswitch_key_encrypts(
        server_key.key_switching_key@,
        client_key.parameters,
        client_key.glwe_secret_key@,
        client_key.lwe_secret_key@,
    )
}

/// Runs bootstraps and generates server keys, reusing its arena and scratch buffers.
pub struct Bootstrapper {
    memory: Memory,
    encryption_generator: EncryptionRandomGenerator,
    computation_buffers: ComputationBuffers,
}

impl Bootstrapper {
    /// A bootstrapper whose encryption generator is seeded from `seed`; `KeyGenError` when the
    /// seed's stream is exhausted.
    pub fn new(seed: u128) -> (r: Result<Bootstrapper, GadgetError>)
        ensures
            r is Err ==> r == Err::<Bootstrapper, GadgetError>(GadgetError::KeyGenError),
    {
        match EncryptionRandomGenerator::new(seed) {
            Some(g) => Ok(
                Bootstrapper {
                    memory: Memory::new(),
                    encryption_generator: g,
                    computation_buffers: ComputationBuffers::new(),
                },
            ),
            None => Err(GadgetError::KeyGenError),
        }
    }

    /// Bootstraps then key-switches `ciphertext` with the lookup of `encoding`, reusing the
    /// arena.
    pub fn bootstrap_keyswitch(
        &mut self,
        ciphertext: LweCiphertext,
        server_key: &ServerKey,
        encoding: &Encoding,
    ) -> (r: Result<Ciphertext, GadgetError>)
        requires
            server_key.wf(),
        ensures
            r is Ok <==> (bootstrappable(server_key.parameters, *encoding) && lwe_fits(
                ciphertext,
                server_key.parameters,
            )),
            r matches Ok(Ciphertext::Encrypted(c)) ==> lwe_fits(c, server_key.parameters)
                && c.data@ == refresh_spec(*server_key, ciphertext.data@, *encoding),
            r matches Ok(c) ==> c is Encrypted,
            r is Err ==> r == Err::<Ciphertext, GadgetError>(GadgetError::EncodingError) || r
                == Err::<Ciphertext, GadgetError>(GadgetError::ParameterError),
    {
        bootstrap_with(
            &mut self.memory,
            &mut self.computation_buffers,
            ciphertext,
            server_key,
            encoding,
        )
    }

    /// The bootstrap alone: the LWE ciphertext, under the big secret, of the lookup of
    /// `encoding` at the phase of `input`.
    pub fn bootstrap(&mut self, input: &LweCiphertext, server_key: &ServerKey, encoding: &Encoding) -> (r:
        Result<LweCiphertext, GadgetError>)
        requires
            server_key.wf(),
        ensures
            r is Ok <==> (bootstrappable(server_key.parameters, *encoding) && lwe_fits(
                *input,
                server_key.parameters,
            )),
            r matches Ok(c) ==> big_lwe_fits(c, server_key.parameters) && c.data@ == pbs_spec(
                *server_key,
                input.data@,
                *encoding,
            ),
            r is Err ==> r == Err::<LweCiphertext, GadgetError>(GadgetError::EncodingError) || r
                == Err::<LweCiphertext, GadgetError>(GadgetError::ParameterError),
    {
        match check_bootstrap(server_key, encoding, input.data.len()) {
            Ok(()) => {},
            Err(e) => {
                return Err(e);
            },
        }
        let prm = &server_key.parameters;
        proof {
            lemma_sizes(*prm);
        }
        self.memory.as_buffers(server_key, encoding);
        self.computation_buffers.resize(prm);
        let ghost lut = self.memory.buffer@;
        blind_rotate(
            prm,
            &server_key.bootstrapping_key,
            &input.data,
            &self.memory.buffer,
            &mut self.computation_buffers,
        );
        proof {
            crate::pbs::lemma_fits(&self.computation_buffers, *prm);
            let kn = prm.glwe_dimension * prm.polynomial_size;
            let spec_lut = lookup_table_spec(*prm, *encoding);
            assert forall|x: int| 0 <= x < prm.glwe_len() implies #[trigger] lut[x] == spec_lut[x] by {
                if x >= kn {
                    let j = x - kn;
                    assert(lut[kn + j] as int == test_vector_coeff(
                        accumulator_of(*encoding),
                        encoding.p as int,
                        prm.polynomial_size as int,
                        j,
                    ));
                }
            }
            lemma_blind_rotate_lut(
                *prm,
                server_key.bootstrapping_key@,
                input.data@,
                lut,
                spec_lut,
                prm.lwe_dimension as int,
            );
        }
        let mut out = LweCiphertext::new_zero(prm.glwe_dimension * prm.polynomial_size + 1);
        sample_extract(prm, &self.computation_buffers.acc, &mut out.data, 0);
        proof {
            let ext = extract_spec(*prm, self.computation_buffers.acc@);
            assert forall|x: int| 0 <= x < ext.len() implies out.data@[x] == ext[x] by {
                assert(out.data@[0 + x] as int == extracted_word(
                    self.computation_buffers.acc@,
                    prm.polynomial_size as int,
                    prm.glwe_dimension as int,
                    x,
                ));
            }
            assert(out.data@ =~= ext);
        }
        Ok(out)
    }

    /// The key switch alone: the LWE ciphertext under the small secret of `input`, which is
    /// under the big secret. `ParameterError` when `input` does not have the big secret's size.
    pub fn keyswitch(&mut self, input: &LweCiphertext, server_key: &ServerKey) -> (r: Result<
        LweCiphertext,
        GadgetError,
    >)
        requires
            server_key.wf(),
        ensures
            r is Ok <==> big_lwe_fits(*input, server_key.parameters),
            r matches Ok(c) ==> lwe_fits(c, server_key.parameters) && c.data@ == keyswitch_spec(
                server_key.parameters,
                server_key.key_switching_key@,
                input.data@,
                0,
            ),
            r is Err ==> r == Err::<LweCiphertext, GadgetError>(GadgetError::ParameterError),
    {
        let prm = &server_key.parameters;
        proof {
            lemma_sizes(*prm);
        }
        if input.data.len() != prm.glwe_dimension * prm.polynomial_size + 1 {
            return Err(GadgetError::ParameterError);
        }
        self.computation_buffers.resize(prm);
        proof {
            crate::pbs::lemma_fits(&self.computation_buffers, *prm);
        }
        let mut out = LweCiphertext::new_zero(prm.lwe_dimension + 1);
        keyswitch(
            prm,
            &server_key.key_switching_key,
            &input.data,
            0,
            &mut out.data,
            &mut self.computation_buffers.ks_digits,
        );
        Ok(out)
    }

    /// Key switch then bootstrap: `ciphertext`, under the big secret, is key-switched to the
    /// small secret and bootstrapped with the lookup of `encoding`; the result is under the
    /// big secret again.
    pub fn keyswitch_bootstrap(
        &mut self,
        ciphertext: LweCiphertext,
        server_key: &ServerKey,
        encoding: &Encoding,
    ) -> (r: Result<Ciphertext, GadgetError>)
        requires
            server_key.wf(),
        ensures
            r is Ok <==> (bootstrappable(server_key.parameters, *encoding) && big_lwe_fits(
                ciphertext,
                server_key.parameters,
            )),
            r matches Ok(o) ==> o matches Ciphertext::Encrypted(c) && big_lwe_fits(
                c,
                server_key.parameters,
            ) && c.data@ == pbs_spec(
                *server_key,
                keyswitch_spec(
                    server_key.parameters,
                    server_key.key_switching_key@,
                    ciphertext.data@,
                    0,
                ),
                *encoding,
            ),
            r is Err ==> r == Err::<Ciphertext, GadgetError>(GadgetError::EncodingError) || r
                == Err::<Ciphertext, GadgetError>(GadgetError::ParameterError),
    {
        let small = match self.keyswitch(&ciphertext, server_key) {
            Ok(c) => c,
            Err(e) => {
                proof {
                    lemma_sizes(server_key.parameters);
                }
                return Err(e);
            },
        };
        match self.bootstrap(&small, server_key, encoding) {
            Ok(c) => Ok(Ciphertext::Encrypted(c)),
            Err(e) => Err(e),
        }
    }

    /// Refreshes `ct` in the given order of key switch and bootstrap.
    pub fn apply_bootstrapping_pattern(
        &mut self,
        ct: LweCiphertext,
        server_key: &ServerKey,
        encoding: &Encoding,
        order: PBSOrder,
    ) -> (r: Result<Ciphertext, GadgetError>)
        requires
            server_key.wf(),
        ensures
            order == PBSOrder::BootstrapKeyswitch ==> (r is Ok <==> (bootstrappable(
                server_key.parameters,
                *encoding,
            ) && lwe_fits(ct, server_key.parameters))),
            order == PBSOrder::KeyswitchBootstrap ==> (r is Ok <==> (bootstrappable(
                server_key.parameters,
                *encoding,
            ) && big_lwe_fits(ct, server_key.parameters))),
            order == PBSOrder::BootstrapKeyswitch ==> (r matches Ok(o) ==> o matches Ciphertext::Encrypted(c)
                && c.data@ == refresh_spec(*server_key, ct.data@, *encoding)),
            order == PBSOrder::KeyswitchBootstrap ==> (r matches Ok(o) ==> o matches Ciphertext::Encrypted(c)
                && c.data@ == pbs_spec(
                *server_key,
                keyswitch_spec(server_key.parameters, server_key.key_switching_key@, ct.data@, 0),
                *encoding,
            )),
    {
        match order {
            PBSOrder::KeyswitchBootstrap => self.keyswitch_bootstrap(ct, server_key, encoding),
            PBSOrder::BootstrapKeyswitch => self.bootstrap_keyswitch(ct, server_key, encoding),
        }
    }

    /// Generates the server key of `client_key` in compressed form: the masks come from a
    /// generator seeded by a fresh seed that the key keeps. `KeyGenError` when a generator is
    /// exhausted.
    pub fn new_compressed_server_key(&mut self, client_key: &ClientKey) -> (r: Result<
        CompressedServerKey,
        GadgetError,
    >)
        requires
            client_key.wf(),
        ensures
            r matches Ok(ck) ==> ck.wf() && ck.parameters == client_key.parameters,
            r is Err ==> r == Err::<CompressedServerKey, GadgetError>(GadgetError::KeyGenError),
    {
        let mask_seed = match self.encryption_generator.mask.next_seed() {
            Some(s) => s,
            None => {
                return Err(GadgetError::KeyGenError);
            },
        };
        let noise_seed = match self.encryption_generator.noise.next_seed() {
            Some(s) => s,
            None => {
                return Err(GadgetError::KeyGenError);
            },
        };
        let mut generator = EncryptionRandomGenerator {
            mask: CsRng::new(mask_seed),
            noise: CsRng::new(noise_seed),
        };
        let prm = &client_key.parameters;
        let bsk = match generate_bootstrap_key(
            prm,
            &client_key.lwe_secret_key,
            &client_key.glwe_secret_key,
            &mut generator,
        ) {
            Some(b) => b,
            None => {
                return Err(GadgetError::KeyGenError);
            },
        };
        let ksk = match generate_keyswitch_key(
            prm,
            &client_key.glwe_secret_key,
            &client_key.lwe_secret_key,
            &mut generator,
        ) {
            Some(k) => k,
            None => {
                return Err(GadgetError::KeyGenError);
            },
        };
        let full = ServerKey { bootstrapping_key: bsk, key_switching_key: ksk, parameters: *prm };
        Ok(CompressedServerKey::from_server_key(&full, mask_seed))
    }

    /// Generates the server key of `client_key`: its bootstrap key, then its keyswitch key
    /// from the GLWE secret read as an LWE secret down to the LWE secret. `KeyGenError` when
    /// the generator is exhausted.
    pub fn new_server_key(&mut self, client_key: &ClientKey) -> (r: Result<ServerKey, GadgetError>)
        requires
            client_key.wf(),
        ensures
            r matches Ok(sk) ==> server_key_of(sk, *client_key),
            r is Err ==> r == Err::<ServerKey, GadgetError>(GadgetError::KeyGenError),
    {
        let prm = &client_key.parameters;
        let bsk = match generate_bootstrap_key(
            prm,
            &client_key.lwe_secret_key,
            &client_key.glwe_secret_key,
            &mut self.encryption_generator,
        ) {
            Some(b) => b,
            None => {
                return Err(GadgetError::KeyGenError);
            },
        };
        let ksk = match generate_keyswitch_key(
            prm,
            &client_key.glwe_secret_key,
            &client_key.lwe_secret_key,
            &mut self.encryption_generator,
        ) {
            Some(k) => k,
            None => {
                return Err(GadgetError::KeyGenError);
            },
        };
        Ok(ServerKey { bootstrapping_key: bsk, key_switching_key: ksk, parameters: *prm })
    }
}

/// The ciphertext can be decrypted with `client_key`: a trivial bit, or an LWE ciphertext of
/// the key's size.
pub open spec fn decryptable(ct: Ciphertext, client_key: ClientKey) -> bool {
    ct matches Ciphertext::Encrypted(c) ==> c.data@.len() == client_key.lwe_secret_key@.len()
        + 1
}

/// What `ct` decrypts to under `client_key` in ℤ_p: the rounded phase of an encrypted
/// ciphertext, or the trivial bit.
pub open spec fn decryption(ct: Ciphertext, client_key: ClientKey, p: u32) -> int {
    match ct {
        Ciphertext::Encrypted(c) => decode_spec(
            crate::lwe::phase(c.data@, client_key.lwe_secret_key@),
            p as int,
        ),
        Ciphertext::Trivial(b) => if b {
            1
        } else {
            0
        },
    }
}

/// Decryption inverts encryption: a ciphertext whose phase is `encode(m) + e` with
/// `|e| ≤ bound` and `(bound + 1)·p < 2^31` — as `GadgetEngine::encrypt` makes for
/// `bound = noise_bound` of the key's noise level — decrypts to `m`, for every `m ∈ [0, p)`.
pub proof fn lemma_encrypt_decrypt(c: Seq<u32>, s: Seq<u32>, m: int, p: int, bound: int)
    requires
        2 <= p,
        0 <= m < p,
        0 <= bound,
        (bound + 1) * p < 0x8000_0000,
        encrypts_near(c, s, encode_spec(m, p), bound),
    ensures
        decode_spec(phase(c, s), p) == m,
{
    let e = choose|e: int| #[trigger] within(e, bound) && phase(c, s) == tmod(encode_spec(m, p) + e);
    let a = if e < 0 { -e } else { e };
    assert((a + 1) * p <= (bound + 1) * p) by (nonlinear_arith)
        requires a <= bound, p >= 0;
    assert(noise_fits(e, p));
    lemma_decode_encode(m, p, e);
}

/// What pin input `input` with scalar `scalar` adds to the phase of a gate sum under `s`.
pub open spec fn pin_phase(input: Ciphertext, scalar: u32, p: u32, s: Seq<u32>) -> int {
    match input {
        Ciphertext::Encrypted(c) => scalar * phase(c.data@, s),
        Ciphertext::Trivial(b) => if b {
            encode_spec(scalar as int, p as int)
        } else {
            0
        },
    }
}

/// `Σ_{i < k} pin_phase(inputs[i], pin_scalar(i))`.
pub open spec fn gate_phase_sum(encoding: Encoding, inputs: Seq<Ciphertext>, k: int, s: Seq<u32>) -> int
    decreases k,
{
    if k <= 0 {
        0
    } else {
        gate_phase_sum(encoding, inputs, k - 1, s) + pin_phase(
            inputs[k - 1],
            pin_scalar(encoding, k - 1),
            encoding.p,
            s,
        )
    }
}

/// A gate sum over the first `k` pins, reduced modulo 2^32.
pub open spec fn partial_sum(encoding: Encoding, inputs: Seq<Ciphertext>, k: int, size: int) -> Seq<u32> {
    Seq::new(size as nat, |t: int| tmod(gate_sum_word(encoding, inputs, k, t, size - 1)) as u32)
}

/// A ciphertext whose mask is zero has its body as phase.
proof fn lemma_zero_mask_phase(b: Seq<u32>, s: Seq<u32>, k: int)
    requires
        0 <= k < b.len(),
        k <= s.len(),
        forall|i: int| 0 <= i < k ==> b[i] == 0,
    ensures
        dot(b, s, k) == 0,
    decreases k,
{
    if k > 0 {
        lemma_zero_mask_phase(b, s, k - 1);
    }
}

#[verifier::rlimit(60)]
proof fn lemma_partial_phase(encoding: Encoding, inputs: Seq<Ciphertext>, k: int, size: int, s: Seq<u32>)
    requires
        encoding.wf(),
        inputs.len() == encoding.pin_count,
        0 <= k <= inputs.len(),
        size >= 1,
        s.len() >= size - 1,
        inputs_fit(inputs, size),
    ensures
        phase(partial_sum(encoding, inputs, k, size), s) == tmod(
            gate_phase_sum(encoding, inputs, k, s),
        ),
    decreases k,
{
    let cur = partial_sum(encoding, inputs, k, size);
    let n = size - 1;
    if k == 0 {
        assert forall|t: int| 0 <= t < size implies cur[t] == 0 by {
            assert(gate_sum_word(encoding, inputs, 0, t, n) == 0);
        }
        lemma_zero_mask_phase(cur, s, n);
        assert(tmod(0) == 0);
    } else {
        lemma_partial_phase(encoding, inputs, k - 1, size, s);
        let prev = partial_sum(encoding, inputs, k - 1, size);
        let scalar = pin_scalar(encoding, k - 1);
        let before = gate_phase_sum(encoding, inputs, k - 1, s);
        assert forall|t: int| 0 <= t < size implies cong(
            cur[t] as int,
            gate_sum_word(encoding, inputs, k, t, n),
        ) && cong(prev[t] as int, gate_sum_word(encoding, inputs, k - 1, t, n)) by {
            lemma_cong_tmod(gate_sum_word(encoding, inputs, k, t, n));
            lemma_cong_tmod(gate_sum_word(encoding, inputs, k - 1, t, n));
        }
        lemma_cong_tmod(before);
        match inputs[k - 1] {
            Ciphertext::Encrypted(c) => {
                assert(inputs[k - 1] matches Ciphertext::Encrypted(c) ==> c.data@.len() == size);
                assert forall|t: int| 0 <= t < size implies cong(
                    cur[t] as int,
                    scalar * c.data@[t] + prev[t],
                ) by {
                    let g = gate_sum_word(encoding, inputs, k - 1, t, n);
                    let term = scalar * c.data@[t];
                    lemma_cong_add(term, term, prev[t] as int, g);
                    assert(gate_sum_word(encoding, inputs, k, t, n) == g + term);
                }
                lemma_phase_affine(cur, c.data@, prev, s, scalar as int);
                let pc = phase(c.data@, s);
                lemma_cong_tmod(scalar * pc + phase(prev, s));
                lemma_cong_add(scalar * pc, scalar * pc, phase(prev, s), before);
                lemma_cong_tmod(before + scalar * pc);
            },
            Ciphertext::Trivial(b) => {
                if b {
                    let lifted = encode_spec(scalar as int, encoding.p as int);
                    let body = Seq::new(size as nat, |t: int| if t == n { lifted as u32 } else { 0u32 });
                    assert forall|t: int| 0 <= t < size implies cong(
                        cur[t] as int,
                        1 * prev[t] + body[t],
                    ) by {
                        let g = gate_sum_word(encoding, inputs, k - 1, t, n);
                        let term = pin_term(inputs[k - 1], scalar, encoding.p, t, n);
                        assert(gate_sum_word(encoding, inputs, k, t, n) == g + term);
                        assert(scalar < encoding.p);
                        assert(0 <= lifted < 0x1_0000_0000) by (nonlinear_arith)
                            requires
                                lifted == (scalar * 0x1_0000_0000 + encoding.p as int / 2) / (encoding.p as int),
                                scalar < encoding.p,
                                encoding.p >= 2,
                        ;
                        assert(body[t] as int == term);
                        lemma_cong_add(prev[t] as int, g, body[t] as int, term);
                    }
                    lemma_phase_affine(cur, prev, body, s, 1);
                    lemma_zero_mask_phase(body, s, n);
                    lemma_cong_tmod(lifted);
                    lemma_cong_add(phase(prev, s), before, phase(body, s), lifted);
                    lemma_cong_tmod(1 * phase(prev, s) + phase(body, s));
                    lemma_cong_tmod(before + lifted);
                } else {
                    assert forall|t: int| 0 <= t < size implies cur[t] == prev[t] by {
                        assert(gate_sum_word(encoding, inputs, k, t, n) == gate_sum_word(
                            encoding,
                            inputs,
                            k - 1,
                            t,
                            n,
                        ));
                    }
                    assert(cur =~= prev);
                }
            },
        }
    }
}

/// Linearity of a gate sum: under every secret `s`, the phase of the sum that `gate_sum`
/// returns is `Σ_i σ_i · phase(c_i)` over the encrypted pins plus `Σ_i encode(σ_i)` over the
/// pins given as a clear 1, modulo 2^32, where `σ_i` is the scalar of pin `i`.
pub proof fn lemma_gate_sum_phase(
    encoding: Encoding,
    inputs: Seq<Ciphertext>,
    size: int,
    r: Seq<u32>,
    s: Seq<u32>,
)
    requires
        encoding.wf(),
        inputs.len() == encoding.pin_count,
        size >= 1,
        s.len() >= size - 1,
        inputs_fit(inputs, size),
        r.len() == size,
        forall|t: int|
            0 <= t < size ==> r[t] as int == tmod(
                #[trigger] gate_sum_word(encoding, inputs, inputs.len() as int, t, size - 1),
            ),
    ensures
        phase(r, s) == tmod(gate_phase_sum(encoding, inputs, inputs.len() as int, s)),
{
    lemma_partial_phase(encoding, inputs, inputs.len() as int, size, s);
    let full = partial_sum(encoding, inputs, inputs.len() as int, size);
    assert forall|t: int| 0 <= t < size implies r[t] == full[t] by {
        lemma_cong_tmod(gate_sum_word(encoding, inputs, inputs.len() as int, t, size - 1));
    }
    assert(r =~= full);
}

/// Replacing the input of pin `i` changes the phase of a gate sum by that pin's own terms
/// alone: for an encrypted input `c` replaced by a clear bit, `σ_i · phase(c)` gives way to
/// `encode(σ_i)` for a clear 1 and to 0 for a clear 0, and every other pin contributes as
/// before, under every secret `s`.
pub proof fn lemma_replace_pin_phase(
    encoding: Encoding,
    inputs: Seq<Ciphertext>,
    i: int,
    replacement: Ciphertext,
    s: Seq<u32>,
    k: int,
)
    requires
        0 <= i < inputs.len(),
        0 <= k <= inputs.len(),
    ensures
        gate_phase_sum(encoding, inputs.update(i, replacement), k, s) == gate_phase_sum(
            encoding,
            inputs,
            k,
            s,
        ) + if i < k {
            pin_phase(replacement, pin_scalar(encoding, i), encoding.p, s) - pin_phase(
                inputs[i],
                pin_scalar(encoding, i),
                encoding.p,
                s,
            )
        } else {
            0
        },
    decreases k,
{
    if k > 0 {
        lemma_replace_pin_phase(encoding, inputs, i, replacement, s, k - 1);
        let updated = inputs.update(i, replacement);
        if k - 1 != i {
            assert(updated[k - 1] == inputs[k - 1]);
        }
    }
}

/// Exclusive state of one worker: the bootstrapper with its arena, the generator of secrets
/// and the generator of encryption randomness.
pub struct GadgetEngine {
    bootstrapper: Bootstrapper,
    secret_generator: CsRng,
    encryption_generator: EncryptionRandomGenerator,
}

impl GadgetEngine {
    /// The generator of secret keys.
    pub closed spec fn secret_state(&self) -> CsRng {
        self.secret_generator
    }

    /// The generators of encryption masks and noise.
    pub closed spec fn encryption_state(&self) -> EncryptionRandomGenerator {
        self.encryption_generator
    }

    /// The bootstrapper, with the generator of server keys.
    pub closed spec fn bootstrapper_state(&self) -> Bootstrapper {
        self.bootstrapper
    }

    /// An engine whose generators all derive from `seed`; `KeyGenError` when the seed's stream
    /// is exhausted.
    pub fn new(seed: u128) -> (r: Result<GadgetEngine, GadgetError>)
        ensures
            r is Err ==> r == Err::<GadgetEngine, GadgetError>(GadgetError::KeyGenError),
    {
        let mut root = CsRng::new(seed);
        let secret_seed = root.next_seed();
        let encryption_seed = root.next_seed();
        let bootstrapper_seed = root.next_seed();
        match (secret_seed, encryption_seed, bootstrapper_seed) {
            (Some(s), Some(e), Some(b)) => {
                let encryption_generator = match EncryptionRandomGenerator::new(e) {
                    Some(g) => g,
                    None => {
                        return Err(GadgetError::KeyGenError);
                    },
                };
                let bootstrapper = match Bootstrapper::new(b) {
                    Ok(bs) => bs,
                    Err(err) => {
                        return Err(err);
                    },
                };
                Ok(
                    GadgetEngine {
                        bootstrapper,
                        secret_generator: CsRng::new(s),
                        encryption_generator,
                    },
                )
            },
            _ => Err(GadgetError::KeyGenError),
        }
    }

    /// Encrypts `message ∈ [0, p)` under the LWE secret of `client_key`: the phase is
    /// `encode(message) + e` with noise `e` within the bound of the key's noise level.
    /// `ParameterError` when `p < 2` or `message ≥ p`; `InternalError` when the generator is
    /// exhausted.
    pub fn encrypt(&mut self, message: u32, client_key: &ClientKey, p: u32) -> (r: Result<
        Ciphertext,
        GadgetError,
    >)
        requires
            client_key.wf(),
        ensures
            (p < 2 || message >= p) <==> r == Err::<Ciphertext, GadgetError>(
                GadgetError::ParameterError,
            ),
            r is Err ==> r == Err::<Ciphertext, GadgetError>(GadgetError::ParameterError) || r
                == Err::<Ciphertext, GadgetError>(GadgetError::InternalError),
            final(self).secret_state() == old(self).secret_state(),
            final(self).bootstrapper_state() == old(self).bootstrapper_state(),
            (p < 2 || message >= p) ==> final(self).encryption_state() == old(self).encryption_state(),
            r matches Ok(ct) ==> ct matches Ciphertext::Encrypted(c) && c.data@.len()
                == client_key.lwe_secret_key@.len() + 1 && encrypts_near(
                c.data@,
                client_key.lwe_secret_key@,
                encode_spec(message as int, p as int),
                noise_bound(client_key.parameters.lwe_modular_std_dev as int),
            ),
    {
        if p < 2 || message >= p {
            return Err(GadgetError::ParameterError);
        }
        let plaintext = encode(message, p);
        match lwe_encrypt(
            &client_key.lwe_secret_key,
            plaintext,
            client_key.parameters.lwe_modular_std_dev,
            &mut self.encryption_generator,
        ) {
            Some(data) => Ok(Ciphertext::Encrypted(LweCiphertext { data })),
            None => Err(GadgetError::InternalError),
        }
    }

    /// Decrypts `ct` to ℤ_p: the phase rounded to the nearest multiple of `2^32 / p`, or the
    /// trivial bit.
    pub fn decrypt(&self, ct: &Ciphertext, client_key: &ClientKey, p: u32) -> (r: u32)
        requires
            p >= 1,
            decryptable(*ct, *client_key),
        ensures
            r as int == decryption(*ct, *client_key, p),
    {
        match ct {
            Ciphertext::Encrypted(lwe_ct) => {
                let phase = lwe_phase(&lwe_ct.data, &client_key.lwe_secret_key);
                decode(phase, p)
            },
            Ciphertext::Trivial(b) => if *b {
                1
            } else {
                0
            },
        }
    }

    /// Generates a server key for `client_key`.
    pub fn create_server_key(&mut self, client_key: &ClientKey) -> (r: Result<ServerKey, GadgetError>)
        requires
            client_key.wf(),
        ensures
            r matches Ok(sk) ==> server_key_of(sk, *client_key),
            r is Err ==> r == Err::<ServerKey, GadgetError>(GadgetError::KeyGenError),
            final(self).secret_state() == old(self).secret_state(),
            final(self).encryption_state() == old(self).encryption_state(),
    {
        self.bootstrapper.new_server_key(client_key)
    }

    /// Generates a client key: a binary LWE secret of `n` coefficients and a binary GLWE
    /// secret of `k·N` coefficients. `ParameterError` on an unusable parameter set;
    /// `KeyGenError` when the generator is exhausted.
    pub fn create_client_key(&mut self, parameters: &GadgetParameters) -> (r: Result<
        ClientKey,
        GadgetError,
    >)
        ensures
            !parameters.wf() <==> r == Err::<ClientKey, GadgetError>(GadgetError::ParameterError),
            r matches Ok(ck) ==> ck.wf() && ck.parameters == *parameters,
            final(self).encryption_state() == old(self).encryption_state(),
            final(self).bootstrapper_state() == old(self).bootstrapper_state(),
            !parameters.wf() ==> final(self).secret_state() == old(self).secret_state(),
            r is Err ==> r == Err::<ClientKey, GadgetError>(GadgetError::ParameterError) || r
                == Err::<ClientKey, GadgetError>(GadgetError::KeyGenError),
    {
        if !parameters.is_valid() {
            return Err(GadgetError::ParameterError);
        }
        proof {
            lemma_sizes(*parameters);
        }
        let lwe_secret_key = match binary_secret(
            parameters.lwe_dimension,
            &mut self.secret_generator,
        ) {
            Some(s) => s,
            None => {
                return Err(GadgetError::KeyGenError);
            },
        };
        let glwe_secret_key = match binary_secret(
            parameters.glwe_dimension * parameters.polynomial_size,
            &mut self.secret_generator,
        ) {
            Some(s) => s,
            None => {
                return Err(GadgetError::KeyGenError);
            },
        };
        Ok(ClientKey { lwe_secret_key, glwe_secret_key, parameters: *parameters })
    }

    /// Bootstraps `ct` with the lookup of `encoding`; a trivial bit passes through unchanged.
    pub fn bootstrap(&mut self, ct: Ciphertext, server_key: &ServerKey, encoding: &Encoding) -> (r:
        Result<Ciphertext, GadgetError>)
        requires
            server_key.wf(),
        ensures
            ct matches Ciphertext::Trivial(b) ==> trivial_lookup(*encoding, b, r),
            ct matches Ciphertext::Encrypted(c) ==> (r is Ok <==> (bootstrappable(
                server_key.parameters,
                *encoding,
            ) && lwe_fits(c, server_key.parameters))),
            ct matches Ciphertext::Encrypted(c0) ==> (r matches Ok(o) ==> o matches Ciphertext::Encrypted(c)
                && lwe_fits(c, server_key.parameters) && c.data@ == refresh_spec(
                *server_key,
                c0.data@,
                *encoding,
            )),
            final(self).secret_state() == old(self).secret_state(),
            final(self).encryption_state() == old(self).encryption_state(),
    {
        match ct {
            Ciphertext::Encrypted(lwe_ct) => self.bootstrapper.bootstrap_keyswitch(
                lwe_ct,
                server_key,
                encoding,
            ),
            Ciphertext::Trivial(b) => bootstrap_trivial(encoding, b),
        }
    }

    /// Evaluates `encoding`'s gate on `input_ciphertexts`: the pins scaled and summed
    /// (see `gate_sum`), then bootstrapped. `ParameterError` when the number of inputs differs
    /// from the pin count, an input has the wrong size, or the encoding cannot be bootstrapped
    /// with the key's parameters; `EncodingError` on a bad output partition or pin scalar.
    pub fn evaluate_gate(
        &mut self,
        server_key: &ServerKey,
        encoding: &Encoding,
        input_ciphertexts: &Vec<Ciphertext>,
    ) -> (r: Result<Ciphertext, GadgetError>)
        requires
            server_key.wf(),
        ensures
            r is Ok <==> (bootstrappable(server_key.parameters, *encoding)
                && input_ciphertexts@.len() == encoding.pin_count && inputs_fit(
                input_ciphertexts@,
                server_key.parameters.lwe_dimension + 1,
            )),
            r matches Ok(o) ==> o matches Ciphertext::Encrypted(c) && lwe_fits(
                c,
                server_key.parameters,
            ) && c.data@ == refresh_spec(
                *server_key,
                partial_sum(
                    *encoding,
                    input_ciphertexts@,
                    input_ciphertexts@.len() as int,
                    server_key.parameters.lwe_dimension + 1,
                ),
                *encoding,
            ),
            r == Err::<Ciphertext, GadgetError>(GadgetError::EncodingError) <==> (
            input_ciphertexts@.len() == encoding.pin_count && inputs_fit(
                input_ciphertexts@,
                server_key.parameters.lwe_dimension + 1,
            ) && encoding.params_ok() && 2 * encoding.p <= server_key.parameters.polynomial_size
                && !encoding.wf()),
            r == Err::<Ciphertext, GadgetError>(GadgetError::ParameterError) <==> (
            input_ciphertexts@.len() != encoding.pin_count || !inputs_fit(
                input_ciphertexts@,
                server_key.parameters.lwe_dimension + 1,
            ) || !encoding.params_ok() || 2 * encoding.p > server_key.parameters.polynomial_size),
            final(self).secret_state() == old(self).secret_state(),
            final(self).encryption_state() == old(self).encryption_state(),
    {
        evaluate_gate_with(
            &mut self.bootstrapper.memory,
            &mut self.bootstrapper.computation_buffers,
            server_key,
            encoding,
            input_ciphertexts,
        )
    }
}

} // verus!
