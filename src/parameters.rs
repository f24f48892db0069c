//! The cryptographic parameter set.

use crate::random::MAX_STD_DEV;
use vstd::prelude::*;

verus! {

/// Largest LWE dimension accepted by a parameter set.
pub const MAX_LWE_DIMENSION: usize = 4096;

/// Largest polynomial size accepted by a parameter set.
pub const MAX_POLYNOMIAL_SIZE: usize = 65536;

/// Largest GLWE dimension accepted by a parameter set.
pub const MAX_GLWE_DIMENSION: usize = 8;

/// A set of cryptographic parameters for homomorphic gate evaluation.
///
/// Noise standard deviations are stated on the torus scaled by 2^32: a value `s`
/// stands for a standard deviation of `s / 2^32`.
#[derive(Clone, Copy, Debug, PartialEq, Eq)]
pub struct GadgetParameters {
    pub lwe_dimension: usize,
    pub glwe_dimension: usize,
    pub polynomial_size: usize,
    pub lwe_modular_std_dev: u64,
    pub glwe_modular_std_dev: u64,
    pub pbs_base_log: usize,
    pub pbs_level: usize,
    pub ks_base_log: usize,
    pub ks_level: usize,
}

/// `n` is a power of two.
pub open spec fn is_power_of_two(n: nat) -> bool
    decreases n,
{
    if n == 1 {
        true
    } else if n == 0 || n % 2 == 1 {
        false
    } else {
        is_power_of_two(n / 2)
    }
}

/// A gadget decomposition with `base_log` bits per level and `level` levels fits in 32 bits.
pub open spec fn decomposition_ok(base_log: int, level: int) -> bool {
    1 <= base_log <= 32 && 1 <= level <= 32 && base_log * level <= 32
}

/// Largest number of words of a key or buffer.
pub const MAX_WORDS: u64 = 0xffff_ffff;

impl GadgetParameters {
    /// Words of a GLWE ciphertext: `(k + 1)·N`.
    pub open spec fn glwe_len(&self) -> int {
        (self.glwe_dimension + 1) * self.polynomial_size
    }

    /// Words of the bootstrap key: one GGSW ciphertext of `(k + 1)·ℓ` GLWE rows per
    /// coefficient of the LWE secret.
    pub open spec fn bsk_len(&self) -> int {
        self.lwe_dimension * ((self.glwe_dimension + 1) * self.pbs_level) * self.glwe_len()
    }

    /// Words of the keyswitch key: `ℓ` LWE ciphertexts of `n + 1` words per coefficient of
    /// the big secret of `k·N` coefficients.
    pub open spec fn ksk_len(&self) -> int {
        (self.glwe_dimension * self.polynomial_size) * self.ks_level * (self.lwe_dimension + 1)
    }

    /// The parameter set describes usable keys and buffers.
    pub open spec fn wf(&self) -> bool {
        &&& 1 <= self.lwe_dimension <= MAX_LWE_DIMENSION
        &&& 1 <= self.glwe_dimension <= MAX_GLWE_DIMENSION
        &&& 2 <= self.polynomial_size <= MAX_POLYNOMIAL_SIZE
        &&& is_power_of_two(self.polynomial_size as nat)
        &&& decomposition_ok(self.pbs_base_log as int, self.pbs_level as int)
        &&& decomposition_ok(self.ks_base_log as int, self.ks_level as int)
        &&& self.lwe_modular_std_dev <= MAX_STD_DEV
        &&& self.glwe_modular_std_dev <= MAX_STD_DEV
        &&& self.bsk_len() <= MAX_WORDS
        &&& self.ksk_len() <= MAX_WORDS
    }

    /// Builds a parameter set from its fields.
    #[allow(clippy::too_many_arguments)]
    pub fn new(
        lwe_dimension: usize,
        glwe_dimension: usize,
        polynomial_size: usize,
        lwe_modular_std_dev: u64,
        glwe_modular_std_dev: u64,
        pbs_base_log: usize,
        pbs_level: usize,
        ks_base_log: usize,
        ks_level: usize,
    ) -> (r: GadgetParameters)
        ensures
            r.lwe_dimension == lwe_dimension,
            r.glwe_dimension == glwe_dimension,
            r.polynomial_size == polynomial_size,
            r.lwe_modular_std_dev == lwe_modular_std_dev,
            r.glwe_modular_std_dev == glwe_modular_std_dev,
            r.pbs_base_log == pbs_base_log,
            r.pbs_level == pbs_level,
            r.ks_base_log == ks_base_log,
            r.ks_level == ks_level,
    {
        GadgetParameters {
            lwe_dimension,
            glwe_dimension,
            polynomial_size,
            lwe_modular_std_dev,
            glwe_modular_std_dev,
            pbs_base_log,
            pbs_level,
            ks_level,
            ks_base_log,
        }
    }

    /// Tells whether the parameter set is usable.
    pub fn is_valid(&self) -> (r: bool)
        ensures
            r == self.wf(),
    {
        let n = self.polynomial_size;
        if !(1 <= self.lwe_dimension && self.lwe_dimension <= MAX_LWE_DIMENSION && 1
            <= self.glwe_dimension && self.glwe_dimension <= MAX_GLWE_DIMENSION && 2 <= n && n
            <= MAX_POLYNOMIAL_SIZE && power_of_two(n) && decomposition_fits(
            self.pbs_base_log,
            self.pbs_level,
        ) && decomposition_fits(self.ks_base_log, self.ks_level)
            && self.lwe_modular_std_dev <= MAX_STD_DEV && self.glwe_modular_std_dev
            <= MAX_STD_DEV) {
            return false;
        }
        let lwe = self.lwe_dimension as u64;
        let k = self.glwe_dimension as u64;
        let big_n = n as u64;
        let pl = self.pbs_level as u64;
        let kl = self.ks_level as u64;
        proof {
            assert((k + 1) * pl <= 9 * 32) by (nonlinear_arith)
                requires k <= 8, pl <= 32;
            assert((k + 1) * big_n <= 9 * 65536) by (nonlinear_arith)
                requires k <= 8, big_n <= 65536;
            assert(lwe * ((k + 1) * pl) <= 4096 * (9 * 32)) by (nonlinear_arith)
                requires lwe <= 4096, (k + 1) * pl <= 9 * 32;
            assert(lwe * ((k + 1) * pl) * ((k + 1) * big_n) <= 4096 * (9 * 32) * (9 * 65536))
                by (nonlinear_arith)
                requires
                    lwe * ((k + 1) * pl) <= 4096 * (9 * 32),
                    (k + 1) * big_n <= 9 * 65536,
                    lwe * ((k + 1) * pl) >= 0,
            ;
            assert(k * big_n <= 8 * 65536) by (nonlinear_arith)
                requires k <= 8, big_n <= 65536;
            assert(k * big_n * kl <= 8 * 65536 * 32) by (nonlinear_arith)
                requires k * big_n <= 8 * 65536, kl <= 32;
            assert(k * big_n * kl * (lwe + 1) <= 8 * 65536 * 32 * 4097) by (nonlinear_arith)
                requires k * big_n * kl <= 8 * 65536 * 32, lwe <= 4096, k * big_n * kl >= 0;
        }
        let bsk = lwe * ((k + 1) * pl) * ((k + 1) * big_n);
        let ksk = k * big_n * kl * (lwe + 1);
        bsk <= MAX_WORDS && ksk <= MAX_WORDS
    }
}

/// Bounds on the sizes of keys and buffers of a usable parameter set.
pub proof fn lemma_sizes(p: GadgetParameters)
    requires
        p.wf(),
    ensures
        p.glwe_len() <= 9 * 65536,
        p.glwe_dimension * p.polynomial_size + p.polynomial_size == p.glwe_len(),
        p.glwe_dimension * p.polynomial_size >= 2,
        (p.glwe_dimension + 1) * p.pbs_level <= 9 * 32,
        (p.glwe_dimension + 1) * p.pbs_level * p.polynomial_size <= 9 * 32 * 65536,
        ((p.glwe_dimension + 1) * p.pbs_level) * p.glwe_len() <= p.bsk_len(),
        p.bsk_len() == p.lwe_dimension * (((p.glwe_dimension + 1) * p.pbs_level) * p.glwe_len()),
        p.ksk_len() == (p.glwe_dimension * p.polynomial_size) * p.ks_level * (
        p.lwe_dimension + 1),
        p.glwe_dimension * p.polynomial_size * p.ks_level <= p.ksk_len(),
        p.lwe_dimension * ((p.glwe_dimension + 1) * p.pbs_level) <= p.bsk_len(),
        p.lwe_dimension * ((p.glwe_dimension + 1) * p.pbs_level) * p.polynomial_size <= p.bsk_len(),
{
    let k = p.glwe_dimension as int;
    let n = p.polynomial_size as int;
    let l = p.pbs_level as int;
    let lwe = p.lwe_dimension as int;
    assert((k + 1) * n <= 9 * 65536) by (nonlinear_arith)
        requires 1 <= k <= 8, 2 <= n <= 65536;
    assert(k * n + n == (k + 1) * n) by (nonlinear_arith);
    assert(k * n >= 2) by (nonlinear_arith)
        requires 1 <= k, 2 <= n;
    assert((k + 1) * l <= 9 * 32) by (nonlinear_arith)
        requires 1 <= k <= 8, 1 <= l <= 32;
    assert((k + 1) * l * n <= 9 * 32 * 65536) by (nonlinear_arith)
        requires (k + 1) * l <= 9 * 32, 2 <= n <= 65536, (k + 1) * l >= 0;
    assert(((k + 1) * l) * ((k + 1) * n) <= lwe * ((k + 1) * l) * ((k + 1) * n))
        by (nonlinear_arith)
        requires lwe >= 1, (k + 1) * l >= 0, (k + 1) * n >= 0;
    assert(lwe * ((k + 1) * l) * ((k + 1) * n) == lwe * (((k + 1) * l) * ((k + 1) * n)))
        by (nonlinear_arith);
    assert(k * n * p.ks_level <= k * n * p.ks_level * (lwe + 1)) by (nonlinear_arith)
        requires k * n >= 0, p.ks_level >= 0, lwe >= 1;
    assert(lwe * ((k + 1) * l) <= lwe * ((k + 1) * l) * ((k + 1) * n)) by (nonlinear_arith)
        requires lwe * ((k + 1) * l) >= 0, (k + 1) * n >= 1;
    assert(lwe * ((k + 1) * l) * n <= lwe * ((k + 1) * l) * ((k + 1) * n)) by (nonlinear_arith)
        requires lwe * ((k + 1) * l) >= 0, n <= (k + 1) * n;
    assert(lwe * ((k + 1) * l) >= 0) by (nonlinear_arith)
        requires lwe >= 1, k >= 1, l >= 1;
}

/// Tells whether `n` is a power of two.
pub fn power_of_two(n: usize) -> (r: bool)
    ensures
        r == is_power_of_two(n as nat),
{
    let mut m: usize = n;
    while m > 1 && m % 2 == 0
        invariant
            is_power_of_two(m as nat) == is_power_of_two(n as nat),
        decreases m,
    {
        m = m / 2;
    }
    m == 1
}

/// Tells whether a decomposition fits in 32 bits.
pub fn decomposition_fits(base_log: usize, level: usize) -> (r: bool)
    ensures
        r == decomposition_ok(base_log as int, level as int),
{
    if base_log < 1 || level < 1 || base_log > 32 || level > 32 {
        proof {
            if base_log > 32 && level >= 1 {
                assert(base_log * level >= base_log) by (nonlinear_arith)
                    requires level >= 1;
            }
            if level > 32 && base_log >= 1 {
                assert(base_log * level >= level) by (nonlinear_arith)
                    requires base_log >= 1;
            }
        }
        false
    } else {
        assert(base_log * level <= 32 * 32) by (nonlinear_arith)
            requires base_log <= 32, level <= 32;
        base_log * level <= 32
    }
}

/// The parameter set targeting 128 bits of security.
pub fn default_parameters() -> (r: GadgetParameters)
    ensures
        r.wf(),
        r.lwe_dimension == 768,
        r.polynomial_size == 2048,
{
    proof {
        reveal_with_fuel(is_power_of_two, 12);
    }
    let r = GadgetParameters::new(768, 1, 2048, 16002, 0, 15, 2, 5, 3);
    proof {
        assert(is_power_of_two(2048));
        assert(r.glwe_len() == 4096);
        assert(r.bsk_len() == 768 * 4 * 4096);
        assert(r.ksk_len() == 2048 * 3 * 769);
    }
    r
}

} // verus!
