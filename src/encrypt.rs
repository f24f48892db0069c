//! Secret keys, encryption and decryption of LWE ciphertexts, and generation of the
//! bootstrap and keyswitch keys.

use crate::lwe::{
    cong, dot, encrypts_near, lemma_cong_add, lemma_cong_sub, lemma_cong_tmod, phase, within,
};
use crate::parameters::{lemma_sizes, GadgetParameters};
use crate::pbs::ggsw_rows;
use crate::plaintext::{q, tmod};
use crate::poly::{lemma_block, lemma_wrap_step, mul_partial, mul_term, poly_mul_acc, pow2_u64};
use crate::random::{lemma_noise_bound, noise_bound, CsRng, MAX_STD_DEV};
use vstd::arithmetic::power2::pow2;
use vstd::prelude::*;

verus! {

/// Two generators for encryption: one draws masks, the other draws noise.
pub struct EncryptionRandomGenerator {
    pub(crate) mask: CsRng,
    pub(crate) noise: CsRng,
}

impl EncryptionRandomGenerator {
    /// Generators seeded from `seed`; `None` when the seed's stream is exhausted.
    pub fn new(seed: u128) -> (r: Option<EncryptionRandomGenerator>) {
        let mut root = CsRng::new(seed);
        let mask_seed = root.next_seed();
        let noise_seed = root.next_seed();
        match (mask_seed, noise_seed) {
            (Some(m), Some(e)) => Some(
                EncryptionRandomGenerator { mask: CsRng::new(m), noise: CsRng::new(e) },
            ),
            _ => None,
        }
    }
}

/// Every coefficient of `s` is 0 or 1.
pub open spec fn is_binary(s: Seq<u32>) -> bool {
    forall|i: int| 0 <= i < s.len() ==> s[i] <= 1
}

/// A uniformly random binary secret of `len` coefficients.
pub fn binary_secret(len: usize, rng: &mut CsRng) -> (r: Option<Vec<u32>>)
    ensures
        r matches Some(s) ==> s@.len() == len && is_binary(s@),
{
    let mut s: Vec<u32> = Vec::with_capacity(len);
    let mut i: usize = 0;
    while i < len
        invariant
            i <= len,
            s@.len() == i,
            is_binary(s@),
        decreases len - i,
    {
        match rng.next_bit() {
            Some(b) => s.push(b),
            None => {
                return None;
            },
        }
        i = i + 1;
    }
    Some(s)
}

/// The inner product only reads the first `k` coefficients.
pub proof fn lemma_dot_prefix(a: Seq<u32>, b: Seq<u32>, s: Seq<u32>, k: int)
    requires
        0 <= k <= a.len(),
        k <= b.len(),
        forall|i: int| 0 <= i < k ==> a[i] == b[i],
    ensures
        dot(a, s, k) == dot(b, s, k),
    decreases k,
{
    if k > 0 {
        lemma_dot_prefix(a, b, s, k - 1);
    }
}

/// `Σ_{i < len(a)} a[i]·s[i]` modulo 2^32.
pub fn dot_mod(a: &Vec<u32>, s: &Vec<u32>) -> (r: u32)
    requires
        a@.len() <= s@.len(),
    ensures
        r as int == tmod(dot(a@, s@, a@.len() as int)),
{
    let mut acc: u32 = 0;
    let mut i: usize = 0;
    while i < a.len()
        invariant
            i <= a@.len() <= s@.len(),
            acc as int == tmod(dot(a@, s@, i as int)),
        decreases a@.len() - i,
    {
        let prod = a[i].wrapping_mul(s[i]);
        let next = acc.wrapping_add(prod);
        proof {
            let d = dot(a@, s@, i as int);
            let m = a@[i as int] * s@[i as int];
            lemma_cong_tmod(d);
            lemma_cong_tmod(m);
            lemma_cong_add(acc as int, d, prod as int, m);
            lemma_cong_tmod(acc + prod);
            assert(next as int == tmod(acc + prod)) by {
                let x = acc as int + prod as int;
                if x >= q() {
                    vstd::arithmetic::div_mod::lemma_fundamental_div_mod_converse(x, q(), 1, x - q());
                } else {
                    vstd::arithmetic::div_mod::lemma_fundamental_div_mod_converse(x, q(), 0, x);
                }
            }
        }
        acc = next;
        i = i + 1;
    }
    acc
}

/// The phase of LWE ciphertext `c` under secret `s`.
pub fn lwe_phase(c: &Vec<u32>, s: &Vec<u32>) -> (r: u32)
    requires
        c@.len() == s@.len() + 1,
    ensures
        r as int == phase(c@, s@),
{
    let n = s.len();
    let mut mask: Vec<u32> = Vec::with_capacity(n);
    let mut i: usize = 0;
    while i < n
        invariant
            c@.len() == n + 1,
            i <= n,
            mask@.len() == i,
            forall|j: int| 0 <= j < i ==> mask@[j] == c@[j],
        decreases n - i,
    {
        mask.push(c[i]);
        i = i + 1;
    }
    let d = dot_mod(&mask, s);
    let body = c[n];
    let r = body.wrapping_sub(d);
    proof {
        lemma_dot_prefix(mask@, c@, s@, n as int);
        let x = body as int - d as int;
        if x < 0 {
            vstd::arithmetic::div_mod::lemma_fundamental_div_mod_converse(x, q(), -1, x + q());
        } else {
            vstd::arithmetic::div_mod::lemma_fundamental_div_mod_converse(x, q(), 0, x);
        }
        lemma_cong_tmod(dot(c@, s@, n as int));
        lemma_cong_sub(body as int, body as int, d as int, dot(c@, s@, n as int));
        lemma_cong_tmod(x);
    }
    r
}

/// A noise value stored modulo 2^32.
fn wrap_noise(e: i64) -> (r: u32)
    requires
        -0x1_0000_0000 < e < 0x1_0000_0000,
    ensures
        r as int == tmod(e as int),
{
    if e < 0 {
        proof {
            vstd::arithmetic::div_mod::lemma_fundamental_div_mod_converse(e as int, q(), -1, e + q());
        }
        (e + 0x1_0000_0000i64) as u32
    } else {
        proof {
            vstd::arithmetic::div_mod::lemma_fundamental_div_mod_converse(e as int, q(), 0, e as int);
        }
        e as u32
    }
}

/// Encrypts the plaintext `pt` under the secret `s`: a random mask, and a body equal to the
/// inner product plus `pt` plus noise. The phase is `pt + e` for a noise `e` within
/// `noise_bound(std_dev)`. `None` when a generator is exhausted.
pub fn lwe_encrypt(s: &Vec<u32>, pt: u32, std_dev: u64, gen: &mut EncryptionRandomGenerator) -> (r:
    Option<Vec<u32>>)
    requires
        std_dev <= MAX_STD_DEV,
        s@.len() < usize::MAX,
    ensures
        r matches Some(c) ==> c@.len() == s@.len() + 1 && encrypts_near(
            c@,
            s@,
            pt as int,
            noise_bound(std_dev as int),
        ),
{
    let n = s.len();
    let mut c: Vec<u32> = Vec::with_capacity(n + 1);
    let mut i: usize = 0;
    while i < n
        invariant
            i <= n,
            n == s@.len(),
            c@.len() == i,
        decreases n - i,
    {
        match gen.mask.next_u32() {
            Some(a) => c.push(a),
            None => {
                return None;
            },
        }
        i = i + 1;
    }
    let e = match gen.noise.noise(std_dev) {
        Some(e) => e,
        None => {
            return None;
        },
    };
    let d = dot_mod(&c, s);
    proof {
        lemma_noise_bound(std_dev as int);
    }
    let ew = wrap_noise(e);
    let body = d.wrapping_add(pt).wrapping_add(ew);
    let ghost mask = c@;
    c.push(body);
    proof {
        lemma_dot_prefix(mask, c@, s@, n as int);
        let dd = dot(mask, s@, n as int);
        // body ≡ dd + pt + e, so body − dd ≡ pt + e
        let x1 = d as int + pt as int;
        let w1 = d.wrapping_add(pt);
        assert(w1 as int == tmod(x1)) by {
            if x1 >= q() {
                vstd::arithmetic::div_mod::lemma_fundamental_div_mod_converse(x1, q(), 1, x1 - q());
            } else {
                vstd::arithmetic::div_mod::lemma_fundamental_div_mod_converse(x1, q(), 0, x1);
            }
        }
        let x2 = w1 as int + ew as int;
        assert(body as int == tmod(x2)) by {
            if x2 >= q() {
                vstd::arithmetic::div_mod::lemma_fundamental_div_mod_converse(x2, q(), 1, x2 - q());
            } else {
                vstd::arithmetic::div_mod::lemma_fundamental_div_mod_converse(x2, q(), 0, x2);
            }
        }
        lemma_cong_tmod(x1);
        lemma_cong_tmod(x2);
        lemma_cong_tmod(dd);
        lemma_cong_tmod(e as int);
        lemma_cong_add(d as int, dd, pt as int, pt as int);
        lemma_cong_add(w1 as int, x1, ew as int, e as int);
        lemma_cong_add(w1 as int, dd + pt, ew as int, e as int);
        lemma_cong_sub(body as int, dd + pt + e, dd, dd);
        assert(dd + pt + e - dd == pt + e);
        lemma_cong_tmod(body - dd);
        assert(within(e as int, noise_bound(std_dev as int)));
    }
    Some(c)
}

/// The message of GGSW row `c·ℓ + j` for the secret bit `bit`, at coefficient `t`: with
/// `g = 2^(32 − B(j+1))`, `−bit·g·S_c[t]` for a mask row `c < k`, and `bit·g` on the
/// constant coefficient for the body row `c = k`.
pub open spec fn ggsw_message(bit: u32, s: Seq<u32>, c: int, k: int, n: int, g: int, t: int) -> int {
    if bit == 0 {
        0
    } else if c < k {
        -(g * s[c * n + t])
    } else if t == 0 {
        g
    } else {
        0
    }
}

/// The gadget factor of row `r` of a GGSW ciphertext: `2^(32 − B(j+1))` for level `j = r mod ℓ`.
pub open spec fn bsk_gadget(params: GadgetParameters, r: int) -> int {
    pow2((32 - params.pbs_base_log * (r % params.pbs_level as int + 1)) as nat) as int
}

/// Every coefficient of the phase of every GLWE row `r` of GGSW ciphertext `i` of `bsk` is
/// its message (see `ggsw_message`, for the secret bit `lwe_secret[i]`) plus noise within the
/// bound of the GLWE noise level of `params`.
pub open spec fn bootstrap_key_encrypts(
    bsk: Seq<u32>,
    params: GadgetParameters,
    lwe_secret: Seq<u32>,
    glwe_secret: Seq<u32>,
) -> bool {
    forall|i: int, r: int, t: int|
        0 <= i < params.lwe_dimension && 0 <= r < ggsw_rows(params) && 0 <= t
            < params.polynomial_size ==> near(
            #[trigger] glwe_phase_coeff(
                bsk,
                (i * ggsw_rows(params) + r) * params.glwe_len(),
                glwe_secret,
                params.glwe_dimension as int,
                params.polynomial_size as int,
                t,
            ),
            ggsw_message(
                lwe_secret[i],
                glwe_secret,
                r / params.pbs_level as int,
                params.glwe_dimension as int,
                params.polynomial_size as int,
                bsk_gadget(params, r),
                t,
            ),
            noise_bound(params.glwe_modular_std_dev as int),
        )
}

/// The phase of a GLWE ciphertext reads only its own `(k + 1)·n` words.
pub proof fn lemma_glwe_phase_shift(c1: Seq<u32>, off1: int, c2: Seq<u32>, off2: int, s: Seq<u32>, k: int, n: int, t: int)
    requires
        0 <= k,
        0 <= t < n,
        forall|x: int| 0 <= x < k * n + n ==> #[trigger] c1[off1 + x] == c2[off2 + x],
    ensures
        glwe_phase_coeff(c1, off1, s, k, n, t) == glwe_phase_coeff(c2, off2, s, k, n, t),
{
    assert(k * n >= 0) by (nonlinear_arith)
        requires k >= 0, n >= 0;
    lemma_glwe_mask_dot_shift(c1, off1, c2, off2, s, n, k, t);
    assert(c1[off1 + (k * n + t)] == c2[off2 + (k * n + t)]);
}

/// One GGSW row: a GLWE encryption of zero with the row's message added to its body, so that
/// its mask stays the generator's output.
fn ggsw_row(
    params: &GadgetParameters,
    glwe_secret: &Vec<u32>,
    bit: u32,
    r: usize,
    gen: &mut EncryptionRandomGenerator,
) -> (res: Option<Vec<u32>>)
    requires
        params.wf(),
        glwe_secret@.len() == params.glwe_dimension * params.polynomial_size,
        r < ggsw_rows(*params),
    ensures
        res matches Some(row) ==> row@.len() == params.glwe_len() && forall|t: int|
            0 <= t < params.polynomial_size ==> near(
                #[trigger] glwe_phase_coeff(
                    row@,
                    0,
                    glwe_secret@,
                    params.glwe_dimension as int,
                    params.polynomial_size as int,
                    t,
                ),
                ggsw_message(
                    bit,
                    glwe_secret@,
                    r as int / params.pbs_level as int,
                    params.glwe_dimension as int,
                    params.polynomial_size as int,
                    bsk_gadget(*params, r as int),
                    t,
                ),
                noise_bound(params.glwe_modular_std_dev as int),
            ),
{
    proof {
        lemma_sizes(*params);
    }
    let n = params.polynomial_size;
    let k = params.glwe_dimension;
    let levels = params.pbs_level;
    let base_log = params.pbs_base_log;
    let kn = k * n;
    let std_dev = params.glwe_modular_std_dev;
    let row = match glwe_encrypt_zero(params, glwe_secret, std_dev, gen) {
        Some(row) => row,
        None => {
            return None;
        },
    };
    let c = r / levels;
    let j = r % levels;
    proof {
        assert(c < k + 1) by (nonlinear_arith)
            requires c == r / levels, r < (k + 1) * levels, levels >= 1;
        assert(base_log * (j + 1) <= 32) by (nonlinear_arith)
            requires j < levels, base_log * levels <= 32, base_log >= 1;
        assert(base_log * (j + 1) >= 1) by (nonlinear_arith)
            requires base_log >= 1, j >= 0;
    }
    let g = pow2_u64(32 - base_log * (j + 1));
    let gw = g as u32;
    let ghost bound = noise_bound(std_dev as int);
    let ghost old_row = row@;
    let ghost msg = |t: int| ggsw_message(bit, glwe_secret@, c as int, k as int, n as int, g as int, t);
    let mut row = row;
    if bit != 0 && c < k {
        proof {
            lemma_block(c as int, k as int, n as int);
        }
        let mut t: usize = 0;
        while t < n
            invariant
                row@.len() == kn + n,
                kn + n <= 9 * 65536,
                kn == k * n,
                glwe_secret@.len() == k * n,
                c < k,
                c * n + n <= k * n,
                gw == g,
                t <= n,
                forall|x: int| 0 <= x < kn ==> row@[x] == old_row[x],
                forall|x: int| t <= x < n ==> #[trigger] row@[kn + x] == old_row[kn + x],
                forall|x: int|
                    0 <= x < t ==> #[trigger] row@[kn + x] as int == tmod(
                        old_row[kn + x] - g * glwe_secret@[c * n + x],
                    ),
            decreases n - t,
        {
            let m = gw.wrapping_mul(glwe_secret[c * n + t]);
            proof {
                lemma_cong_tmod(old_row[kn + t] as int);
                lemma_wrap_step(row@[kn + t], old_row[kn + t] as int, m, g * glwe_secret@[c * n + t], false);
            }
            let v = row[kn + t].wrapping_sub(m);
            row.set(kn + t, v);
            t = t + 1;
        }
    } else if bit != 0 {
        proof {
            lemma_cong_tmod(old_row[kn as int] as int);
            lemma_cong_tmod(g as int);
            lemma_wrap_step(row@[kn as int], old_row[kn as int] as int, gw, g as int, true);
        }
        let v = row[kn].wrapping_add(gw);
        row.set(kn, v);
    }
    proof {
        assert(j == r % levels);
        assert(bsk_gadget(*params, r as int) == g);
        assert forall|t: int| 0 <= t < n implies near(
            #[trigger] glwe_phase_coeff(row@, 0, glwe_secret@, k as int, n as int, t),
            ggsw_message(bit, glwe_secret@, c as int, k as int, n as int, g as int, t),
            bound,
        ) by {
            // the mask is unchanged, so the products with the secret are too
            assert(k * n >= 0) by (nonlinear_arith)
                requires k >= 0, n >= 0;
            lemma_glwe_mask_dot_shift(row@, 0, old_row, 0, glwe_secret@, n as int, k as int, t);
            let d = glwe_mask_dot(old_row, 0, glwe_secret@, n as int, k as int, t);
            assert(near(glwe_phase_coeff(old_row, 0, glwe_secret@, k as int, n as int, t), 0, bound));
            let e = choose|e: int| #[trigger] within(e, bound) && glwe_phase_coeff(old_row, 0, glwe_secret@, k as int, n as int, t) == tmod(0 + e);
            let m = ggsw_message(bit, glwe_secret@, c as int, k as int, n as int, g as int, t);
            let old_body = old_row[kn + t] as int;
            let new_body = row@[0 + k * n + t] as int;
            assert(row@[0 + k * n + t] == row@[kn + t]);
            assert(old_row[0 + k * n + t] == old_row[kn + t]);
            // new body ≡ old body + message
            assert(cong(new_body, old_body + m)) by {
                if bit != 0 && c < k {
                    lemma_cong_tmod(old_body - g * glwe_secret@[c * n + t]);
                } else if bit != 0 && t == 0 {
                    lemma_cong_tmod(old_body + g);
                } else {
                }
            }
            // phase: body − d ≡ (old body − d) + m ≡ e + m
            lemma_cong_sub(new_body, old_body + m, d, d);
            lemma_cong_tmod(old_body - d);
            lemma_cong_add(old_body - d, tmod(old_body - d), m, m);
            lemma_cong_tmod(new_body - d);
            lemma_cong_tmod(e);
            lemma_cong_add(tmod(old_body - d), e, m, m);
            lemma_cong_tmod(m + e);
            assert(within(e, bound));
        }
    }
    Some(row)
}

/// Generates the bootstrap key: for each coefficient of `lwe_secret`, a GGSW encryption of it
/// under `glwe_secret`. `None` when a generator is exhausted.
pub fn generate_bootstrap_key(
    params: &GadgetParameters,
    lwe_secret: &Vec<u32>,
    glwe_secret: &Vec<u32>,
    gen: &mut EncryptionRandomGenerator,
) -> (r: Option<Vec<u32>>)
    requires
        params.wf(),
        lwe_secret@.len() == params.lwe_dimension,
        glwe_secret@.len() == params.glwe_dimension * params.polynomial_size,
    ensures
        r matches Some(b) ==> b@.len() == params.bsk_len() && bootstrap_key_encrypts(
            b@,
            *params,
            lwe_secret@,
            glwe_secret@,
        ),
{
    proof {
        lemma_sizes(*params);
    }
    let n = params.polynomial_size;
    let k = params.glwe_dimension;
    let levels = params.pbs_level;
    let glwe_len = (k + 1) * n;
    let rows = (k + 1) * levels;
    let total = params.lwe_dimension * (rows * glwe_len);
    let lwe_dim = params.lwe_dimension;
    let ghost bound = noise_bound(params.glwe_modular_std_dev as int);
    let mut bsk: Vec<u32> = Vec::with_capacity(total);
    proof {
        assert((0 * rows) * glwe_len == 0) by (nonlinear_arith);
    }
    let mut i: usize = 0;
    while i < lwe_dim
        invariant
            params.wf(),
            n == params.polynomial_size,
            k == params.glwe_dimension,
            levels == params.pbs_level,
            glwe_len == (k + 1) * n,
            glwe_len == k * n + n,
            glwe_len == params.glwe_len(),
            rows == (k + 1) * levels,
            rows == ggsw_rows(*params),
            lwe_dim == params.lwe_dimension,
            total == params.bsk_len(),
            total == lwe_dim * (rows * glwe_len),
            bound == noise_bound(params.glwe_modular_std_dev as int),
            lwe_secret@.len() == lwe_dim,
            glwe_secret@.len() == k * n,
            i <= lwe_dim,
            bsk@.len() == (i * rows) * glwe_len,
            forall|i2: int, r2: int, t: int|
                0 <= i2 < lwe_dim && 0 <= r2 < rows && 0 <= t < n && i2 * rows + r2 < i * rows
                    ==> near(
                    #[trigger] glwe_phase_coeff(bsk@, (i2 * rows + r2) * glwe_len, glwe_secret@, k as int, n as int, t),
                    ggsw_message(lwe_secret@[i2], glwe_secret@, r2 / levels as int, k as int, n as int, bsk_gadget(*params, r2), t),
                    bound,
                ),
        decreases lwe_dim - i,
    {
        let bit = lwe_secret[i];
        let mut r: usize = 0;
        while r < rows
            invariant
                params.wf(),
                n == params.polynomial_size,
                k == params.glwe_dimension,
                levels == params.pbs_level,
                glwe_len == (k + 1) * n,
                glwe_len == k * n + n,
                glwe_len == params.glwe_len(),
                rows == (k + 1) * levels,
                rows == ggsw_rows(*params),
                lwe_dim == params.lwe_dimension,
                total == lwe_dim * (rows * glwe_len),
                bound == noise_bound(params.glwe_modular_std_dev as int),
                lwe_secret@.len() == lwe_dim,
                bit == lwe_secret@[i as int],
                glwe_secret@.len() == k * n,
                i < lwe_dim,
                r <= rows,
                bsk@.len() == (i * rows + r) * glwe_len,
                forall|i2: int, r2: int, t: int|
                    0 <= i2 < lwe_dim && 0 <= r2 < rows && 0 <= t < n && i2 * rows + r2 < i * rows + r
                        ==> near(
                        #[trigger] glwe_phase_coeff(bsk@, (i2 * rows + r2) * glwe_len, glwe_secret@, k as int, n as int, t),
                        ggsw_message(lwe_secret@[i2], glwe_secret@, r2 / levels as int, k as int, n as int, bsk_gadget(*params, r2), t),
                        bound,
                    ),
            decreases rows - r,
        {
            proof {
                assert(i * rows + r < lwe_dim * rows) by (nonlinear_arith)
                    requires i < lwe_dim, r < rows;
                lemma_block((i * rows + r) as int, (lwe_dim * rows) as int, glwe_len as int);
                assert((lwe_dim * rows) * glwe_len == total) by (nonlinear_arith)
                    requires total == lwe_dim * (rows * glwe_len);
            }
            let row = match ggsw_row(params, glwe_secret, bit, r, gen) {
                Some(row) => row,
                None => {
                    return None;
                },
            };
            let ghost prefix = bsk@;
            let mut t: usize = 0;
            while t < glwe_len
                invariant
                    row@.len() == glwe_len,
                    bsk@ == prefix + row@.subrange(0, t as int),
                    prefix.len() + glwe_len <= total,
                    total <= 0xffff_ffff,
                    t <= glwe_len,
                decreases glwe_len - t,
            {
                bsk.push(row[t]);
                proof {
                    assert(bsk@ =~= prefix + row@.subrange(0, t + 1));
                }
                t = t + 1;
            }
            proof {
                assert(row@.subrange(0, glwe_len as int) =~= row@);
                let here = i * rows + r;
                let off = here * glwe_len;
                assert(off == prefix.len());
                assert forall|i2: int, r2: int, t2: int|
                    0 <= i2 < lwe_dim && 0 <= r2 < rows && 0 <= t2 < n && i2 * rows + r2 < i * rows + r + 1
                        implies near(
                        #[trigger] glwe_phase_coeff(bsk@, (i2 * rows + r2) * glwe_len, glwe_secret@, k as int, n as int, t2),
                        ggsw_message(lwe_secret@[i2], glwe_secret@, r2 / levels as int, k as int, n as int, bsk_gadget(*params, r2), t2),
                        bound,
                    ) by {
                    let q = i2 * rows + r2;
                    if q < here {
                        assert(q * glwe_len + glwe_len <= off) by (nonlinear_arith)
                            requires q < here, off == here * glwe_len, glwe_len >= 0;
                        assert(q * glwe_len >= 0) by (nonlinear_arith)
                            requires q >= 0, glwe_len >= 0;
                        assert forall|x: int| 0 <= x < k * n + n implies #[trigger] bsk@[q * glwe_len + x] == prefix[q * glwe_len + x] by {
                        }
                        lemma_glwe_phase_shift(bsk@, q * glwe_len, prefix, q * glwe_len, glwe_secret@, k as int, n as int, t2);
                    } else {
                        assert(q == here);
                        assert(i2 == i && r2 == r) by (nonlinear_arith)
                            requires q == i2 * rows + r2, q == i * rows + r, 0 <= r2 < rows, 0 <= r < rows, i2 >= 0, i >= 0;
                        assert forall|x: int| 0 <= x < k * n + n implies #[trigger] bsk@[off + x] == row@[0 + x] by {
                        }
                        lemma_glwe_phase_shift(bsk@, off, row@, 0, glwe_secret@, k as int, n as int, t2);
                    }
                }
                assert((i * rows + r) * glwe_len + glwe_len == (i * rows + r + 1) * glwe_len) by (nonlinear_arith);
            }
            r = r + 1;
        }
        proof {
            assert forall|i2: int, r2: int, t: int|
                0 <= i2 < lwe_dim && 0 <= r2 < rows && 0 <= t < n && i2 * rows + r2 < (i + 1) * rows
                    implies near(
                    #[trigger] glwe_phase_coeff(bsk@, (i2 * rows + r2) * glwe_len, glwe_secret@, k as int, n as int, t),
                    ggsw_message(lwe_secret@[i2], glwe_secret@, r2 / levels as int, k as int, n as int, bsk_gadget(*params, r2), t),
                    bound,
                ) by {
                assert(i * rows + rows == (i + 1) * rows) by (nonlinear_arith);
            }
            assert((i * rows + rows) * glwe_len == ((i + 1) * rows) * glwe_len) by (nonlinear_arith);
        }
        i = i + 1;
    }
    proof {
        assert((lwe_dim * rows) * glwe_len == total) by (nonlinear_arith)
            requires total == lwe_dim * (rows * glwe_len);
        assert forall|i2: int, r2: int, t: int|
            0 <= i2 < params.lwe_dimension && 0 <= r2 < ggsw_rows(*params) && 0 <= t < params.polynomial_size
                implies near(
                #[trigger] glwe_phase_coeff(bsk@, (i2 * ggsw_rows(*params) + r2) * params.glwe_len(), glwe_secret@, params.glwe_dimension as int, params.polynomial_size as int, t),
                ggsw_message(lwe_secret@[i2], glwe_secret@, r2 / params.pbs_level as int, params.glwe_dimension as int, params.polynomial_size as int, bsk_gadget(*params, r2), t),
                noise_bound(params.glwe_modular_std_dev as int),
            ) by {
            assert(i2 * rows + r2 < lwe_dim * rows) by (nonlinear_arith)
                requires i2 < lwe_dim, r2 < rows;
        }
    }
    Some(bsk)
}

/// `Σ_{j' < j} (A_j' · S_j')[t]`: coefficient `t` of the products of the first `j` mask
/// polynomials of the GLWE ciphertext at `off` of `c` with the secret polynomials of `s`.
pub open spec fn glwe_mask_dot(c: Seq<u32>, off: int, s: Seq<u32>, n: int, j: int, t: int) -> int
    decreases j,
{
    if j <= 0 {
        0
    } else {
        glwe_mask_dot(c, off, s, n, j - 1, t) + mul_partial(c, off + (j - 1) * n, s, (j - 1) * n, n, n, t)
    }
}

/// Coefficient `t` of the phase, under `s`, of the GLWE ciphertext at `off` of `c`: its body
/// minus the products of its `k` mask polynomials with the secret, modulo 2^32.
pub open spec fn glwe_phase_coeff(c: Seq<u32>, off: int, s: Seq<u32>, k: int, n: int, t: int) -> int {
    tmod(c[off + k * n + t] - glwe_mask_dot(c, off, s, n, k, t))
}

/// `x` is `msg + e` modulo 2^32 for some noise `e` within `bound`.
pub open spec fn near(x: int, msg: int, bound: int) -> bool {
    exists|e: int| #[trigger] within(e, bound) && x == tmod(msg + e)
}

/// The negacyclic product reads only the `n` coefficients of `a` at its offset.
pub proof fn lemma_mul_partial_shift(
    a1: Seq<u32>,
    ao1: int,
    a2: Seq<u32>,
    ao2: int,
    b: Seq<u32>,
    bo: int,
    n: int,
    i: int,
    t: int,
)
    requires
        0 <= i <= n,
        forall|x: int| 0 <= x < n ==> #[trigger] a1[ao1 + x] == a2[ao2 + x],
    ensures
        mul_partial(a1, ao1, b, bo, n, i, t) == mul_partial(a2, ao2, b, bo, n, i, t),
    decreases i,
{
    if i > 0 {
        lemma_mul_partial_shift(a1, ao1, a2, ao2, b, bo, n, i - 1, t);
        assert(a1[ao1 + (i - 1)] == a2[ao2 + (i - 1)]);
        assert(mul_term(a1, ao1, b, bo, n, i - 1, t) == mul_term(a2, ao2, b, bo, n, i - 1, t));
    }
}

/// The mask products read only the `k·n` mask words at the offset.
pub proof fn lemma_glwe_mask_dot_shift(
    c1: Seq<u32>,
    off1: int,
    c2: Seq<u32>,
    off2: int,
    s: Seq<u32>,
    n: int,
    j: int,
    t: int,
)
    requires
        0 <= j,
        0 <= n,
        forall|x: int| 0 <= x < j * n ==> #[trigger] c1[off1 + x] == c2[off2 + x],
    ensures
        glwe_mask_dot(c1, off1, s, n, j, t) == glwe_mask_dot(c2, off2, s, n, j, t),
    decreases j,
{
    if j > 0 {
        assert forall|x: int| 0 <= x < (j - 1) * n implies #[trigger] c1[off1 + x] == c2[off2 + x] by {
            assert((j - 1) * n <= j * n) by (nonlinear_arith)
                requires j >= 1, n >= 0;
        }
        lemma_glwe_mask_dot_shift(c1, off1, c2, off2, s, n, j - 1, t);
        assert forall|x: int| 0 <= x < n implies #[trigger] c1[off1 + (j - 1) * n + x] == c2[off2 + (j - 1) * n + x] by {
            assert((j - 1) * n + x < j * n) by (nonlinear_arith)
                requires x < n, j >= 1;
            assert((j - 1) * n + x >= 0) by (nonlinear_arith)
                requires x >= 0, j >= 1, n >= 0;
            assert(c1[off1 + ((j - 1) * n + x)] == c2[off2 + ((j - 1) * n + x)]);
        }
        lemma_mul_partial_shift(c1, off1 + (j - 1) * n, c2, off2 + (j - 1) * n, s, (j - 1) * n, n, n, t);
    }
}

/// A GLWE encryption of zero under `glwe_secret`: random mask polynomials and a body equal to
/// their products with the secret plus noise. `None` when a generator is exhausted.
fn glwe_encrypt_zero(
    params: &GadgetParameters,
    glwe_secret: &Vec<u32>,
    std_dev: u64,
    gen: &mut EncryptionRandomGenerator,
) -> (r: Option<Vec<u32>>)
    requires
        params.wf(),
        std_dev <= MAX_STD_DEV,
        glwe_secret@.len() == params.glwe_dimension * params.polynomial_size,
    ensures
        r matches Some(c) ==> c@.len() == params.glwe_len() && forall|t: int|
            0 <= t < params.polynomial_size ==> near(
                #[trigger] glwe_phase_coeff(
                    c@,
                    0,
                    glwe_secret@,
                    params.glwe_dimension as int,
                    params.polynomial_size as int,
                    t,
                ),
                0,
                noise_bound(std_dev as int),
            ),
{
    proof {
        lemma_sizes(*params);
    }
    let n = params.polynomial_size;
    let k = params.glwe_dimension;
    let glwe_len = (k + 1) * n;
    let kn = k * n;
    let mut mask: Vec<u32> = Vec::with_capacity(kn);
    let mut t: usize = 0;
    while t < kn
        invariant
            kn == k * n,
            t <= k * n,
            mask@.len() == t,
        decreases k * n - t,
    {
        match gen.mask.next_u32() {
            Some(a) => mask.push(a),
            None => {
                return None;
            },
        }
        t = t + 1;
    }
    let mut body: Vec<u32> = Vec::with_capacity(n);
    let ghost mut noise: Seq<int> = Seq::empty();
    let mut t: usize = 0;
    while t < n
        invariant
            t <= n,
            std_dev <= MAX_STD_DEV,
            body@.len() == t,
            noise.len() == t,
            forall|x: int|
                0 <= x < t ==> within(#[trigger] noise[x], noise_bound(std_dev as int))
                    && body@[x] as int == tmod(noise[x]),
        decreases n - t,
    {
        match gen.noise.noise(std_dev) {
            Some(e) => {
                proof {
                    lemma_noise_bound(std_dev as int);
                    noise = noise.push(e as int);
                }
                body.push(wrap_noise(e))
            },
            None => {
                return None;
            },
        }
        t = t + 1;
    }
    let mut j: usize = 0;
    while j < k
        invariant
            params.wf(),
            n == params.polynomial_size,
            k == params.glwe_dimension,
            glwe_secret@.len() == k * n,
            k * n + n == glwe_len,
            glwe_len <= 9 * 65536,
            mask@.len() == k * n,
            body@.len() == n,
            j <= k,
            noise.len() == n,
            forall|x: int|
                0 <= x < n ==> within(#[trigger] noise[x], noise_bound(std_dev as int))
                    && body@[x] as int == tmod(noise[x] + glwe_mask_dot(mask@, 0, glwe_secret@, n as int, j as int, x)),
        decreases k - j,
    {
        proof {
            lemma_block(j as int, k as int, n as int);
            if j == 0 {
                assert forall|x: int| 0 <= x < n implies body@[x] as int == tmod(noise[x] + glwe_mask_dot(mask@, 0, glwe_secret@, n as int, 0, x)) by {
                    assert(noise[x] + glwe_mask_dot(mask@, 0, glwe_secret@, n as int, 0, x) == noise[x]);
                }
            }
        }
        let ghost before = body@;
        poly_mul_acc(&mut body, 0, &mask, j * n, glwe_secret, j * n, n);
        proof {
            assert forall|x: int| 0 <= x < n implies within(#[trigger] noise[x], noise_bound(std_dev as int))
                && body@[x] as int == tmod(noise[x] + glwe_mask_dot(mask@, 0, glwe_secret@, n as int, j + 1, x)) by {
                let d = glwe_mask_dot(mask@, 0, glwe_secret@, n as int, j as int, x);
                let m = mul_partial(mask@, j * n, glwe_secret@, j * n, n as int, n as int, x);
                assert(glwe_mask_dot(mask@, 0, glwe_secret@, n as int, j + 1, x) == d + m);
                lemma_cong_tmod(noise[x] + d);
                lemma_cong_tmod(before[x] + m);
                lemma_cong_add(before[x] as int, noise[x] + d, m, m);
                lemma_cong_tmod(noise[x] + d + m);
            }
        }
        j = j + 1;
    }
    let ghost mask_words = mask@;
    let mut c = mask;
    let mut t: usize = 0;
    while t < n
        invariant
            k * n + n == glwe_len,
            body@.len() == n,
            mask_words.len() == k * n,
            c@ == mask_words + body@.subrange(0, t as int),
            t <= n,
        decreases n - t,
    {
        c.push(body[t]);
        proof {
            assert(c@ =~= mask_words + body@.subrange(0, t + 1));
        }
        t = t + 1;
    }
    proof {
        assert forall|t: int| 0 <= t < n implies near(
            #[trigger] glwe_phase_coeff(c@, 0, glwe_secret@, k as int, n as int, t),
            0,
            noise_bound(std_dev as int),
        ) by {
            lemma_glwe_mask_dot_shift(c@, 0, mask_words, 0, glwe_secret@, n as int, k as int, t);
            let d = glwe_mask_dot(mask_words, 0, glwe_secret@, n as int, k as int, t);
            assert(c@[0 + k * n + t] == body@[t]);
            lemma_cong_tmod(noise[t] + d);
            lemma_cong_sub(body@[t] as int, noise[t] + d, d, d);
            lemma_cong_tmod(body@[t] - d);
            lemma_cong_tmod(noise[t]);
            assert(within(noise[t], noise_bound(std_dev as int)));
            assert(glwe_phase_coeff(c@, 0, glwe_secret@, k as int, n as int, t) == tmod(0 + noise[t]));
        }
    }
    Some(c)
}

/// Row `row` of a flat array of LWE ciphertexts of `size` words.
pub open spec fn lwe_row(keys: Seq<u32>, row: int, size: int) -> Seq<u32> {
    keys.subrange(row * size, row * size + size)
}

/// The message of keyswitch-key row `(i, j)`: `s'_i · 2^(32 − B(j+1))` modulo 2^32.
pub open spec fn ksk_message(big_secret: Seq<u32>, base_log: int, i: int, j: int) -> int {
    tmod(big_secret[i] * pow2((32 - base_log * (j + 1)) as nat))
}

/// Every row `(i, j)` of `ksk` encrypts `ksk_message(i, j)` under `small_secret`, with noise
/// within the bound of the LWE noise level of `params`.
pub open spec fn keyswitch_key_encrypts(
    ksk: Seq<u32>,
    params: GadgetParameters,
    big_secret: Seq<u32>,
    small_secret: Seq<u32>,
) -> bool {
    forall|i: int, j: int|
        0 <= i < params.glwe_dimension * params.polynomial_size && 0 <= j < params.ks_level
            ==> encrypts_near(
            #[trigger] lwe_row(ksk, i * params.ks_level + j, params.lwe_dimension + 1),
            small_secret,
            ksk_message(big_secret, params.ks_base_log as int, i, j),
            noise_bound(params.lwe_modular_std_dev as int),
        )
}

/// Generates the keyswitch key from the secret `big_secret` down to `small_secret`: for each
/// coefficient `s'_i` and level `j`, an LWE encryption of `s'_i · 2^(32 − B(j+1))`. `None`
/// when a generator is exhausted.
pub fn generate_keyswitch_key(
    params: &GadgetParameters,
    big_secret: &Vec<u32>,
    small_secret: &Vec<u32>,
    gen: &mut EncryptionRandomGenerator,
) -> (r: Option<Vec<u32>>)
    requires
        params.wf(),
        big_secret@.len() == params.glwe_dimension * params.polynomial_size,
        small_secret@.len() == params.lwe_dimension,
    ensures
        r matches Some(b) ==> b@.len() == params.ksk_len() && keyswitch_key_encrypts(
            b@,
            *params,
            big_secret@,
            small_secret@,
        ),
{
    proof {
        lemma_sizes(*params);
    }
    let big = params.glwe_dimension * params.polynomial_size;
    let levels = params.ks_level;
    let base_log = params.ks_base_log;
    let lwe_size = params.lwe_dimension + 1;
    let std_dev = params.lwe_modular_std_dev;
    let mut ksk: Vec<u32> = Vec::new();
    proof {
        assert(0 * levels * lwe_size == 0) by (nonlinear_arith);
    }
    let mut i: usize = 0;
    while i < big
        invariant
            params.wf(),
            big == params.glwe_dimension * params.polynomial_size,
            levels == params.ks_level,
            base_log == params.ks_base_log,
            lwe_size == params.lwe_dimension + 1,
            std_dev == params.lwe_modular_std_dev,
            params.ksk_len() == big * levels * lwe_size,
            big_secret@.len() == big,
            small_secret@.len() == params.lwe_dimension,
            i <= big,
            ksk@.len() == i * levels * lwe_size,
            forall|i2: int, j2: int|
                0 <= i2 < i && 0 <= j2 < levels ==> encrypts_near(
                    #[trigger] lwe_row(ksk@, i2 * levels + j2, lwe_size as int),
                    small_secret@,
                    ksk_message(big_secret@, base_log as int, i2, j2),
                    noise_bound(std_dev as int),
                ),
        decreases big - i,
    {
        proof {
            assert forall|i2: int, j2: int|
                0 <= i2 < big && 0 <= j2 < levels && i2 * levels + j2 < i * levels + 0
                    implies encrypts_near(
                    #[trigger] lwe_row(ksk@, i2 * levels + j2, lwe_size as int),
                    small_secret@,
                    ksk_message(big_secret@, base_log as int, i2, j2),
                    noise_bound(std_dev as int),
                ) by {
                assert(i2 < i) by (nonlinear_arith)
                    requires i2 * levels + j2 < i * levels, 0 <= j2 < levels, i2 >= 0, i >= 0;
            }
        }
        let mut j: usize = 0;
        while j < levels
            invariant
                params.wf(),
                big == params.glwe_dimension * params.polynomial_size,
                levels == params.ks_level,
                base_log == params.ks_base_log,
                lwe_size == params.lwe_dimension + 1,
                std_dev == params.lwe_modular_std_dev,
                params.ksk_len() == big * levels * lwe_size,
                big_secret@.len() == big,
                small_secret@.len() == params.lwe_dimension,
                i < big,
                j <= levels,
                ksk@.len() == i * levels * lwe_size + j * lwe_size,
                forall|i2: int, j2: int|
                    0 <= i2 < big && 0 <= j2 < levels && i2 * levels + j2 < i * levels + j
                        ==> encrypts_near(
                        #[trigger] lwe_row(ksk@, i2 * levels + j2, lwe_size as int),
                        small_secret@,
                        ksk_message(big_secret@, base_log as int, i2, j2),
                        noise_bound(std_dev as int),
                    ),
            decreases levels - j,
        {
            proof {
                assert(base_log * (j + 1) <= 32) by (nonlinear_arith)
                    requires j < levels, base_log * levels <= 32, base_log >= 1;
                assert(i * levels * lwe_size + j * lwe_size + lwe_size <= big * levels * lwe_size)
                    by (nonlinear_arith)
                    requires i < big, j < levels, lwe_size >= 1;
            }
            let g = pow2_u64(32 - base_log * (j + 1));
            proof {
                assert(base_log * (j + 1) >= 1) by (nonlinear_arith)
                    requires base_log >= 1, j >= 0;
            }
            assert(g <= 0x8000_0000);
            let pt = big_secret[i].wrapping_mul(g as u32);
            let row = match lwe_encrypt(small_secret, pt, std_dev, gen) {
                Some(row) => row,
                None => {
                    return None;
                },
            };
            let ghost prefix = ksk@;
            proof {
                assert(pt as int == ksk_message(big_secret@, base_log as int, i as int, j as int));
            }
            let mut t: usize = 0;
            while t < lwe_size
                invariant
                    row@.len() == lwe_size,
                    ksk@ == prefix + row@.subrange(0, t as int),
                    prefix.len() == i * levels * lwe_size + j * lwe_size,
                    ksk@.len() == i * levels * lwe_size + j * lwe_size + t,
                    i * levels * lwe_size + j * lwe_size + lwe_size <= big * levels * lwe_size,
                    params.ksk_len() == big * levels * lwe_size,
                    params.ksk_len() <= 0xffff_ffff,
                    t <= lwe_size,
                decreases lwe_size - t,
            {
                ksk.push(row[t]);
                proof {
                    assert(ksk@ =~= prefix + row@.subrange(0, t + 1));
                }
                t = t + 1;
            }
            proof {
                assert(j * lwe_size + lwe_size == (j + 1) * lwe_size) by (nonlinear_arith);
                assert(row@.subrange(0, lwe_size as int) =~= row@);
                let here = i * levels + j;
                assert(here * lwe_size == i * levels * lwe_size + j * lwe_size) by (nonlinear_arith)
                    requires here == i * levels + j;
                assert(lwe_row(ksk@, here as int, lwe_size as int) =~= row@);
                assert forall|i2: int, j2: int|
                    0 <= i2 < big && 0 <= j2 < levels && i2 * levels + j2 < i * levels + j + 1
                        implies encrypts_near(
                        #[trigger] lwe_row(ksk@, i2 * levels + j2, lwe_size as int),
                        small_secret@,
                        ksk_message(big_secret@, base_log as int, i2, j2),
                        noise_bound(std_dev as int),
                    ) by {
                    let r2 = i2 * levels + j2;
                    if r2 < here {
                        assert(r2 * lwe_size + lwe_size <= here * lwe_size) by (nonlinear_arith)
                            requires r2 < here, lwe_size >= 1;
                        assert(r2 * lwe_size >= 0) by (nonlinear_arith)
                            requires r2 >= 0, lwe_size >= 1;
                        assert(lwe_row(ksk@, r2, lwe_size as int) =~= lwe_row(prefix, r2, lwe_size as int));
                    } else {
                        assert(r2 == here);
                        assert(i2 == i && j2 == j) by (nonlinear_arith)
                            requires r2 == i2 * levels + j2, r2 == i * levels + j, 0 <= j2 < levels, 0 <= j < levels, i2 >= 0, i >= 0;
                    }
                }
            }
            j = j + 1;
        }
        proof {
            assert(i * levels * lwe_size + levels * lwe_size == (i + 1) * levels * lwe_size)
                by (nonlinear_arith);
            assert forall|i2: int, j2: int| 0 <= i2 < i + 1 && 0 <= j2 < levels implies encrypts_near(
                #[trigger] lwe_row(ksk@, i2 * levels + j2, lwe_size as int),
                small_secret@,
                ksk_message(big_secret@, base_log as int, i2, j2),
                noise_bound(std_dev as int),
            ) by {
                assert(i2 * levels + j2 < i * levels + levels) by (nonlinear_arith)
                    requires i2 < i + 1, j2 < levels, i2 >= 0;
            }
        }
        i = i + 1;
    }
    Some(ksk)
}

} // verus!
