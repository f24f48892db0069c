//! The programmable bootstrap (blind rotation of a test vector by an LWE ciphertext, then
//! extraction of the constant coefficient) and the LWE key switch.
//!
//! Key layout. The bootstrap key holds, for each coefficient `i` of the small LWE secret,
//! a GGSW ciphertext of `(k + 1)·ℓ` GLWE rows; with `g = 2^(32 − B(j+1))`, row `c·ℓ + j`
//! has phase `−s_i·g·S_c` for a mask component `c < k` and `s_i·g` for the body, plus noise
//! (see `ggsw_message`). The keyswitch key holds, for each coefficient `i` of the big secret
//! and level `j`, the LWE encryption of `s'_i · 2^(32 − B(j+1))`.

use crate::parameters::{lemma_sizes, GadgetParameters};
use crate::plaintext::{q, tmod};
use crate::lwe::{lemma_cong_add, lemma_cong_tmod};
use crate::poly::{
    decomp_digit, decompose, lemma_block, mul_partial, poly_mul_acc, poly_rotate, poly_zero,
    rotated_coeff, tmod_neg,
};
use vstd::prelude::*;

verus! {

/// Scratch space of a bootstrap, sized once for a parameter set and reused.
pub struct ComputationBuffers {
    pub acc: Vec<u32>,
    pub tmp: Vec<u32>,
    pub prod: Vec<u32>,
    pub digits: Vec<u32>,
    pub level_digits: Vec<u32>,
    pub ks_digits: Vec<u32>,
}

/// Rows of a GGSW ciphertext: `(k + 1)·ℓ`.
pub open spec fn ggsw_rows(params: GadgetParameters) -> int {
    (params.glwe_dimension + 1) * params.pbs_level
}

impl ComputationBuffers {
    /// Empty buffers.
    pub fn new() -> (r: ComputationBuffers)
        ensures
            r.is_empty(),
    {
        ComputationBuffers {
            acc: Vec::new(),
            tmp: Vec::new(),
            prod: Vec::new(),
            digits: Vec::new(),
            level_digits: Vec::new(),
            ks_digits: Vec::new(),
        }
    }

    /// No buffer has been sized yet.
    pub open spec fn is_empty(&self) -> bool {
        self.acc@.len() == 0
    }

    /// The buffers have the sizes that a bootstrap with `params` needs.
    pub open spec fn fits(&self, params: GadgetParameters) -> bool {
        &&& self.acc@.len() == params.glwe_len()
        &&& self.tmp@.len() == params.glwe_len()
        &&& self.prod@.len() == params.glwe_len()
        &&& self.digits@.len() == ggsw_rows(params) * params.polynomial_size
        &&& self.level_digits@.len() == params.pbs_level
        &&& self.ks_digits@.len() == params.ks_level
    }

    /// Sizes the buffers for `params`; buffers already of the right size are kept.
    pub fn resize(&mut self, params: &GadgetParameters)
        requires
            params.wf(),
        ensures
            final(self).fits(*params),
    {
        proof {
            lemma_sizes(*params);
        }
        let glwe_len = (params.glwe_dimension + 1) * params.polynomial_size;
        let digits_len = (params.glwe_dimension + 1) * params.pbs_level * params.polynomial_size;
        if self.acc.len() != glwe_len {
            self.acc = vec![0u32; glwe_len];
        }
        if self.tmp.len() != glwe_len {
            self.tmp = vec![0u32; glwe_len];
        }
        if self.prod.len() != glwe_len {
            self.prod = vec![0u32; glwe_len];
        }
        if self.digits.len() != digits_len {
            self.digits = vec![0u32; digits_len];
        }
        if self.level_digits.len() != params.pbs_level {
            self.level_digits = vec![0u32; params.pbs_level];
        }
        if self.ks_digits.len() != params.ks_level {
            self.ks_digits = vec![0u32; params.ks_level];
        }
    }
}

/// What `fits` says of the buffers that the extraction and the key switch use.
pub(crate) proof fn lemma_fits(bufs: &ComputationBuffers, params: GadgetParameters)
    requires
        bufs.fits(params),
    ensures
        bufs.acc@.len() == params.glwe_len(),
        bufs.ks_digits@.len() == params.ks_level,
{
}

/// Rounds a word to `ℤ_{2N}`: `round(x · 2N / 2^32) mod 2N`.
pub fn mod_switch(x: u32, two_n: usize) -> (r: usize)
    requires
        2 <= two_n <= 0x20000,
    ensures
        r < two_n,
        r as int == ((x * two_n + 0x8000_0000) / 0x1_0000_0000) % (two_n as int),
{
    proof {
        assert(x as int * two_n as int <= 0xffff_ffff * 0x20000) by (nonlinear_arith)
            requires x <= 0xffff_ffff, two_n <= 0x20000;
    }
    let scaled: u64 = ((x as u64) * (two_n as u64) + 0x8000_0000u64) / 0x1_0000_0000u64;
    (scaled % (two_n as u64)) as usize
}

/// `tmod(x) == x` for a word.
proof fn lemma_word_tmod(x: int)
    requires
        0 <= x < q(),
    ensures
        tmod(x) == x,
{
    vstd::arithmetic::div_mod::lemma_fundamental_div_mod_converse(x, q(), 0, x);
}

/// Index `r·n + t` with `t < n` has quotient `r` and remainder `t` by `n`.
proof fn lemma_index(r: int, n: int, t: int)
    requires
        0 <= t < n,
    ensures
        (r * n + t) / n == r,
        (r * n + t) % n == t,
{
    vstd::arithmetic::div_mod::lemma_fundamental_div_mod_converse(r * n + t, n, r, t);
}

/// Digit of row `r = c·ℓ + j` at coefficient `t` in an external product: level `j` of the
/// decomposition of coefficient `t` of component `c` of the GLWE input.
pub open spec fn ep_digit(params: GadgetParameters, input: Seq<u32>, r: int, t: int) -> u32 {
    let l = params.pbs_level as int;
    decomp_digit(
        input[(r / l) * params.polynomial_size + t],
        params.pbs_base_log as nat,
        l,
        r % l,
    )
}

/// All digits of an external product, row by row.
pub open spec fn ep_digits(params: GadgetParameters, input: Seq<u32>) -> Seq<u32> {
    let n = params.polynomial_size as int;
    Seq::new(
        (ggsw_rows(params) * n) as nat,
        |idx: int| ep_digit(params, input, idx / n, idx % n),
    )
}

/// Coefficient `t` of component `c2` of the sum over the first `r` GGSW rows of the digit
/// polynomial of the row times the row's component `c2`.
pub open spec fn ep_partial(
    params: GadgetParameters,
    bsk: Seq<u32>,
    g_off: int,
    digits: Seq<u32>,
    r: int,
    c2: int,
    t: int,
) -> int
    decreases r,
{
    let n = params.polynomial_size as int;
    if r <= 0 {
        0
    } else {
        ep_partial(params, bsk, g_off, digits, r - 1, c2, t) + mul_partial(
            digits,
            (r - 1) * n,
            bsk,
            g_off + (r - 1) * params.glwe_len() + c2 * n,
            n,
            n,
            t,
        )
    }
}

/// The external product of the GGSW ciphertext at `g_off` of `bsk` with the GLWE ciphertext
/// `input`, modulo 2^32.
pub open spec fn ext_prod_spec(params: GadgetParameters, bsk: Seq<u32>, g_off: int, input: Seq<u32>) -> Seq<u32> {
    let n = params.polynomial_size as int;
    Seq::new(
        params.glwe_len() as nat,
        |w: int|
            tmod(
                ep_partial(params, bsk, g_off, ep_digits(params, input), ggsw_rows(params), w / n, w % n),
            ) as u32,
    )
}

/// Computes the external product of the GGSW ciphertext at `g_off` of `bsk` with the GLWE
/// ciphertext `input`, into `out` (see `ext_prod_spec`).
fn external_product(
    params: &GadgetParameters,
    bsk: &Vec<u32>,
    g_off: usize,
    input: &Vec<u32>,
    out: &mut Vec<u32>,
    digits: &mut Vec<u32>,
    level_digits: &mut Vec<u32>,
)
    requires
        params.wf(),
        g_off + ggsw_rows(*params) * params.glwe_len() <= bsk@.len(),
        input@.len() == params.glwe_len(),
        old(out)@.len() == params.glwe_len(),
        old(digits)@.len() == ggsw_rows(*params) * params.polynomial_size,
        old(level_digits)@.len() == params.pbs_level,
    ensures
        final(out)@ == ext_prod_spec(*params, bsk@, g_off as int, input@),
        final(digits)@.len() == ggsw_rows(*params) * params.polynomial_size,
        final(level_digits)@.len() == params.pbs_level,
{
    proof {
        lemma_sizes(*params);
    }
    let n = params.polynomial_size;
    let comps = params.glwe_dimension + 1;
    let levels = params.pbs_level;
    let base_log = params.pbs_base_log;
    let glwe_len = comps * n;
    let rows = comps * levels;
    let bsk_len = bsk.len();
    let digits_len = digits.len();
    let ghost prm = *params;
    let mut c: usize = 0;
    while c < comps
        invariant
            params.wf(),
            prm == *params,
            n == params.polynomial_size,
            comps == params.glwe_dimension + 1,
            levels == params.pbs_level,
            base_log == params.pbs_base_log,
            glwe_len == comps * n,
            rows == comps * levels,
            input@.len() == glwe_len,
            digits@.len() == rows * n,
            digits@.len() == digits_len,
            level_digits@.len() == levels,
            c <= comps,
            forall|r: int, t: int|
                0 <= r < rows && 0 <= t < n && r / (levels as int) < c ==> digits@[r * n + t]
                    == #[trigger] ep_digit(prm, input@, r, t),
        decreases comps - c,
    {
        let mut t: usize = 0;
        while t < n
            invariant
                params.wf(),
                prm == *params,
                n == params.polynomial_size,
                comps == params.glwe_dimension + 1,
                levels == params.pbs_level,
                base_log == params.pbs_base_log,
                glwe_len == comps * n,
                rows == comps * levels,
                input@.len() == glwe_len,
                digits@.len() == rows * n,
                digits@.len() == digits_len,
                level_digits@.len() == levels,
                c < comps,
                t <= n,
                forall|r: int, t2: int|
                    0 <= r < rows && 0 <= t2 < n && (r / (levels as int) < c || (r / (levels as int)
                        == c && t2 < t)) ==> digits@[r * n + t2] == #[trigger] ep_digit(
                        prm,
                        input@,
                        r,
                        t2,
                    ),
            decreases n - t,
        {
            proof {
                lemma_block(c as int, comps as int, n as int);
            }
            decompose(input[c * n + t], base_log, levels, level_digits);
            let mut l: usize = 0;
            while l < levels
                invariant
                    prm == *params,
                    n == params.polynomial_size,
                    comps == params.glwe_dimension + 1,
                    levels == params.pbs_level,
                    base_log == params.pbs_base_log,
                    levels >= 1,
                    rows == comps * levels,
                    input@.len() == comps * n,
                    digits@.len() == rows * n,
                    digits@.len() == digits_len,
                    level_digits@.len() == levels,
                    c < comps,
                    t < n,
                    l <= levels,
                    forall|j: int|
                        0 <= j < levels ==> level_digits@[j] == #[trigger] decomp_digit(
                            input@[c * n + t],
                            base_log as nat,
                            levels as int,
                            j,
                        ),
                    forall|r: int, t2: int|
                        0 <= r < rows && 0 <= t2 < n && (r / (levels as int) < c || (r / (
                        levels as int) == c && t2 < t) || (r / (levels as int) == c && t2 == t
                            && r % (levels as int) < l)) ==> digits@[r * n + t2]
                            == #[trigger] ep_digit(prm, input@, r, t2),
                decreases levels - l,
            {
                proof {
                    assert(c * levels + l < rows) by (nonlinear_arith)
                        requires c < comps, l < levels, rows == comps * levels;
                    lemma_block((c * levels + l) as int, rows as int, n as int);
                }
                let row = c * levels + l;
                let ghost before = digits@;
                digits.set(row * n + t, level_digits[l]);
                proof {
                    lemma_index(c as int, levels as int, l as int);
                    assert(ep_digit(prm, input@, row as int, t as int) == level_digits@[l as int]);
                    assert forall|r: int, t2: int|
                        0 <= r < rows && 0 <= t2 < n && (r / (levels as int) < c || (r / (
                        levels as int) == c && t2 < t) || (r / (levels as int) == c && t2 == t
                            && r % (levels as int) < l + 1)) implies digits@[r * n + t2]
                            == #[trigger] ep_digit(prm, input@, r, t2) by {
                        lemma_index(r, n as int, t2);
                        lemma_index(row as int, n as int, t as int);
                        lemma_block(r, rows as int, n as int);
                        if r * n + t2 != row * n + t {
                            assert(digits@[r * n + t2] == before[r * n + t2]);
                        } else {
                            assert(r == row && t2 == t);
                        }
                        if r / (levels as int) == c && t2 == t && r % (levels as int) == l {
                            vstd::arithmetic::div_mod::lemma_fundamental_div_mod(r, levels as int);
                            assert(r == c * levels + l) by (nonlinear_arith)
                                requires
                                    r == levels * (r / (levels as int)) + r % (levels as int),
                                    r / (levels as int) == c,
                                    r % (levels as int) == l,
                            ;
                            assert(r == row);
                        }
                    }
                }
                l = l + 1;
            }
            t = t + 1;
        }
        c = c + 1;
    }
    let ghost dig = digits@;
    proof {
        assert forall|idx: int| 0 <= idx < rows * n implies digits@[idx] == ep_digits(prm, input@)[idx] by {
            vstd::arithmetic::div_mod::lemma_fundamental_div_mod(idx, n as int);
            let r = idx / (n as int);
            let t2 = idx % (n as int);
            assert(r * n + t2 == idx) by (nonlinear_arith)
                requires idx == n * (idx / (n as int)) + idx % (n as int), r == idx / (n as int), t2 == idx % (n as int);
            assert(0 <= r < rows) by (nonlinear_arith)
                requires r == idx / (n as int), 0 <= idx < rows * n, n > 0;
            assert(r / (levels as int) < comps) by (nonlinear_arith)
                requires r < comps * levels, levels >= 1, r >= 0;
            assert(digits@[r * n + t2] == ep_digit(prm, input@, r, t2));
        }
        assert(digits@ =~= ep_digits(prm, input@));
    }
    poly_zero(out, 0, glwe_len);
    proof {
        assert forall|c2: int, t: int| 0 <= c2 < comps && 0 <= t < n implies out@[c2 * n + t] as int
            == tmod(#[trigger] ep_partial(prm, bsk@, g_off as int, dig, 0, c2, t)) by {
            lemma_block(c2, comps as int, n as int);
            lemma_word_tmod(0);
        }
    }
    let mut r: usize = 0;
    while r < rows
        invariant
            params.wf(),
            prm == *params,
            n == params.polynomial_size,
            comps == params.glwe_dimension + 1,
            glwe_len == comps * n,
            glwe_len == params.glwe_len(),
            rows == ggsw_rows(*params),
            g_off + rows * glwe_len <= bsk@.len(),
            bsk@.len() == bsk_len,
            out@.len() == glwe_len,
            digits@.len() == rows * n,
            digits@ == dig,
            r <= rows,
            forall|c2: int, t: int|
                0 <= c2 < comps && 0 <= t < n ==> out@[c2 * n + t] as int == tmod(
                    #[trigger] ep_partial(prm, bsk@, g_off as int, dig, r as int, c2, t),
                ),
        decreases rows - r,
    {
        let mut c2: usize = 0;
        while c2 < comps
            invariant
                params.wf(),
                prm == *params,
                n == params.polynomial_size,
                comps == params.glwe_dimension + 1,
                rows == ggsw_rows(*params),
                glwe_len == comps * n,
                glwe_len == params.glwe_len(),
                g_off + rows * glwe_len <= bsk@.len(),
                bsk@.len() == bsk_len,
                out@.len() == glwe_len,
                digits@.len() == rows * n,
                digits@ == dig,
                r < rows,
                c2 <= comps,
                forall|c3: int, t: int|
                    0 <= c3 < c2 && 0 <= t < n ==> out@[c3 * n + t] as int == tmod(
                        #[trigger] ep_partial(prm, bsk@, g_off as int, dig, r + 1, c3, t),
                    ),
                forall|c3: int, t: int|
                    c2 <= c3 < comps && 0 <= t < n ==> out@[c3 * n + t] as int == tmod(
                        #[trigger] ep_partial(prm, bsk@, g_off as int, dig, r as int, c3, t),
                    ),
            decreases comps - c2,
        {
            proof {
                lemma_sizes(*params);
                lemma_block(r as int, rows as int, n as int);
                lemma_block(r as int, rows as int, glwe_len as int);
                lemma_block(c2 as int, comps as int, n as int);
            }
            let ghost before = out@;
            poly_mul_acc(out, c2 * n, digits, r * n, bsk, g_off + r * glwe_len + c2 * n, n);
            proof {
                assert forall|c3: int, t: int|
                    0 <= c3 < comps && 0 <= t < n implies #[trigger] out@[c3 * n + t] as int == tmod(
                        ep_partial(prm, bsk@, g_off as int, dig, r as int + (if c3 < c2 + 1 { 1int } else { 0int }), c3, t),
                    ) by {
                    lemma_index(c3, n as int, t);
                    lemma_block(c3, comps as int, n as int);
                    if c3 == c2 {
                        let x = ep_partial(prm, bsk@, g_off as int, dig, r as int, c3, t);
                        let m = mul_partial(dig, r * n, bsk@, g_off + r * glwe_len + c2 * n, n as int, n as int, t);
                        assert(ep_partial(prm, bsk@, g_off as int, dig, r + 1, c3, t) == x + m);
                        assert(out@[c2 * n + t] as int == tmod(before[c2 * n + t] + m));
                        lemma_cong_tmod(x);
                        lemma_cong_add(before[c2 * n + t] as int, x, m, m);
                        lemma_cong_tmod(before[c2 * n + t] + m);
                        lemma_cong_tmod(x + m);
                    } else {
                        if c3 < c2 {
                            assert(c3 * n + t < c2 * n) by (nonlinear_arith)
                                requires c3 < c2, t < n;
                        } else {
                            assert(c3 * n + t >= c2 * n + n) by (nonlinear_arith)
                                requires c3 > c2, t >= 0;
                        }
                        assert(out@[c3 * n + t] == before[c3 * n + t]);
                    }
                }
                assert forall|c3: int, t: int|
                    0 <= c3 < c2 + 1 && 0 <= t < n implies out@[c3 * n + t] as int == tmod(
                        #[trigger] ep_partial(prm, bsk@, g_off as int, dig, r + 1, c3, t),
                    ) by {
                    assert(out@[c3 * n + t] as int == tmod(
                        ep_partial(prm, bsk@, g_off as int, dig, r as int + (if c3 < c2 + 1 { 1int } else { 0int }), c3, t)));
                }
                assert forall|c3: int, t: int|
                    c2 + 1 <= c3 < comps && 0 <= t < n implies out@[c3 * n + t] as int == tmod(
                        #[trigger] ep_partial(prm, bsk@, g_off as int, dig, r as int, c3, t),
                    ) by {
                    assert(out@[c3 * n + t] as int == tmod(
                        ep_partial(prm, bsk@, g_off as int, dig, r as int + (if c3 < c2 + 1 { 1int } else { 0int }), c3, t)));
                }
            }
            c2 = c2 + 1;
        }
        proof {
            assert forall|c3: int, t: int|
                0 <= c3 < comps && 0 <= t < n implies out@[c3 * n + t] as int == tmod(
                    #[trigger] ep_partial(prm, bsk@, g_off as int, dig, r + 1, c3, t),
                ) by {
                assert(out@[c3 * n + t] as int == tmod(
                    ep_partial(prm, bsk@, g_off as int, dig, r as int + 1int, c3, t),
                ));
            }
        }
        r = r + 1;
    }
    proof {
        assert forall|w: int| 0 <= w < glwe_len implies out@[w] == ext_prod_spec(prm, bsk@, g_off as int, input@)[w] by {
            vstd::arithmetic::div_mod::lemma_fundamental_div_mod(w, n as int);
            let c3 = w / (n as int);
            let t = w % (n as int);
            assert(c3 * n + t == w) by (nonlinear_arith)
                requires w == n * (w / (n as int)) + w % (n as int), c3 == w / (n as int), t == w % (n as int);
            assert(0 <= c3 < comps) by (nonlinear_arith)
                requires c3 == w / (n as int), 0 <= w < comps * n, n > 0;
            assert(out@[c3 * n + t] as int == tmod(ep_partial(prm, bsk@, g_off as int, dig, rows as int, c3, t)));
            lemma_cong_tmod(ep_partial(prm, bsk@, g_off as int, dig, rows as int, c3, t));
        }
        assert(out@ =~= ext_prod_spec(prm, bsk@, g_off as int, input@));
    }
}

/// `X^r · src` for each of the `k + 1` components of a GLWE ciphertext.
pub open spec fn glwe_rotate_spec(params: GadgetParameters, src: Seq<u32>, r: int) -> Seq<u32> {
    let n = params.polynomial_size as int;
    Seq::new(params.glwe_len() as nat, |w: int| rotated_coeff(src, (w / n) * n, n, r, w % n) as u32)
}

/// A word rounded to `ℤ_{2N}`.
pub open spec fn ms_spec(x: u32, two_n: int) -> int {
    ((x * two_n + 0x8000_0000) / 0x1_0000_0000) % two_n
}

/// One step of the blind rotation with key row `i` and rotation `a`: nothing for `a = 0`,
/// else the accumulator plus the external product of GGSW `i` with `X^a · acc − acc`.
pub open spec fn cmux_spec(params: GadgetParameters, bsk: Seq<u32>, acc: Seq<u32>, i: int, a: int) -> Seq<u32> {
    if a == 0 {
        acc
    } else {
        let len = params.glwe_len();
        let rot = glwe_rotate_spec(params, acc, a);
        let diff = Seq::new(len as nat, |w: int| tmod(rot[w] - acc[w]) as u32);
        let prod = ext_prod_spec(params, bsk, i * (ggsw_rows(params) * len), diff);
        Seq::new(len as nat, |w: int| tmod(acc[w] + prod[w]) as u32)
    }
}

/// The accumulator after the first `i` steps of the blind rotation of the test vector at the
/// front of `lut` by the LWE ciphertext `lwe_in`.
pub open spec fn blind_rotate_spec(
    params: GadgetParameters,
    bsk: Seq<u32>,
    lwe_in: Seq<u32>,
    lut: Seq<u32>,
    i: int,
) -> Seq<u32>
    decreases i,
{
    let two_n = 2 * params.polynomial_size;
    if i <= 0 {
        glwe_rotate_spec(
            params,
            lut,
            (two_n - ms_spec(lwe_in[params.lwe_dimension as int], two_n)) % two_n,
        )
    } else {
        cmux_spec(
            params,
            bsk,
            blind_rotate_spec(params, bsk, lwe_in, lut, i - 1),
            i - 1,
            ms_spec(lwe_in[i - 1], two_n),
        )
    }
}

/// Rotates the `k + 1` components of `src` into `out`.
fn rotate_glwe(params: &GadgetParameters, out: &mut Vec<u32>, src: &Vec<u32>, r: usize)
    requires
        params.wf(),
        old(out)@.len() == params.glwe_len(),
        src@.len() >= params.glwe_len(),
        r < 2 * params.polynomial_size,
    ensures
        final(out)@ == glwe_rotate_spec(*params, src@, r as int),
{
    proof {
        lemma_sizes(*params);
    }
    let n = params.polynomial_size;
    let comps = params.glwe_dimension + 1;
    let ghost prm = *params;
    let mut c: usize = 0;
    while c < comps
        invariant
            params.wf(),
            prm == *params,
            n == params.polynomial_size,
            comps == params.glwe_dimension + 1,
            comps * n == params.glwe_len(),
            comps * n <= 9 * 65536,
            out@.len() == comps * n,
            src@.len() >= comps * n,
            r < 2 * n,
            c <= comps,
            forall|c3: int, t: int|
                0 <= c3 < c && 0 <= t < n ==> out@[c3 * n + t] as int == #[trigger] rotated_coeff(
                    src@,
                    c3 * n,
                    n as int,
                    r as int,
                    t,
                ),
        decreases comps - c,
    {
        proof {
            lemma_block(c as int, comps as int, n as int);
        }
        let ghost before = out@;
        poly_rotate(out, c * n, src, c * n, n, r);
        proof {
            assert forall|c3: int, t: int| 0 <= c3 < c + 1 && 0 <= t < n implies out@[c3 * n + t] as int
                == #[trigger] rotated_coeff(src@, c3 * n, n as int, r as int, t) by {
                if c3 < c {
                    assert(c3 * n + t < c * n) by (nonlinear_arith)
                        requires c3 < c, t < n;
                    assert(out@[c3 * n + t] == before[c3 * n + t]);
                }
            }
        }
        c = c + 1;
    }
    proof {
        assert forall|w: int| 0 <= w < comps * n implies out@[w] == glwe_rotate_spec(prm, src@, r as int)[w] by {
            vstd::arithmetic::div_mod::lemma_fundamental_div_mod(w, n as int);
            let c3 = w / (n as int);
            let t = w % (n as int);
            assert(c3 * n + t == w) by (nonlinear_arith)
                requires w == n * (w / (n as int)) + w % (n as int), c3 == w / (n as int), t == w % (n as int);
            assert(0 <= c3 < comps) by (nonlinear_arith)
                requires c3 == w / (n as int), 0 <= w < comps * n, n > 0;
            assert(out@[c3 * n + t] as int == rotated_coeff(src@, c3 * n, n as int, r as int, t));
        }
        assert(out@ =~= glwe_rotate_spec(prm, src@, r as int));
    }
}

/// Blind rotation: leaves in `bufs.acc` the GLWE ciphertext of the test vector at the front
/// of `lut` rotated by minus the phase of `lwe_in` rounded to `ℤ_{2N}` (see
/// `blind_rotate_spec`).
pub fn blind_rotate(
    params: &GadgetParameters,
    bsk: &Vec<u32>,
    lwe_in: &Vec<u32>,
    lut: &Vec<u32>,
    bufs: &mut ComputationBuffers,
)
    requires
        params.wf(),
        bsk@.len() == params.bsk_len(),
        lwe_in@.len() == params.lwe_dimension + 1,
        lut@.len() >= params.glwe_len(),
        old(bufs).fits(*params),
    ensures
        final(bufs).fits(*params),
        final(bufs).acc@ == blind_rotate_spec(
            *params,
            bsk@,
            lwe_in@,
            lut@,
            params.lwe_dimension as int,
        ),
{
    proof {
        lemma_sizes(*params);
    }
    let n = params.polynomial_size;
    let comps = params.glwe_dimension + 1;
    let glwe_len = comps * n;
    let rows = comps * params.pbs_level;
    let ggsw_len = rows * glwe_len;
    let lwe_dim = params.lwe_dimension;
    let two_n = 2 * n;
    let ghost prm = *params;
    proof {
        assert(params.bsk_len() == lwe_dim * ggsw_len) by (nonlinear_arith)
            requires
                params.bsk_len() == params.lwe_dimension * ggsw_rows(*params) * params.glwe_len(),
                ggsw_len == rows * glwe_len,
                rows == ggsw_rows(*params),
                glwe_len == params.glwe_len(),
                lwe_dim == params.lwe_dimension,
        ;
    }
    let b_tilde = mod_switch(lwe_in[lwe_dim], two_n);
    let rot0 = (two_n - b_tilde) % two_n;
    rotate_glwe(params, &mut bufs.acc, lut, rot0);
    let mut i: usize = 0;
    while i < lwe_dim
        invariant
            params.wf(),
            prm == *params,
            n == params.polynomial_size,
            two_n == 2 * n,
            comps == params.glwe_dimension + 1,
            glwe_len == comps * n,
            glwe_len == params.glwe_len(),
            rows == ggsw_rows(*params),
            ggsw_len == rows * glwe_len,
            lwe_dim == params.lwe_dimension,
            params.bsk_len() == lwe_dim * ggsw_len,
            bsk@.len() == params.bsk_len(),
            lwe_in@.len() == lwe_dim + 1,
            lut@.len() >= glwe_len,
            bufs.fits(*params),
            i <= lwe_dim,
            bufs.acc@ == blind_rotate_spec(prm, bsk@, lwe_in@, lut@, i as int),
        decreases lwe_dim - i,
    {
        let a_tilde = mod_switch(lwe_in[i], two_n);
        let ghost acc0 = bufs.acc@;
        if a_tilde != 0 {
            rotate_glwe(params, &mut bufs.tmp, &bufs.acc, a_tilde);
            let ghost rot = bufs.tmp@;
            let mut t: usize = 0;
            while t < glwe_len
                invariant
                    glwe_len == params.glwe_len(),
                    bufs.fits(*params),
                    bufs.acc@ == acc0,
                    rot.len() == glwe_len,
                    t <= glwe_len,
                    forall|w: int| 0 <= w < t ==> bufs.tmp@[w] as int == tmod(rot[w] - acc0[w]),
                    forall|w: int| t <= w < glwe_len ==> bufs.tmp@[w] == rot[w],
                decreases glwe_len - t,
            {
                proof {
                    lemma_word_tmod(rot[t as int] as int);
                    lemma_word_tmod(acc0[t as int] as int);
                    crate::poly::lemma_wrap_step(rot[t as int], rot[t as int] as int, acc0[t as int], acc0[t as int] as int, false);
                }
                let v = bufs.tmp[t].wrapping_sub(bufs.acc[t]);
                bufs.tmp.set(t, v);
                t = t + 1;
            }
            let ghost diff = Seq::new(glwe_len as nat, |w: int| tmod(rot[w] - acc0[w]) as u32);
            proof {
                assert forall|w: int| 0 <= w < glwe_len implies bufs.tmp@[w] == diff[w] by {
                }
                assert(bufs.tmp@ =~= diff);
                lemma_block(i as int, lwe_dim as int, ggsw_len as int);
            }
            external_product(
                params,
                bsk,
                i * ggsw_len,
                &bufs.tmp,
                &mut bufs.prod,
                &mut bufs.digits,
                &mut bufs.level_digits,
            );
            let ghost prod = bufs.prod@;
            let mut t: usize = 0;
            while t < glwe_len
                invariant
                    glwe_len == params.glwe_len(),
                    bufs.fits(*params),
                    bufs.prod@ == prod,
                    prod.len() == glwe_len,
                    acc0.len() == glwe_len,
                    t <= glwe_len,
                    forall|w: int| 0 <= w < t ==> bufs.acc@[w] as int == tmod(acc0[w] + prod[w]),
                    forall|w: int| t <= w < glwe_len ==> bufs.acc@[w] == acc0[w],
                decreases glwe_len - t,
            {
                proof {
                    lemma_word_tmod(acc0[t as int] as int);
                    lemma_word_tmod(prod[t as int] as int);
                    crate::poly::lemma_wrap_step(acc0[t as int], acc0[t as int] as int, prod[t as int], prod[t as int] as int, true);
                }
                let v = bufs.acc[t].wrapping_add(bufs.prod[t]);
                bufs.acc.set(t, v);
                t = t + 1;
            }
            proof {
                let expected = cmux_spec(prm, bsk@, acc0, i as int, a_tilde as int);
                assert(i * ggsw_len == i * (ggsw_rows(prm) * prm.glwe_len()));
                assert forall|w: int| 0 <= w < glwe_len implies bufs.acc@[w] == expected[w] by {
                }
                assert(bufs.acc@ =~= expected);
            }
        }
        i = i + 1;
    }
}

/// Word `idx` of the LWE ciphertext extracted from the constant coefficient of the GLWE
/// ciphertext `acc` (`k` mask polynomials of `n` coefficients, then the body): for mask
/// polynomial `c`, coefficient 0 as it is and coefficient `t > 0` as `−acc[c·n + n − t]`; the
/// body is the body's constant coefficient.
pub open spec fn extracted_word(acc: Seq<u32>, n: int, k: int, idx: int) -> int {
    if idx == k * n {
        acc[k * n] as int
    } else if idx % n == 0 {
        acc[idx] as int
    } else {
        tmod_neg(acc[(idx / n) * n + n - idx % n] as int)
    }
}

/// Writes into `out[oo .. oo + kN + 1)` the LWE ciphertext, under the GLWE secret read as
/// an LWE secret of `kN` coefficients, of the constant coefficient of the GLWE ciphertext
/// `acc`.
pub fn sample_extract(params: &GadgetParameters, acc: &Vec<u32>, out: &mut Vec<u32>, oo: usize)
    requires
        params.wf(),
        acc@.len() == params.glwe_len(),
        oo + params.glwe_dimension * params.polynomial_size + 1 <= old(out)@.len(),
    ensures
        final(out)@.len() == old(out)@.len(),
        forall|idx: int|
            0 <= idx <= params.glwe_dimension * params.polynomial_size ==> final(out)@[oo + idx]
                as int == #[trigger] extracted_word(
                acc@,
                params.polynomial_size as int,
                params.glwe_dimension as int,
                idx,
            ),
{
    let n = params.polynomial_size;
    let k = params.glwe_dimension;
    let olen = out.len();
    proof {
        lemma_sizes(*params);
    }
    let mut c: usize = 0;
    while c < k
        invariant
            params.wf(),
            n == params.polynomial_size,
            k == params.glwe_dimension,
            acc@.len() == (k + 1) * n,
            k * n + n == (k + 1) * n,
            oo + k * n + 1 <= out@.len(),
            out@.len() == olen,
            c <= k,
            n >= 2,
            forall|idx: int|
                0 <= idx < c * n ==> out@[oo + idx] as int == #[trigger] extracted_word(
                    acc@,
                    n as int,
                    k as int,
                    idx,
                ),
        decreases k - c,
    {
        proof {
            lemma_block(c as int, k as int, n as int);
        }
        let base = c * n;
        out.set(oo + base, acc[base]);
        proof {
            vstd::arithmetic::div_mod::lemma_fundamental_div_mod_converse(base as int, n as int, c as int, 0);
            assert(base < k * n);
            assert(extracted_word(acc@, n as int, k as int, base as int) == acc@[base as int]);
        }
        let mut t: usize = 1;
        while t < n
            invariant
                n == params.polynomial_size,
                acc@.len() == (k + 1) * n,
                k * n + n == (k + 1) * n,
                oo + k * n + 1 <= out@.len(),
                out@.len() == olen,
                base == c * n,
                base + n <= k * n,
                c < k,
                n >= 2,
                1 <= t <= n,
                forall|idx: int|
                    0 <= idx < base + t ==> out@[oo + idx] as int == #[trigger] extracted_word(
                        acc@,
                        n as int,
                        k as int,
                        idx,
                    ),
            decreases n - t,
        {
            let v = 0u32.wrapping_sub(acc[base + n - t]);
            let ghost before = out@;
            out.set(oo + base + t, v);
            proof {
                let idx = base + t;
                vstd::arithmetic::div_mod::lemma_fundamental_div_mod_converse(idx as int, n as int, c as int, t as int);
                assert(idx < k * n);
                assert(extracted_word(acc@, n as int, k as int, idx as int) == tmod_neg(
                    acc@[base + n - t] as int,
                ));
                assert forall|u: int| 0 <= u < base + t + 1 implies out@[oo + u] as int
                    == #[trigger] extracted_word(acc@, n as int, k as int, u) by {
                    if u < base + t {
                        assert(out@[oo + u] == before[oo + u]);
                    }
                }
            }
            t = t + 1;
        }
        proof {
            assert(base + n == (c + 1) * n) by (nonlinear_arith)
                requires base == c * n;
        }
        c = c + 1;
    }
    let ghost before = out@;
    out.set(oo + k * n, acc[k * n]);
    proof {
        assert forall|idx: int| 0 <= idx <= k * n implies out@[oo + idx] as int
            == #[trigger] extracted_word(acc@, n as int, k as int, idx) by {
            if idx < k * n {
                assert(out@[oo + idx] == before[oo + idx]);
            }
        }
    }
}

/// Digit `q` of a key switch, `q = i·ℓ + j`: level `j` of the decomposition of word `i` of
/// the input ciphertext at `io`.
pub open spec fn ks_digit(params: GadgetParameters, input: Seq<u32>, io: int, q: int) -> u32 {
    decomp_digit(
        input[io + q / params.ks_level as int],
        params.ks_base_log as nat,
        params.ks_level as int,
        q % params.ks_level as int,
    )
}

/// `Σ_{q' < q} digit_q' · ksk[q'·(n + 1) + t]`: word `t` of the first `q` keyswitch rows
/// scaled by their digits.
pub open spec fn ks_acc(params: GadgetParameters, ksk: Seq<u32>, input: Seq<u32>, io: int, q: int, t: int) -> int
    decreases q,
{
    if q <= 0 {
        0
    } else {
        ks_acc(params, ksk, input, io, q - 1, t) + ks_digit(params, input, io, q - 1) * ksk[(q - 1)
            * (params.lwe_dimension + 1) + t]
    }
}

/// The key switch of the ciphertext of `kN + 1` words at `io` of `input`: the trivial
/// ciphertext of its body minus each keyswitch row times its digit, modulo 2^32.
pub open spec fn keyswitch_spec(params: GadgetParameters, ksk: Seq<u32>, input: Seq<u32>, io: int) -> Seq<u32> {
    let n = params.lwe_dimension as int;
    let rows = params.glwe_dimension * params.polynomial_size * params.ks_level;
    Seq::new(
        (n + 1) as nat,
        |t: int|
            tmod(
                (if t == n {
                    input[io + params.glwe_dimension * params.polynomial_size] as int
                } else {
                    0
                }) - ks_acc(params, ksk, input, io, rows, t),
            ) as u32,
    )
}

/// The key switch reads only the `kN + 1` words of its input ciphertext.
pub proof fn lemma_keyswitch_shift(
    params: GadgetParameters,
    ksk: Seq<u32>,
    in1: Seq<u32>,
    io1: int,
    in2: Seq<u32>,
    io2: int,
)
    requires
        params.wf(),
        forall|x: int|
            0 <= x <= params.glwe_dimension * params.polynomial_size ==> #[trigger] in1[io1 + x]
                == in2[io2 + x],
    ensures
        keyswitch_spec(params, ksk, in1, io1) == keyswitch_spec(params, ksk, in2, io2),
{
    lemma_sizes(params);
    let big = params.glwe_dimension * params.polynomial_size;
    let rows = big * params.ks_level;
    assert forall|t: int| 0 <= t <= params.lwe_dimension implies ks_acc(params, ksk, in1, io1, rows, t)
        == ks_acc(params, ksk, in2, io2, rows, t) by {
        lemma_ks_acc_shift(params, ksk, in1, io1, in2, io2, rows, t);
    }
    assert(in1[io1 + big] == in2[io2 + big]);
    assert(keyswitch_spec(params, ksk, in1, io1) =~= keyswitch_spec(params, ksk, in2, io2));
}

proof fn lemma_ks_acc_shift(
    params: GadgetParameters,
    ksk: Seq<u32>,
    in1: Seq<u32>,
    io1: int,
    in2: Seq<u32>,
    io2: int,
    q: int,
    t: int,
)
    requires
        params.wf(),
        0 <= q <= params.glwe_dimension * params.polynomial_size * params.ks_level,
        forall|x: int|
            0 <= x <= params.glwe_dimension * params.polynomial_size ==> #[trigger] in1[io1 + x]
                == in2[io2 + x],
    ensures
        ks_acc(params, ksk, in1, io1, q, t) == ks_acc(params, ksk, in2, io2, q, t),
    decreases q,
{
    if q > 0 {
        lemma_ks_acc_shift(params, ksk, in1, io1, in2, io2, q - 1, t);
        let l = params.ks_level as int;
        let w = (q - 1) / l;
        assert(0 <= w < params.glwe_dimension * params.polynomial_size) by (nonlinear_arith)
            requires
                w == (q - 1) / l,
                0 <= q - 1 < params.glwe_dimension * params.polynomial_size * l,
                l >= 1,
        ;
        assert(in1[io1 + w] == in2[io2 + w]);
    }
}

/// Key switch: writes into `out` (`n + 1` words) the LWE ciphertext under the small secret
/// of the ciphertext of `kN + 1` words at `io` of `input`, which is under the big secret
/// (see `keyswitch_spec`).
pub fn keyswitch(
    params: &GadgetParameters,
    ksk: &Vec<u32>,
    input: &Vec<u32>,
    io: usize,
    out: &mut Vec<u32>,
    ks_digits: &mut Vec<u32>,
)
    requires
        params.wf(),
        ksk@.len() == params.ksk_len(),
        io + params.glwe_dimension * params.polynomial_size + 1 <= input@.len(),
        old(out)@.len() == params.lwe_dimension + 1,
        old(ks_digits)@.len() == params.ks_level,
    ensures
        final(out)@ == keyswitch_spec(*params, ksk@, input@, io as int),
        final(ks_digits)@.len() == params.ks_level,
{
    proof {
        lemma_sizes(*params);
    }
    let lwe_size = params.lwe_dimension + 1;
    let big = params.glwe_dimension * params.polynomial_size;
    let levels = params.ks_level;
    let base_log = params.ks_base_log;
    let ilen = input.len();
    let klen = ksk.len();
    poly_zero(out, 0, lwe_size);
    out.set(lwe_size - 1, input[io + big]);
    let ghost init = |t: int| if t == lwe_size - 1 { input@[io + big] as int } else { 0int };
    let ghost prm = *params;
    proof {
        assert forall|t: int| 0 <= t < lwe_size implies out@[t] as int == tmod(
            init(t) - ks_acc(prm, ksk@, input@, io as int, 0, t),
        ) by {
            assert(tmod(init(t)) == init(t)) by {
                vstd::arithmetic::div_mod::lemma_fundamental_div_mod_converse(init(t), q(), 0, init(t));
            }
        }
    }
    let mut i: usize = 0;
    while i < big
        invariant
            params.wf(),
            prm == *params,
            lwe_size == params.lwe_dimension + 1,
            big == params.glwe_dimension * params.polynomial_size,
            levels == params.ks_level,
            base_log == params.ks_base_log,
            ksk@.len() == params.ksk_len(),
            params.ksk_len() == big * levels * lwe_size,
            ksk@.len() == klen,
            io + big + 1 <= input@.len(),
            input@.len() == ilen,
            out@.len() == lwe_size,
            ks_digits@.len() == levels,
            i <= big,
            forall|t: int|
                0 <= t < lwe_size ==> out@[t] as int == tmod(
                    init(t) - #[trigger] ks_acc(prm, ksk@, input@, io as int, i * levels, t),
                ),
        decreases big - i,
    {
        decompose(input[io + i], base_log, levels, ks_digits);
        let mut l: usize = 0;
        while l < levels
            invariant
                params.wf(),
                prm == *params,
                lwe_size == params.lwe_dimension + 1,
                big == params.glwe_dimension * params.polynomial_size,
                levels == params.ks_level,
                base_log == params.ks_base_log,
                ksk@.len() == big * levels * lwe_size,
                ksk@.len() == klen,
                lwe_size >= 1,
                io + big + 1 <= input@.len(),
                out@.len() == lwe_size,
                ks_digits@.len() == levels,
                i < big,
                l <= levels,
                forall|j: int|
                    0 <= j < levels ==> ks_digits@[j] == #[trigger] decomp_digit(
                        input@[io + i],
                        base_log as nat,
                        levels as int,
                        j,
                    ),
                forall|t: int|
                    0 <= t < lwe_size ==> out@[t] as int == tmod(
                        init(t) - #[trigger] ks_acc(prm, ksk@, input@, io as int, i * levels + l, t),
                    ),
            decreases levels - l,
        {
            let d = ks_digits[l];
            let ghost qq = i * levels + l;
            proof {
                assert(i * levels + l < big * levels) by (nonlinear_arith)
                    requires i < big, l < levels;
                assert(0 <= i * levels) by (nonlinear_arith)
                    requires i >= 0, levels >= 0;
                vstd::arithmetic::div_mod::lemma_fundamental_div_mod_converse(qq, levels as int, i as int, l as int);
                assert(ks_digit(prm, input@, io as int, qq) == d);
            }
            if d != 0 {
                proof {
                    assert(big * levels <= klen) by (nonlinear_arith)
                        requires klen == big * levels * lwe_size, lwe_size >= 1, big * levels >= 0;
                    lemma_block((i * levels + l) as int, (big * levels) as int, lwe_size as int);
                }
                let row_off = (i * levels + l) * lwe_size;
                let mut t: usize = 0;
                while t < lwe_size
                    invariant
                        ksk@.len() == big * levels * lwe_size,
                        ksk@.len() == klen,
                        row_off + lwe_size <= ksk@.len(),
                        row_off == qq * lwe_size,
                        prm == *params,
                        lwe_size == params.lwe_dimension + 1,
                        out@.len() == lwe_size,
                        t <= lwe_size,
                        d == ks_digit(prm, input@, io as int, qq),
                        qq >= 0,
                        forall|u: int|
                            0 <= u < t ==> out@[u] as int == tmod(
                                init(u) - #[trigger] ks_acc(prm, ksk@, input@, io as int, qq + 1, u),
                            ),
                        forall|u: int|
                            t <= u < lwe_size ==> out@[u] as int == tmod(
                                init(u) - #[trigger] ks_acc(prm, ksk@, input@, io as int, qq, u),
                            ),
                    decreases lwe_size - t,
                {
                    let m = d.wrapping_mul(ksk[row_off + t]);
                    let ghost before = out@;
                    proof {
                        assert(ks_acc(prm, ksk@, input@, io as int, qq + 1, t as int) == ks_acc(prm, ksk@, input@, io as int, qq, t as int) + d * ksk@[row_off + t]);
                        assert(before[t as int] as int == tmod(init(t as int) - ks_acc(prm, ksk@, input@, io as int, qq, t as int)));
                        crate::poly::lemma_wrap_step(before[t as int], init(t as int) - ks_acc(prm, ksk@, input@, io as int, qq, t as int), m, d * ksk@[row_off + t], false);
                    }
                    let v = out[t].wrapping_sub(m);
                    out.set(t, v);
                    proof {
                        assert forall|u: int| 0 <= u < t + 1 implies out@[u] as int == tmod(
                            init(u) - #[trigger] ks_acc(prm, ksk@, input@, io as int, qq + 1, u),
                        ) by {
                            if u != t {
                                assert(out@[u] == before[u]);
                            }
                        }
                        assert forall|u: int| t + 1 <= u < lwe_size implies out@[u] as int == tmod(
                            init(u) - #[trigger] ks_acc(prm, ksk@, input@, io as int, qq, u),
                        ) by {
                            assert(out@[u] == before[u]);
                        }
                    }
                    t = t + 1;
                }
            } else {
                proof {
                    assert forall|u: int| 0 <= u < lwe_size implies out@[u] as int == tmod(
                        init(u) - #[trigger] ks_acc(prm, ksk@, input@, io as int, qq + 1, u),
                    ) by {
                        assert(ks_acc(prm, ksk@, input@, io as int, qq + 1, u) == ks_acc(prm, ksk@, input@, io as int, qq, u) + d * ksk@[qq * lwe_size + u]);
                    }
                }
            }
            proof {
                assert forall|u: int| 0 <= u < lwe_size implies out@[u] as int == tmod(
                    init(u) - #[trigger] ks_acc(prm, ksk@, input@, io as int, i * levels + (l + 1), u),
                ) by {
                    assert(i * levels + (l + 1) == qq + 1);
                    assert(out@[u] as int == tmod(init(u) - ks_acc(prm, ksk@, input@, io as int, qq + 1, u)));
                }
            }
            l = l + 1;
        }
        proof {
            assert(i * levels + levels == (i + 1) * levels) by (nonlinear_arith);
        }
        i = i + 1;
    }
    proof {
        assert(big * levels == params.glwe_dimension * params.polynomial_size * params.ks_level);
        assert forall|t: int| 0 <= t < lwe_size implies out@[t] == keyswitch_spec(prm, ksk@, input@, io as int)[t] by {
        }
        assert(out@ =~= keyswitch_spec(prm, ksk@, input@, io as int));
    }
}

} // verus!
