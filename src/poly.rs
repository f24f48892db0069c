//! Polynomials of ℤ_{2^32}[X]/(X^N + 1) stored at an offset of a flat word buffer, and the
//! signed gadget decomposition of words.

use vstd::arithmetic::power2::{lemma2_to64, lemma_pow2_strictly_increases, lemma_pow2_unfold, pow2};
use crate::lwe::{lemma_cong_add, lemma_cong_sub, lemma_cong_tmod};
use crate::plaintext::{q, tmod};
use vstd::prelude::*;

verus! {

/// Block `i` of `count` blocks of `size` words lies inside them.
pub proof fn lemma_block(i: int, count: int, size: int)
    requires
        0 <= i < count,
        0 <= size,
    ensures
        0 <= i * size,
        i * size + size <= count * size,
{
    assert(0 <= i * size) by (nonlinear_arith)
        requires 0 <= i, 0 <= size;
    assert(i * size + size <= count * size) by (nonlinear_arith)
        requires i + 1 <= count, 0 <= size;
}

/// `2^e` for `e ≤ 32`.
pub fn pow2_u64(e: usize) -> (r: u64)
    requires
        e <= 32,
    ensures
        r == pow2(e as nat),
        1 <= r <= 0x1_0000_0000,
        e >= 1 ==> r >= 2,
        e <= 31 ==> r <= 0x8000_0000,
{
    proof {
        lemma2_to64();
    }
    let mut r: u64 = 1;
    let mut i: usize = 0;
    while i < e
        invariant
            i <= e <= 32,
            r == pow2(i as nat),
            pow2(32) == 0x1_0000_0000,
        decreases e - i,
    {
        proof {
            lemma_pow2_unfold((i + 1) as nat);
            lemma_pow2_strictly_increases(i as nat, 32);
        }
        r = r * 2;
        i = i + 1;
    }
    proof {
        vstd::arithmetic::power2::lemma_pow2_pos(e as nat);
        if e < 32 {
            lemma_pow2_strictly_increases(e as nat, 32);
        }
        if e < 31 {
            lemma_pow2_strictly_increases(e as nat, 31);
        }
        if e >= 1 {
            lemma_pow2_strictly_increases(0, e as nat);
        }
    }
    r
}

/// Sets `out[oo .. oo + n)` to zero.
pub fn poly_zero(out: &mut Vec<u32>, oo: usize, n: usize)
    requires
        oo + n <= old(out)@.len(),
    ensures
        final(out)@.len() == old(out)@.len(),
        forall|j: int| oo <= j < oo + n ==> final(out)@[j] == 0,
        forall|j: int| 0 <= j < old(out)@.len() && !(oo <= j < oo + n) ==> final(out)@[j] == old(out)@[j],
{
    let olen = out.len();
    let mut j: usize = 0;
    while j < n
        invariant
            oo + n <= out@.len(),
            out@.len() == old(out)@.len(),
            out@.len() == olen,
            j <= n,
            forall|t: int| oo <= t < oo + j ==> out@[t] == 0,
            forall|t: int| 0 <= t < old(out)@.len() && !(oo <= t < oo + j) ==> out@[t] == old(out)@[t],
        decreases n - j,
    {
        out.set(oo + j, 0);
        j = j + 1;
    }
}

/// What coefficient `i` of `a` adds to coefficient `t` of the negacyclic product `a · b`:
/// `a_i · b_{t−i}`, negated when `t − i` wraps below zero.
pub open spec fn mul_term(a: Seq<u32>, ao: int, b: Seq<u32>, bo: int, n: int, i: int, t: int) -> int {
    if t >= i {
        a[ao + i] * b[bo + t - i]
    } else {
        -(a[ao + i] * b[bo + t - i + n])
    }
}

/// `Σ_{i' < i} mul_term(i', t)`: coefficient `t` of the product of the first `i`
/// coefficients of `a` with `b`.
pub open spec fn mul_partial(a: Seq<u32>, ao: int, b: Seq<u32>, bo: int, n: int, i: int, t: int) -> int
    decreases i,
{
    if i <= 0 {
        0
    } else {
        mul_partial(a, ao, b, bo, n, i - 1, t) + mul_term(a, ao, b, bo, n, i - 1, t)
    }
}

/// A wrapping add or subtract of a wrapped product keeps a running sum modulo 2^32.
pub proof fn lemma_wrap_step(cur: u32, x: int, m: u32, prod: int, add: bool)
    requires
        cur as int == tmod(x),
        m as int == tmod(prod),
    ensures
        add ==> cur.wrapping_add(m) as int == tmod(x + prod),
        !add ==> cur.wrapping_sub(m) as int == tmod(x - prod),
{
    lemma_cong_tmod(x);
    lemma_cong_tmod(prod);
    if add {
        let y = cur as int + m as int;
        if y >= q() {
            vstd::arithmetic::div_mod::lemma_fundamental_div_mod_converse(y, q(), 1, y - q());
        } else {
            vstd::arithmetic::div_mod::lemma_fundamental_div_mod_converse(y, q(), 0, y);
        }
        lemma_cong_add(cur as int, x, m as int, prod);
        lemma_cong_tmod(y);
    } else {
        let y = cur as int - m as int;
        if y < 0 {
            vstd::arithmetic::div_mod::lemma_fundamental_div_mod_converse(y, q(), -1, y + q());
        } else {
            vstd::arithmetic::div_mod::lemma_fundamental_div_mod_converse(y, q(), 0, y);
        }
        lemma_cong_sub(cur as int, x, m as int, prod);
        lemma_cong_tmod(y);
    }
}

/// Adds the negacyclic product `a · b` into `out[oo .. oo + n)`, where `a` and `b` are the
/// polynomials of `n` coefficients at `ao` and `bo`.
pub fn poly_mul_acc(
    out: &mut Vec<u32>,
    oo: usize,
    a: &Vec<u32>,
    ao: usize,
    b: &Vec<u32>,
    bo: usize,
    n: usize,
)
    requires
        oo + n <= old(out)@.len(),
        ao + n <= a@.len(),
        bo + n <= b@.len(),
    ensures
        final(out)@.len() == old(out)@.len(),
        forall|t: int|
            0 <= t < n ==> final(out)@[oo + t] as int == tmod(
                old(out)@[oo + t] + #[trigger] mul_partial(
                    a@,
                    ao as int,
                    b@,
                    bo as int,
                    n as int,
                    n as int,
                    t,
                ),
            ),
        forall|k: int|
            0 <= k < old(out)@.len() && !(oo <= k < oo + n) ==> final(out)@[k] == old(out)@[k],
{
    let olen = out.len();
    let alen = a.len();
    let blen = b.len();
    let mut i: usize = 0;
    while i < n
        invariant
            oo + n <= out@.len(),
            ao + n <= a@.len(),
            bo + n <= b@.len(),
            out@.len() == old(out)@.len(),
            out@.len() == olen,
            a@.len() == alen,
            b@.len() == blen,
            i <= n,
            forall|t: int|
                0 <= t < n ==> out@[oo + t] as int == tmod(
                    old(out)@[oo + t] + #[trigger] mul_partial(
                        a@,
                        ao as int,
                        b@,
                        bo as int,
                        n as int,
                        i as int,
                        t,
                    ),
                ),
            forall|k: int|
                0 <= k < old(out)@.len() && !(oo <= k < oo + n) ==> out@[k] == old(out)@[k],
        decreases n - i,
    {
        let ai = a[ao + i];
        let ghost start = out@;
        if ai != 0 {
            let mut j: usize = 0;
            while j < n - i
                invariant
                    oo + n <= out@.len(),
                    bo + n <= b@.len(),
                    out@.len() == old(out)@.len(),
                    out@.len() == olen,
                    b@.len() == blen,
                    ao + n <= a@.len(),
                    ai == a@[ao + i],
                    i < n,
                    j <= n - i,
                    forall|t: int|
                        0 <= t < n ==> out@[oo + t] as int == tmod(
                            old(out)@[oo + t] + #[trigger] mul_partial(
                                a@,
                                ao as int,
                                b@,
                                bo as int,
                                n as int,
                                i as int,
                                t,
                            ) + if i <= t < i + j {
                                mul_term(a@, ao as int, b@, bo as int, n as int, i as int, t)
                            } else {
                                0
                            },
                        ),
                    forall|k: int|
                        0 <= k < old(out)@.len() && !(oo <= k < oo + n) ==> out@[k] == old(out)@[k],
                decreases n - i - j,
            {
                let idx = oo + i + j;
                let m = ai.wrapping_mul(b[bo + j]);
                let ghost before = out@;
                let v = out[idx].wrapping_add(m);
                proof {
                    let t = (i + j) as int;
                    let x = old(out)@[oo + t] + mul_partial(a@, ao as int, b@, bo as int, n as int, i as int, t);
                    assert(before[idx as int] as int == tmod(x));
                    lemma_wrap_step(before[idx as int], x, m, ai * b@[bo + j], true);
                    assert(mul_term(a@, ao as int, b@, bo as int, n as int, i as int, t) == ai * b@[bo + j]);
                }
                out.set(idx, v);
                proof {
                    assert forall|t: int| 0 <= t < n implies out@[oo + t] as int == tmod(
                        old(out)@[oo + t] + #[trigger] mul_partial(
                            a@,
                            ao as int,
                            b@,
                            bo as int,
                            n as int,
                            i as int,
                            t,
                        ) + if i <= t < i + j + 1 {
                            mul_term(a@, ao as int, b@, bo as int, n as int, i as int, t)
                        } else {
                            0
                        },
                    ) by {
                        if t != i + j {
                            assert(out@[oo + t] == before[oo + t]);
                        }
                    }
                }
                j = j + 1;
            }
            while j < n
                invariant
                    oo + n <= out@.len(),
                    bo + n <= b@.len(),
                    out@.len() == old(out)@.len(),
                    out@.len() == olen,
                    b@.len() == blen,
                    ao + n <= a@.len(),
                    ai == a@[ao + i],
                    i < n,
                    n - i <= j <= n,
                    forall|t: int|
                        0 <= t < n ==> out@[oo + t] as int == tmod(
                            old(out)@[oo + t] + #[trigger] mul_partial(
                                a@,
                                ao as int,
                                b@,
                                bo as int,
                                n as int,
                                i as int,
                                t,
                            ) + if i <= t || t < j - (n - i) {
                                mul_term(a@, ao as int, b@, bo as int, n as int, i as int, t)
                            } else {
                                0
                            },
                        ),
                    forall|k: int|
                        0 <= k < old(out)@.len() && !(oo <= k < oo + n) ==> out@[k] == old(out)@[k],
                decreases n - j,
            {
                let idx = oo + (j - (n - i));
                let m = ai.wrapping_mul(b[bo + j]);
                let ghost before = out@;
                let v = out[idx].wrapping_sub(m);
                proof {
                    let t = (j - (n - i)) as int;
                    let x = old(out)@[oo + t] + mul_partial(a@, ao as int, b@, bo as int, n as int, i as int, t);
                    assert(before[idx as int] as int == tmod(x));
                    lemma_wrap_step(before[idx as int], x, m, ai * b@[bo + j], false);
                    assert(mul_term(a@, ao as int, b@, bo as int, n as int, i as int, t) == -(ai * b@[bo + j]));
                }
                out.set(idx, v);
                proof {
                    assert forall|t: int| 0 <= t < n implies out@[oo + t] as int == tmod(
                        old(out)@[oo + t] + #[trigger] mul_partial(
                            a@,
                            ao as int,
                            b@,
                            bo as int,
                            n as int,
                            i as int,
                            t,
                        ) + if i <= t || t < j + 1 - (n - i) {
                            mul_term(a@, ao as int, b@, bo as int, n as int, i as int, t)
                        } else {
                            0
                        },
                    ) by {
                        if t != j - (n - i) {
                            assert(out@[oo + t] == before[oo + t]);
                        }
                    }
                }
                j = j + 1;
            }
            assert(j == n);
        }
        proof {
            assert forall|t: int| 0 <= t < n implies out@[oo + t] as int == tmod(
                old(out)@[oo + t] + #[trigger] mul_partial(
                    a@,
                    ao as int,
                    b@,
                    bo as int,
                    n as int,
                    i + 1,
                    t,
                ),
            ) by {
                assert(mul_partial(a@, ao as int, b@, bo as int, n as int, i + 1, t) == mul_partial(
                    a@,
                    ao as int,
                    b@,
                    bo as int,
                    n as int,
                    i as int,
                    t,
                ) + mul_term(a@, ao as int, b@, bo as int, n as int, i as int, t));
                if ai == 0 {
                    assert(out@ == start);
                    assert(mul_term(a@, ao as int, b@, bo as int, n as int, i as int, t) == 0);
                }
            }
        }
        i = i + 1;
    }
}

/// Coefficient `t` of `X^r · a` in ℤ_{2^32}[X]/(X^n + 1), for `r < 2n`: the coefficient of
/// `a` that lands on `t`, negated when it wrapped around once.
pub open spec fn rotated_coeff(a: Seq<u32>, ao: int, n: int, r: int, t: int) -> int {
    if t >= r % n {
        let src = a[ao + t - r % n] as int;
        if r < n {
            src
        } else {
            tmod_neg(src)
        }
    } else {
        let src = a[ao + t + n - r % n] as int;
        if r < n {
            tmod_neg(src)
        } else {
            src
        }
    }
}

/// `−x` modulo 2^32, for a word `x`.
pub open spec fn tmod_neg(x: int) -> int {
    if x == 0 {
        0
    } else {
        0x1_0000_0000 - x
    }
}

/// Writes `X^r · src[so .. so + n)` into `out[oo .. oo + n)`, for `r < 2n`.
pub fn poly_rotate(out: &mut Vec<u32>, oo: usize, src: &Vec<u32>, so: usize, n: usize, r: usize)
    requires
        oo + n <= old(out)@.len(),
        so + n <= src@.len(),
        n <= 0x10000,
        r < 2 * n,
    ensures
        final(out)@.len() == old(out)@.len(),
        forall|t: int|
            0 <= t < n ==> final(out)@[oo + t] as int == #[trigger] rotated_coeff(
                src@,
                so as int,
                n as int,
                r as int,
                t,
            ),
        forall|k: int|
            0 <= k < old(out)@.len() && !(oo <= k < oo + n) ==> final(out)@[k] == old(out)@[k],
{
    let olen = out.len();
    let slen = src.len();
    let mut j: usize = 0;
    while j < n
        invariant
            oo + n <= out@.len(),
            so + n <= src@.len(),
            out@.len() == old(out)@.len(),
            out@.len() == olen,
            src@.len() == slen,
            n <= 0x10000,
            r < 2 * n,
            j <= n,
            forall|t: int|
                0 <= t < n && (if t >= r % n { t - r % n < j } else { t + n - r % n < j })
                    ==> out@[oo + t] as int == #[trigger] rotated_coeff(
                    src@,
                    so as int,
                    n as int,
                    r as int,
                    t,
                ),
            forall|k: int|
                0 <= k < old(out)@.len() && !(oo <= k < oo + n) ==> out@[k] == old(out)@[k],
        decreases n - j,
    {
        let ghost before = out@;
        let t = j + r;
        let v = src[so + j];
        let ghost dest: int = if t < n {
            t as int
        } else if t < 2 * n {
            t - n
        } else {
            t - 2 * n
        };
        proof {
            assert(0 <= dest < n);
            if r < n {
                vstd::arithmetic::div_mod::lemma_fundamental_div_mod_converse(r as int, n as int, 0, r as int);
            } else {
                vstd::arithmetic::div_mod::lemma_fundamental_div_mod_converse(r as int, n as int, 1, r - n);
            }
            assert(dest >= r % n ==> dest - r % n == j);
            assert(dest < r % n ==> dest + n - r % n == j);
        }
        if t < n {
            out.set(oo + t, v);
        } else if t < 2 * n {
            out.set(oo + (t - n), 0u32.wrapping_sub(v));
        } else {
            out.set(oo + (t - 2 * n), v);
        }
        proof {
            assert forall|u: int|
                0 <= u < n && (if u >= r % n { u - r % n < j + 1 } else { u + n - r % n < j + 1 })
                    implies out@[oo + u] as int == #[trigger] rotated_coeff(
                    src@,
                    so as int,
                    n as int,
                    r as int,
                    u,
                ) by {
                if u != dest {
                    assert(out@[oo + u] == before[oo + u]);
                }
            }
        }
        j = j + 1;
    }
}

/// A word read as a signed integer of `[−2^31, 2^31)`.
pub open spec fn signed_word(u: u32) -> int {
    if u < 0x8000_0000 {
        u as int
    } else {
        u - 0x1_0000_0000
    }
}

/// `Σ_{j ∈ [l, level)} signed(d[j]) · 2^(B·(level − 1 − j))`: the digits from level `l` on,
/// most significant first, as one integer.
pub open spec fn digits_value(d: Seq<u32>, base_log: nat, level: int, l: int) -> int
    decreases level - l,
{
    if l >= level {
        0
    } else {
        signed_word(d[l]) * pow2(base_log * (level - 1 - l) as nat) + digits_value(
            d,
            base_log,
            level,
            l + 1,
        )
    }
}

/// `x` rounded to the nearest multiple of `2^(32 − bits)`, counted in those multiples.
pub open spec fn rounded_units(x: int, bits: nat) -> int {
    (x + pow2((32 - bits) as nat) / 2) / pow2((32 - bits) as nat) as int
}

/// The digit that one step of the decomposition takes from `state`: its residue modulo
/// `base`, less `base` (stored modulo 2^32) when that residue is at least `base / 2`.
pub open spec fn step_digit(state: int, base: int) -> u32 {
    let d = state % base;
    if d >= base / 2 && base / 2 > 0 {
        ((d + 0x1_0000_0000 - base) % 0x1_0000_0000) as u32
    } else {
        d as u32
    }
}

/// The state that one step of the decomposition leaves: the quotient by `base`, plus a carry
/// when the digit went negative.
pub open spec fn step_state(state: int, base: int) -> int {
    let d = state % base;
    if d >= base / 2 && base / 2 > 0 {
        state / base + 1
    } else {
        state / base
    }
}

/// The state before the decomposition takes the digit of level `l − 1`, the levels from `l`
/// to `level − 1` being done.
pub open spec fn decomp_state(x: u32, base_log: nat, level: int, l: int) -> int
    decreases level - l,
{
    if l >= level {
        rounded_units(x as int, (base_log * level) as nat)
    } else {
        step_state(decomp_state(x, base_log, level, l + 1), pow2(base_log) as int)
    }
}

/// Digit `j` (most significant first) of the decomposition of `x`.
pub open spec fn decomp_digit(x: u32, base_log: nat, level: int, j: int) -> u32 {
    step_digit(decomp_state(x, base_log, level, j + 1), pow2(base_log) as int)
}

/// The digits from level `l` on are all that `digits_value` reads.
proof fn lemma_digits_value_ext(d1: Seq<u32>, d2: Seq<u32>, base_log: nat, level: int, l: int)
    requires
        0 <= l <= level,
        level <= d1.len(),
        level <= d2.len(),
        forall|j: int| l <= j < level ==> #[trigger] d1[j] == d2[j],
    ensures
        digits_value(d1, base_log, level, l) == digits_value(d2, base_log, level, l),
    decreases level - l,
{
    if l < level {
        lemma_digits_value_ext(d1, d2, base_log, level, l + 1);
    }
}

/// Writes into `digits[0 .. level)` the signed base-`2^base_log` decomposition of `x`
/// rounded to its `base_log · level` top bits, most significant level first, each digit in
/// `[−2^(base_log−1), 2^(base_log−1))` and stored modulo 2^32: the digits, as one integer,
/// equal the rounded value up to a multiple of `2^(base_log · level)`.
pub fn decompose(x: u32, base_log: usize, level: usize, digits: &mut Vec<u32>)
    requires
        1 <= base_log <= 32,
        1 <= level <= 32,
        base_log * level <= 32,
        old(digits)@.len() == level,
    ensures
        final(digits)@.len() == level,
        forall|j: int|
            0 <= j < level ==> final(digits)@[j] == #[trigger] decomp_digit(
                x,
                base_log as nat,
                level as int,
                j,
            ),
        forall|j: int|
            0 <= j < level ==> -(pow2((base_log - 1) as nat) as int) <= #[trigger] signed_word(
                final(digits)@[j],
            ) < pow2((base_log - 1) as nat),
        (rounded_units(x as int, (base_log * level) as nat) - digits_value(
            final(digits)@,
            base_log as nat,
            level as int,
            0,
        )) % (pow2((base_log * level) as nat) as int) == 0,
{
    let total = base_log * level;
    let unit = pow2_u64(32 - total);
    let base = pow2_u64(base_log);
    let half = base / 2;
    proof {
        vstd::arithmetic::power2::lemma_pow2_unfold(base_log as nat);
        assert(half == pow2((base_log - 1) as nat));
    }
    let mut state: u64 = (x as u64 + unit / 2) / unit;
    let ghost r0: int = state as int;
    proof {
        assert(r0 == rounded_units(x as int, total as nat));
        assert(base_log * (level - level) == 0);
        assert(pow2(0) == 1) by {
            vstd::arithmetic::power2::lemma2_to64();
        }
        assert(pow2((base_log * (level - level)) as nat) == 1);
        assert(digits_value(digits@, base_log as nat, level as int, level as int) == 0);
        assert(base == 2 * half);
    }
    let mut l: usize = level;
    while l > 0
        invariant
            digits@.len() == level,
            l <= level,
            1 <= base_log <= 32,
            state <= 0x2_0000_0000,
            2 <= base <= 0x1_0000_0000,
            base == pow2(base_log as nat),
            half == base / 2,
            half == pow2((base_log - 1) as nat),
            base == 2 * half,
            r0 == state * pow2((base_log * (level - l)) as nat) + digits_value(
                digits@,
                base_log as nat,
                level as int,
                l as int,
            ),
            forall|j: int|
                l <= j < level ==> -(half as int) <= #[trigger] signed_word(digits@[j]) < half,
            state == decomp_state(x, base_log as nat, level as int, l as int),
            forall|j: int|
                l <= j < level ==> digits@[j] == #[trigger] decomp_digit(
                    x,
                    base_log as nat,
                    level as int,
                    j,
                ),
        decreases l,
    {
        let d = state % base;
        assert(state / base <= 0x1_0000_0000) by (nonlinear_arith)
            requires state <= 0x2_0000_0000, base >= 2;
        let ghost old_state = state;
        state = state / base;
        let ghost mut digit_int: int = d as int;
        let digit: u32 = if d >= half && half > 0 {
            state = state + 1;
            proof {
                digit_int = d - base;
            }
            ((d + 0x1_0000_0000 - base) % 0x1_0000_0000) as u32
        } else {
            d as u32
        };
        proof {
            assert(digit == step_digit(old_state as int, base as int));
            assert(state == step_state(old_state as int, base as int));
            vstd::arithmetic::div_mod::lemma_fundamental_div_mod(old_state as int, base as int);
            let qq = old_state as int / base as int;
            assert(d as int == old_state as int % base as int);
            assert(0 <= d < base);
            assert(old_state == base * qq + d);
            if d >= half && half > 0 {
                assert(state == qq + 1);
                assert(digit_int == d - base);
                assert(base * (qq + 1) + (d - base) == base * qq + d) by (nonlinear_arith);
            } else {
                assert(state == qq);
                assert(digit_int == d);
            }
            assert(old_state == base * state + digit_int);
            assert(-(half as int) <= digit_int < half);
            assert(half <= 0x8000_0000);
            assert(signed_word(digit) == digit_int);
        }
        let ghost before = digits@;
        digits.set(l - 1, digit);
        proof {
            let k = (base_log * (level - l)) as nat;
            lemma_digits_value_ext(digits@, before, base_log as nat, level as int, l as int);
            assert(base_log * (level - (l - 1)) == k + base_log) by (nonlinear_arith)
                requires k == base_log * (level - l), l >= 1;
            vstd::arithmetic::power2::lemma_pow2_adds(k, base_log as nat);
            assert((base_log * (level - 1 - (l - 1))) as nat == k);
            assert(digits_value(digits@, base_log as nat, level as int, l - 1) == digit_int * pow2(k)
                + digits_value(digits@, base_log as nat, level as int, l as int));
            assert(old_state * pow2(k) == state * (pow2(k) * pow2(base_log as nat)) + digit_int * pow2(k))
                by (nonlinear_arith)
                requires old_state == base * state + digit_int, base == pow2(base_log as nat);
        }
        l = l - 1;
    }
    proof {
        let p = pow2(total as nat) as int;
        assert(base_log * (level - 0) == total);
        vstd::arithmetic::power2::lemma_pow2_pos(total as nat);
        vstd::arithmetic::div_mod::lemma_fundamental_div_mod_converse(state * p, p, state as int, 0);
    }
}

} // verus!
