//! Plaintexts of ℤ_p lifted to the native modulus 2^32.

use vstd::arithmetic::div_mod::{lemma_fundamental_div_mod, lemma_fundamental_div_mod_converse};
use vstd::prelude::*;

verus! {

/// The native ciphertext modulus.
pub open spec fn q() -> int {
    0x1_0000_0000
}

/// Reduction onto the native modulus.
pub open spec fn tmod(x: int) -> int {
    x % q()
}

/// `m ∈ ℤ_p` lifted to the native modulus: `round(m · 2^32 / p)`, halves rounded down.
pub open spec fn encode_spec(m: int, p: int) -> int {
    (m * q() + p / 2) / p
}

/// A value of the native modulus rounded to the nearest multiple of `2^32 / p`, in ℤ_p.
pub open spec fn decode_spec(d: int, p: int) -> int {
    ((d * p + 0x8000_0000) / q()) % p
}

/// Lifts `m ∈ ℤ_p` to the native modulus.
pub fn encode(m: u32, p: u32) -> (r: u32)
    requires
        m < p,
    ensures
        r as int == encode_spec(m as int, p as int),
{
    proof {
        assert((m as int * q() + p as int / 2) / p as int <= q() - 1) by (nonlinear_arith)
            requires m < p, q() == 0x1_0000_0000, p >= 1, m >= 0;
    }
    let scaled: u64 = (m as u64) * 0x1_0000_0000u64 + (p as u64) / 2;
    (scaled / (p as u64)) as u32
}

/// Rounds a value of the native modulus to the nearest element of ℤ_p.
pub fn decode(d: u32, p: u32) -> (r: u32)
    requires
        p >= 1,
    ensures
        r as int == decode_spec(d as int, p as int),
        r < p,
{
    proof {
        assert(d as int * p as int <= 0xffff_ffff * 0xffff_ffff) by (nonlinear_arith)
            requires d <= 0xffff_ffff, p <= 0xffff_ffff;
    }
    let rounded: u64 = ((d as u64) * (p as u64) + 0x8000_0000u64) / 0x1_0000_0000u64;
    (rounded % (p as u64)) as u32
}

/// Noise small enough for decoding: `(|e| + 1) · p < 2^31`.
pub open spec fn noise_fits(e: int, p: int) -> bool {
    let a = if e < 0 { -e } else { e };
    (a + 1) * p < 0x8000_0000
}

/// Decoding undoes encoding: for every `m ∈ [0, p)` and every noise `e` with
/// `(|e| + 1) · p < 2^31`, rounding `encode(m) + e` gives back `m`.
pub proof fn lemma_decode_encode(m: int, p: int, e: int)
    requires
        2 <= p,
        0 <= m < p,
        noise_fits(e, p),
    ensures
        decode_spec(tmod(encode_spec(m, p) + e), p) == m,
{
    let big = q();
    let enc = encode_spec(m, p);
    let a = if e < 0 { -e } else { e };
    let h = p / 2;
    lemma_fundamental_div_mod(m * big + h, p);
    let rem = (m * big + h) % p;
    assert(0 <= rem < p);
    assert(0 <= h < p);
    assert(enc * p + rem == m * big + h) by (nonlinear_arith)
        requires enc == (m * big + h) / p, m * big + h == p * ((m * big + h) / p) + rem;
    assert(a * p < 0x8000_0000) by (nonlinear_arith)
        requires (a + 1) * p < 0x8000_0000, p >= 2;
    assert(e * p >= 0 - a * p && e * p <= a * p) by (nonlinear_arith)
        requires a >= 0, p >= 0, e == a || e == -a;
    assert(a * p + p < 0x8000_0000) by (nonlinear_arith)
        requires (a + 1) * p < 0x8000_0000;
    assert(a < 0x4000_0000) by (nonlinear_arith)
        requires a * p < 0x8000_0000, p >= 2, a >= 0;
    let x = enc + e;
    if m == 0 {
        assert(enc == 0) by (nonlinear_arith)
            requires enc * p + rem == m * big + h, m == 0, 0 <= rem < p, 0 <= h < p, p >= 2;
        if e < 0 {
            lemma_fundamental_div_mod_converse(x, big, -1, x + big);
            assert(tmod(x) == x + big);
            let y = (x + big) * p + 0x8000_0000;
            assert(y == p * big + (e * p + 0x8000_0000)) by (nonlinear_arith)
                requires y == (x + big) * p + 0x8000_0000, x == enc + e, enc == 0;
            assert(0 <= e * p + 0x8000_0000 < big);
            lemma_fundamental_div_mod_converse(y, big, p, e * p + 0x8000_0000);
            assert(p % p == 0) by (nonlinear_arith) requires p >= 2;
        } else {
            lemma_fundamental_div_mod_converse(x, big, 0, x);
            let y = x * p + 0x8000_0000;
            lemma_fundamental_div_mod_converse(y, big, 0, y);
            assert(0int % p == 0);
        }
    } else {
        assert(enc * p >= big - p) by (nonlinear_arith)
            requires enc * p + rem == m * big + h, m >= 1, rem < p, h >= 0, big > 0;
        assert(enc * p <= (p - 1) * big + h) by (nonlinear_arith)
            requires enc * p + rem == m * big + h, m <= p - 1, rem >= 0, big > 0;
        assert(p < 0x8000_0000) by (nonlinear_arith)
            requires (a + 1) * p < 0x8000_0000, a >= 0;
        assert((a + 1) * p < enc * p);
        assert(enc >= a + 1) by (nonlinear_arith)
            requires (a + 1) * p < enc * p, p >= 2;
        assert(enc + a < big) by (nonlinear_arith)
            requires
                enc * p <= (p - 1) * big + h,
                a * p + p < 0x8000_0000,
                h < p,
                p >= 2,
                big == 0x1_0000_0000,
        ;
        lemma_fundamental_div_mod_converse(x, big, 0, x);
        let y = x * p + 0x8000_0000;
        assert(y == m * big + (e * p + h - rem + 0x8000_0000)) by (nonlinear_arith)
            requires y == x * p + 0x8000_0000, x == enc + e, enc * p + rem == m * big + h;
        assert(0 <= e * p + h - rem + 0x8000_0000);
        assert(e * p + h - rem + 0x8000_0000 < big);
        lemma_fundamental_div_mod_converse(y, big, m, e * p + h - rem + 0x8000_0000);
        lemma_fundamental_div_mod_converse(m, p, 0, m);
    }
}

} // verus!
