//! LWE ciphertexts over the native modulus 2^32 and their linear operations.
//!
//! A ciphertext of dimension `n` holds `n + 1` words: the mask `a[0..n)` and the body
//! `a[n]`. Under a secret `s`, its phase is `a[n] − Σ a[i]·s[i]` modulo 2^32; every
//! operation here acts on the phase linearly, whatever the secret.

use crate::plaintext::{q, tmod};
use vstd::arithmetic::div_mod::{
    lemma_add_mod_noop, lemma_mul_mod_noop_left, lemma_mul_mod_noop_right, lemma_sub_mod_noop,
};
use vstd::prelude::*;

verus! {

/// An LWE ciphertext: mask followed by body.
#[derive(Clone, Debug, PartialEq, Eq)]
pub struct LweCiphertext {
    pub data: Vec<u32>,
}

/// `Σ_{i < k} a[i] · s[i]`.
pub open spec fn dot(a: Seq<u32>, s: Seq<u32>, k: int) -> int
    decreases k,
{
    if k <= 0 {
        0
    } else {
        dot(a, s, k - 1) + a[k - 1] * s[k - 1]
    }
}

/// The phase of ciphertext `c` under secret `s`: `body − ⟨mask, s⟩` modulo 2^32.
pub open spec fn phase(c: Seq<u32>, s: Seq<u32>) -> int {
    tmod(c[c.len() - 1] - dot(c, s, c.len() - 1))
}

/// `e` lies in `[−bound, bound]`.
pub open spec fn within(e: int, bound: int) -> bool {
    -bound <= e <= bound
}

/// The phase of `c` under `s` is `pt + e` modulo 2^32 for some noise `e` within `bound`.
pub open spec fn encrypts_near(c: Seq<u32>, s: Seq<u32>, pt: int, bound: int) -> bool {
    exists|e: int| #[trigger] within(e, bound) && phase(c, s) == tmod(pt + e)
}

/// Two integers agree modulo 2^32.
pub open spec fn cong(x: int, y: int) -> bool {
    tmod(x) == tmod(y)
}

/// Sums of congruent integers are congruent.
pub proof fn lemma_cong_add(x1: int, y1: int, x2: int, y2: int)
    requires
        cong(x1, y1),
        cong(x2, y2),
    ensures
        cong(x1 + x2, y1 + y2),
{
    lemma_add_mod_noop(x1, x2, q());
    lemma_add_mod_noop(y1, y2, q());
}

/// Differences of congruent integers are congruent.
pub proof fn lemma_cong_sub(x1: int, y1: int, x2: int, y2: int)
    requires
        cong(x1, y1),
        cong(x2, y2),
    ensures
        cong(x1 - x2, y1 - y2),
{
    lemma_sub_mod_noop(x1, x2, q());
    lemma_sub_mod_noop(y1, y2, q());
}

/// Multiples of congruent integers are congruent.
pub proof fn lemma_cong_mul(x: int, y: int, c: int)
    requires
        cong(x, y),
    ensures
        cong(x * c, y * c),
        cong(c * x, c * y),
{
    lemma_mul_mod_noop_left(x, c, q());
    lemma_mul_mod_noop_left(y, c, q());
    lemma_mul_mod_noop_right(c, x, q());
    lemma_mul_mod_noop_right(c, y, q());
}

/// An integer is congruent to its reduction.
pub proof fn lemma_cong_tmod(x: int)
    ensures
        cong(x, tmod(x)),
        0 <= tmod(x) < q(),
{
    vstd::arithmetic::div_mod::lemma_mod_twice(x, q());
}

/// A coordinate-wise affine map `r ≡ c·a + b` carries over to the inner product with any `s`.
pub proof fn lemma_dot_affine(r: Seq<u32>, a: Seq<u32>, b: Seq<u32>, s: Seq<u32>, c: int, k: int)
    requires
        0 <= k <= r.len(),
        k <= a.len(),
        k <= b.len(),
        k <= s.len(),
        forall|i: int| 0 <= i < k ==> cong(r[i] as int, c * a[i] + b[i]),
    ensures
        cong(dot(r, s, k), c * dot(a, s, k) + dot(b, s, k)),
    decreases k,
{
    if k > 0 {
        lemma_dot_affine(r, a, b, s, c, k - 1);
        let i = k - 1;
        lemma_cong_mul(r[i] as int, c * a[i] + b[i], s[i] as int);
        lemma_cong_add(
            dot(r, s, i),
            c * dot(a, s, i) + dot(b, s, i),
            r[i] * s[i],
            (c * a[i] + b[i]) * s[i],
        );
        assert(c * dot(a, s, i) + dot(b, s, i) + (c * a[i] + b[i]) * s[i] == c * dot(a, s, k)
            + dot(b, s, k)) by (nonlinear_arith)
            requires
                dot(a, s, k) == dot(a, s, i) + a[i] * s[i],
                dot(b, s, k) == dot(b, s, i) + b[i] * s[i],
        ;
    }
}

/// A coordinate-wise affine map `r ≡ c·a + b` of ciphertexts maps phases the same way,
/// under every secret.
pub proof fn lemma_phase_affine(r: Seq<u32>, a: Seq<u32>, b: Seq<u32>, s: Seq<u32>, c: int)
    requires
        r.len() == a.len() == b.len(),
        r.len() >= 1,
        s.len() >= r.len() - 1,
        forall|i: int| 0 <= i < r.len() ==> cong(r[i] as int, c * a[i] + b[i]),
    ensures
        phase(r, s) == tmod(c * phase(a, s) + phase(b, s)),
{
    let n = r.len() - 1;
    lemma_dot_affine(r, a, b, s, c, n);
    lemma_cong_sub(r[n] as int, c * a[n] + b[n], dot(r, s, n), c * dot(a, s, n) + dot(b, s, n));
    let pa = a[n] - dot(a, s, n);
    let pb = b[n] - dot(b, s, n);
    assert(c * a[n] + b[n] - (c * dot(a, s, n) + dot(b, s, n)) == c * pa + pb) by (nonlinear_arith)
        requires pa == a[n] - dot(a, s, n), pb == b[n] - dot(b, s, n);
    lemma_cong_tmod(pa);
    lemma_cong_tmod(pb);
    lemma_cong_mul(pa, tmod(pa), c);
    lemma_cong_add(c * pa, c * tmod(pa), pb, tmod(pb));
}

/// The all-zero sequence of length `len`.
pub open spec fn zeros(len: nat) -> Seq<u32> {
    Seq::new(len, |i: int| 0u32)
}

impl LweCiphertext {
    /// The ciphertext of `size` words, all zero: a trivial encryption of 0.
    pub fn new_zero(size: usize) -> (r: LweCiphertext)
        ensures
            r.data@ == zeros(size as nat),
    {
        let data = vec![0u32; size];
        proof {
            assert(data@ =~= zeros(size as nat));
        }
        LweCiphertext { data }
    }

    /// Adds `other` to `self` word by word.
    pub fn add_assign(&mut self, other: &LweCiphertext)
        requires
            old(self).data@.len() == other.data@.len(),
        ensures
            final(self).data@.len() == old(self).data@.len(),
            forall|i: int|
                0 <= i < other.data@.len() ==> final(self).data@[i] as int == tmod(
                    old(self).data@[i] + other.data@[i],
                ),
    {
        let len = self.data.len();
        let mut i: usize = 0;
        while i < len
            invariant
                len == self.data@.len(),
                len == other.data@.len(),
                i <= len,
                forall|j: int|
                    0 <= j < i ==> self.data@[j] as int == tmod(
                        old(self).data@[j] + other.data@[j],
                    ),
                forall|j: int| i <= j < len ==> self.data@[j] == old(self).data@[j],
            decreases len - i,
        {
            let v = self.data[i].wrapping_add(other.data[i]);
            proof {
                let x = old(self).data@[i as int] as int + other.data@[i as int] as int;
                if x >= q() {
                    vstd::arithmetic::div_mod::lemma_fundamental_div_mod_converse(x, q(), 1, x - q());
                } else {
                    vstd::arithmetic::div_mod::lemma_fundamental_div_mod_converse(x, q(), 0, x);
                }
            }
            self.data.set(i, v);
            i = i + 1;
        }
    }

    /// The ciphertext times the cleartext `scalar`, word by word.
    pub fn cleartext_mul(&self, scalar: u32) -> (r: LweCiphertext)
        ensures
            r.data@.len() == self.data@.len(),
            forall|i: int|
                0 <= i < self.data@.len() ==> r.data@[i] as int == tmod(
                    self.data@[i] * scalar,
                ),
    {
        let len = self.data.len();
        let mut data: Vec<u32> = Vec::with_capacity(len);
        let mut i: usize = 0;
        while i < len
            invariant
                len == self.data@.len(),
                i <= len,
                data@.len() == i,
                forall|j: int|
                    0 <= j < i ==> data@[j] as int == tmod(self.data@[j] * scalar),
            decreases len - i,
        {
            data.push(self.data[i].wrapping_mul(scalar));
            i = i + 1;
        }
        LweCiphertext { data }
    }

    /// Adds the plaintext `pt` to the body.
    pub fn plaintext_add_assign(&mut self, pt: u32)
        requires
            old(self).data@.len() >= 1,
        ensures
            final(self).data@.len() == old(self).data@.len(),
            forall|i: int|
                0 <= i < old(self).data@.len() - 1 ==> final(self).data@[i] == old(self).data@[i],
            final(self).data@[old(self).data@.len() - 1] as int == tmod(
                old(self).data@[old(self).data@.len() - 1] + pt,
            ),
    {
        let last = self.data.len() - 1;
        let v = self.data[last].wrapping_add(pt);
        proof {
            let x = self.data@[last as int] as int + pt as int;
            if x >= q() {
                vstd::arithmetic::div_mod::lemma_fundamental_div_mod_converse(x, q(), 1, x - q());
            } else {
                vstd::arithmetic::div_mod::lemma_fundamental_div_mod_converse(x, q(), 0, x);
            }
        }
        self.data.set(last, v);
    }

    /// Negates every word.
    pub fn opposite_assign(&mut self)
        ensures
            final(self).data@.len() == old(self).data@.len(),
            forall|i: int|
                0 <= i < old(self).data@.len() ==> final(self).data@[i] as int == tmod(
                    -old(self).data@[i],
                ),
    {
        let len = self.data.len();
        let mut i: usize = 0;
        while i < len
            invariant
                len == self.data@.len(),
                i <= len,
                forall|j: int|
                    0 <= j < i ==> self.data@[j] as int == tmod(-old(self).data@[j]),
                forall|j: int| i <= j < len ==> self.data@[j] == old(self).data@[j],
            decreases len - i,
        {
            let v = 0u32.wrapping_sub(self.data[i]);
            proof {
                let x = -(self.data@[i as int] as int);
                if x < 0 {
                    vstd::arithmetic::div_mod::lemma_fundamental_div_mod_converse(x, q(), -1, x + q());
                } else {
                    vstd::arithmetic::div_mod::lemma_fundamental_div_mod_converse(x, q(), 0, x);
                }
            }
            self.data.set(i, v);
            i = i + 1;
        }
    }
}

} // verus!
