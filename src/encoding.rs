//! The encoding of one gate: pin scalars, output partition of ℤ_p and the
//! accumulator that a bootstrap evaluates.

use crate::error::GadgetError;
use crate::plaintext::{encode_spec, q};
use vstd::arithmetic::div_mod::{lemma_fundamental_div_mod, lemma_fundamental_div_mod_converse};
use vstd::prelude::*;

verus! {

/// Describes one gate.
///
/// Pin `i` set to 1 contributes `input_mappings_1[pin_count - 1 - i]` to the sum in ℤ_p;
/// the bootstrap then maps each value of ℤ_p to 0 or 1 by `output_encodings_0` and
/// `output_encodings_1`.
#[derive(Clone, Debug)]
pub struct Encoding {
    /// Truth table of the encoded function, one bit per row; kept for validation only.
    pub tt_value: u128,
    pub pin_count: usize,
    pub input_mappings_0: Vec<u32>,
    pub input_mappings_1: Vec<u32>,
    pub output_encodings_0: Vec<u32>,
    pub output_encodings_1: Vec<u32>,
    /// The value of the output 0 in the accumulator.
    pub new_0: u32,
    /// The value of the output 1 in the accumulator.
    pub new_1: u32,
    pub p: u32,
    /// The modulus of the output values.
    pub new_p: u32,
}

/// Tells whether `x` occurs in `v`.
pub fn contains(v: &Vec<u32>, x: u32) -> (r: bool)
    ensures
        r == v@.contains(x),
{
    let mut i: usize = 0;
    while i < v.len()
        invariant
            i <= v.len(),
            forall|j: int| 0 <= j < i ==> v@[j] != x,
        decreases v.len() - i,
    {
        if v[i] == x {
            return true;
        }
        i = i + 1;
    }
    false
}

/// Every element of `v` is below `p`.
pub open spec fn all_below(v: Seq<u32>, p: int) -> bool {
    forall|j: int| 0 <= j < v.len() ==> v[j] < p
}

/// Tells whether every element of `v` is below `p`.
fn all_below_exec(v: &Vec<u32>, p: u32) -> (r: bool)
    ensures
        r == all_below(v@, p as int),
{
    let mut i: usize = 0;
    while i < v.len()
        invariant
            i <= v.len(),
            forall|j: int| 0 <= j < i ==> v@[j] < p,
        decreases v.len() - i,
    {
        if v[i] >= p {
            return false;
        }
        i = i + 1;
    }
    true
}

/// The output sets split `[0, p)`: each value lies in exactly one set and no other value occurs.
pub open spec fn is_partition(out0: Seq<u32>, out1: Seq<u32>, p: int) -> bool {
    &&& all_below(out0, p)
    &&& all_below(out1, p)
    &&& forall|s: u32| s < p ==> (out0.contains(s) != out1.contains(s))
}

/// The lift of an accumulator entry `a` to the native modulus: `encode(a) = round(a · 2^32 / p)`.
pub open spec fn lift(a: int, p: int) -> int {
    encode_spec(a, p)
}

/// The window of coefficient `j` in a test vector of `n` coefficients for ℤ_p: window `0`
/// is `[0, h)`, window `i ∈ [1, p)` is `[(i − 1)·w + h, i·w + h)` and window `p` is
/// `[n − h, n)`, with `w = n / p` and `h = n / (2p)`. A coefficient that lies in none of
/// them (when `2p` does not divide `n`) gets `p + 1`.
pub open spec fn window_index(j: int, p: int, n: int) -> int {
    let w = n / p;
    let h = n / (2 * p);
    if j < h {
        0
    } else if j >= n - h {
        p
    } else if (j - h) / w + 1 < p {
        (j - h) / w + 1
    } else {
        p + 1
    }
}

/// Coefficient `j` lies in window `i` (see `window_index`).
pub open spec fn in_window(j: int, i: int, p: int, n: int) -> bool {
    let w = n / p;
    let h = n / (2 * p);
    if i == 0 {
        0 <= j < h
    } else if i == p {
        n - h <= j < n
    } else {
        1 <= i < p && (i - 1) * w + h <= j < i * w + h
    }
}

/// Coefficient `j` of the test vector built from accumulator `acc`: the lift of the entry of
/// its window, or 0 outside every window.
pub open spec fn test_vector_coeff(acc: Seq<u32>, p: int, n: int, j: int) -> int {
    let i = window_index(j, p, n);
    if i <= p {
        lift(acc[i] as int, p)
    } else {
        0
    }
}

/// When `2p` divides `n`, the windows tile `[0, n)`: every coefficient lies in exactly one
/// window, so the test vector fills all `n` coefficients with no gap and no overlap.
pub proof fn lemma_windows_tile(p: int, n: int)
    requires
        2 <= p,
        0 < n,
        n % (2 * p) == 0,
    ensures
        forall|j: int|
            0 <= j < n ==> 0 <= #[trigger] window_index(j, p, n) <= p && in_window(
                j,
                window_index(j, p, n),
                p,
                n,
            ),
        forall|j: int, i: int|
            0 <= j < n && 0 <= i <= p && #[trigger] in_window(j, i, p, n) ==> i == window_index(
                j,
                p,
                n,
            ),
{
    let h = n / (2 * p);
    let w = n / p;
    lemma_fundamental_div_mod(n, 2 * p);
    assert(n == 2 * p * h);
    assert(h >= 1) by (nonlinear_arith)
        requires n == 2 * p * h, n > 0, p >= 2;
    assert(n == p * (2 * h)) by (nonlinear_arith)
        requires n == 2 * p * h;
    lemma_fundamental_div_mod_converse(n, p, 2 * h, 0);
    assert(w == 2 * h);
    assert(n - h >= h) by (nonlinear_arith)
        requires n == 2 * p * h, p >= 2, h >= 1;
    assert forall|j: int| 0 <= j < n implies 0 <= #[trigger] window_index(j, p, n) <= p
        && in_window(j, window_index(j, p, n), p, n) by {
        if h <= j < n - h {
            let k = (j - h) / w;
            lemma_fundamental_div_mod(j - h, w);
            let r = (j - h) % w;
            assert(0 <= r < w);
            assert(j - h == w * k + r);
            assert(k >= 0) by (nonlinear_arith)
                requires j - h == w * k + r, j - h >= 0, r < w, w > 0;
            assert(w * (p - 1) == n - 2 * h) by (nonlinear_arith)
                requires w == 2 * h, n == 2 * p * h;
            assert(k < p - 1) by (nonlinear_arith)
                requires j - h == w * k + r, j - h < w * (p - 1), r >= 0, w > 0;
            assert(w * k == k * w);
            assert((k + 1) * w == k * w + w) by (nonlinear_arith);
        }
    }
    assert forall|j: int, i: int|
        0 <= j < n && 0 <= i <= p && #[trigger] in_window(j, i, p, n) implies i == window_index(
        j,
        p,
        n,
    ) by {
        if 1 <= i < p {
            assert((i - 1) * w + h >= h) by (nonlinear_arith)
                requires i >= 1, w >= 0;
            assert(i * w + h <= n - h) by (nonlinear_arith)
                requires i <= p - 1, w == 2 * h, n == 2 * p * h, h >= 1;
            let r = j - h - (i - 1) * w;
            assert(0 <= r < w) by (nonlinear_arith)
                requires (i - 1) * w + h <= j < i * w + h, r == j - h - (i - 1) * w;
            lemma_fundamental_div_mod_converse(j - h, w, i - 1, r);
        } else if i == 0 {
        } else {
        }
    }
}

/// Lifts an accumulator entry `a < p` to the native modulus.
pub fn lift_entry(a: u32, p: u32) -> (r: u32)
    requires
        2 <= p,
        a < p,
    ensures
        r as int == lift(a as int, p as int),
{
    crate::plaintext::encode(a, p)
}

/// Writes the test vector of accumulator `acc` for ℤ_p into `buf[offset .. offset + n)`,
/// leaving the rest of `buf` as it was.
pub fn write_test_vector(buf: &mut Vec<u32>, offset: usize, acc: &Vec<u32>, p: u32, n: usize)
    requires
        2 <= p,
        2 * p <= n,
        acc@.len() == p + 1,
        forall|i: int| 0 <= i <= p ==> acc@[i] < p,
        offset + n <= old(buf)@.len(),
    ensures
        final(buf)@.len() == old(buf)@.len(),
        forall|j: int|
            0 <= j < n ==> final(buf)@[offset + j] as int == #[trigger] test_vector_coeff(
                acc@,
                p as int,
                n as int,
                j,
            ),
        forall|k: int|
            0 <= k < old(buf)@.len() && !(offset <= k < offset + n) ==> final(buf)@[k]
                == old(buf)@[k],
{
    let pu = p as usize;
    let two_p: usize = 2 * pu;
    let w = n / pu;
    let h = n / two_p;
    proof {
        assert(w >= 1) by (nonlinear_arith)
            requires w as int == n as int / pu as int, n >= 2 * pu, pu >= 2;
        assert(h <= n) by (nonlinear_arith)
            requires h as int == n as int / two_p as int, two_p >= 1, n >= 0;
    }
    let mut j: usize = 0;
    while j < n
        invariant
            2 <= p,
            pu == p,
            two_p == 2 * pu,
            w as int == n as int / (p as int),
            h as int == n as int / (2 * p as int),
            w >= 1,
            h <= n,
            j <= n,
            acc@.len() == p + 1,
            forall|i: int| 0 <= i <= p ==> acc@[i] < p,
            offset + n <= old(buf)@.len(),
            offset + n <= buf@.len(),
            buf@.len() == old(buf)@.len(),
            forall|t: int|
                0 <= t < j ==> buf@[offset + t] as int == #[trigger] test_vector_coeff(
                    acc@,
                    p as int,
                    n as int,
                    t,
                ),
            forall|k: int|
                0 <= k < old(buf)@.len() && !(offset <= k < offset + j) ==> buf@[k]
                    == old(buf)@[k],
        decreases n - j,
    {
        let v = if j < h {
            lift_entry(acc[0], p)
        } else if j >= n - h {
            lift_entry(acc[pu], p)
        } else {
            let i = (j - h) / w + 1;
            if i < pu {
                lift_entry(acc[i], p)
            } else {
                0
            }
        };
        let len = buf.len();
        assert(offset + j < len);
        buf.set(offset + j, v);
        j = j + 1;
    }
}

impl Encoding {
    /// Parameters that every operation on the encoding needs.
    pub open spec fn params_ok(&self) -> bool {
        &&& 2 <= self.p < u32::MAX
        &&& self.input_mappings_1@.len() == self.pin_count
        &&& 1 <= self.new_p <= self.p
        &&& self.new_0 < self.new_p
        &&& self.new_1 < self.new_p
    }

    /// What building the accumulator needs: `2 ≤ p < u32::MAX`, `new_p ≥ 1`, and output
    /// values `new_0, new_1 ≤ new_p`.
    pub open spec fn acc_ok(&self) -> bool {
        &&& 2 <= self.p < u32::MAX
        &&& 1 <= self.new_p
        &&& self.new_0 <= self.new_p
        &&& self.new_1 <= self.new_p
    }

    /// The encoding is well formed.
    pub open spec fn wf(&self) -> bool {
        &&& self.params_ok()
        &&& all_below(self.input_mappings_1@, self.p as int)
        &&& is_partition(self.output_encodings_0@, self.output_encodings_1@, self.p as int)
    }

    /// The accumulator value of `v ∈ ℤ_p` before negation: `new_0` in the 0-set, else `new_1`.
    pub open spec fn output_of(&self, v: int) -> u32 {
        if v >= 0 && self.output_encodings_0@.contains(v as u32) {
            self.new_0
        } else {
            self.new_1
        }
    }

    /// Entry `i` of the accumulator: even entries `2a` hold the output of `a`, odd entries
    /// `2a + 1` the negated output of `(a + (p + 1) / 2) mod p`.
    pub open spec fn acc_entry(&self, i: int) -> u32 {
        let p = self.p as int;
        let half = (p + 1) / 2;
        if i % 2 == 0 && i / 2 < half {
            self.output_of(i / 2)
        } else if i % 2 == 1 && i / 2 < half {
            ((self.new_p - self.output_of((i / 2 + half) % p)) % (self.new_p as int)) as u32
        } else {
            0
        }
    }

    /// Builds an encoding from all of its fields.
    #[allow(clippy::too_many_arguments)]
    pub fn new(
        tt_value: u128,
        pin_count: usize,
        input_mappings_0: Vec<u32>,
        input_mappings_1: Vec<u32>,
        output_encodings_0: Vec<u32>,
        output_encodings_1: Vec<u32>,
        new_0: u32,
        new_1: u32,
        p: u32,
        new_p: u32,
    ) -> (r: Encoding)
        ensures
            r.tt_value == tt_value,
            r.pin_count == pin_count,
            r.input_mappings_0@ == input_mappings_0@,
            r.input_mappings_1@ == input_mappings_1@,
            r.output_encodings_0@ == output_encodings_0@,
            r.output_encodings_1@ == output_encodings_1@,
            r.new_0 == new_0,
            r.new_1 == new_1,
            r.p == p,
            r.new_p == new_p,
    {
        Encoding {
            tt_value,
            pin_count,
            input_mappings_0,
            input_mappings_1,
            output_encodings_0,
            output_encodings_1,
            new_0,
            new_1,
            p,
            new_p,
        }
    }

    /// Builds an encoding in canonical form: a pin at 0 contributes 0, outputs are 0 and 1
    /// in ℤ_p.
    pub fn new_canonical(
        tt_value: u128,
        pin_count: usize,
        input_mappings_1: Vec<u32>,
        output_encodings_0: Vec<u32>,
        output_encodings_1: Vec<u32>,
        p: u32,
    ) -> (r: Encoding)
        ensures
            r.tt_value == tt_value,
            r.pin_count == pin_count,
            r.input_mappings_0@ == Seq::new(pin_count as nat, |i: int| 0u32),
            r.input_mappings_1@ == input_mappings_1@,
            r.output_encodings_0@ == output_encodings_0@,
            r.output_encodings_1@ == output_encodings_1@,
            r.new_0 == 0,
            r.new_1 == 1,
            r.p == p,
            r.new_p == p,
    {
        let input_mappings_0 = vec![0u32; pin_count];
        proof {
            assert(input_mappings_0@ =~= Seq::new(pin_count as nat, |i: int| 0u32));
        }
        Self::new(
            tt_value,
            pin_count,
            input_mappings_0,
            input_mappings_1,
            output_encodings_0,
            output_encodings_1,
            0,
            1,
            p,
            p,
        )
    }

    /// Checks the encoding: `ParameterError` when `p < 2` or `p == u32::MAX`, the pin scalars do not number
    /// `pin_count` or the output values do not fit `new_p ≤ p`; else `EncodingError` when a
    /// pin scalar is not in `[0, p)` or the output sets do not partition `[0, p)`.
    pub fn validate(&self) -> (r: Result<(), GadgetError>)
        ensures
            r == Ok::<(), GadgetError>(()) <==> self.wf(),
            r == Err::<(), GadgetError>(GadgetError::ParameterError) <==> !self.params_ok(),
            r == Err::<(), GadgetError>(GadgetError::EncodingError) <==> (self.params_ok()
                && !self.wf()),
    {
        if self.p < 2 || self.p == u32::MAX || self.input_mappings_1.len() != self.pin_count || self.new_p < 1
            || self.new_p > self.p || self.new_0 >= self.new_p || self.new_1 >= self.new_p {
            return Err(GadgetError::ParameterError);
        }
        let p = self.p;
        if !all_below_exec(&self.input_mappings_1, p) || !all_below_exec(
            &self.output_encodings_0,
            p,
        ) || !all_below_exec(&self.output_encodings_1, p) {
            return Err(GadgetError::EncodingError);
        }
        let mut s: u32 = 0;
        while s < p
            invariant
                p == self.p,
                self.params_ok(),
                all_below(self.input_mappings_1@, p as int),
                all_below(self.output_encodings_0@, p as int),
                all_below(self.output_encodings_1@, p as int),
                s <= p,
                forall|t: u32|
                    t < s ==> (self.output_encodings_0@.contains(t)
                        != self.output_encodings_1@.contains(t)),
            decreases p - s,
        {
            if contains(&self.output_encodings_0, s) == contains(&self.output_encodings_1, s) {
                return Err(GadgetError::EncodingError);
            }
            s = s + 1;
        }
        Ok(())
    }

    /// The accumulator: `p + 1` entries, see `acc_entry`.
    pub fn create_accumulator(&self) -> (r: Vec<u32>)
        requires
            self.acc_ok(),
        ensures
            r@.len() == self.p + 1,
            forall|i: int| 0 <= i <= self.p ==> r@[i] == #[trigger] self.acc_entry(i),
            self.params_ok() ==> forall|i: int| 0 <= i <= self.p ==> r@[i] < self.p,
    {
        let p = self.p as usize;
        let mut acc = vec![0u32; p + 1];
        let new_0 = self.new_0;
        let new_1 = self.new_1;
        let half = (p + 1) / 2;
        let mut i: usize = 0;
        while i < half
            invariant
                self.acc_ok(),
                p == self.p,
                half == (p + 1) / 2,
                new_0 == self.new_0,
                new_1 == self.new_1,
                i <= half,
                acc@.len() == p + 1,
                forall|j: int| 0 <= j < 2 * i ==> acc@[j] == #[trigger] self.acc_entry(j),
                forall|j: int| 2 * i <= j <= p ==> acc@[j] == 0,
            decreases half - i,
        {
            let alpha = i;
            if contains(&self.output_encodings_0, alpha as u32) {
                acc.set(2 * i, new_0);
            } else {
                acc.set(2 * i, new_1);
            }
            let beta = (alpha + half) % p;
            let out = if contains(&self.output_encodings_0, beta as u32) {
                new_0
            } else {
                new_1
            };
            acc.set(2 * i + 1, (self.new_p - out) % self.new_p);
            proof {
                assert(self.acc_entry(2 * i as int) == self.output_of(i as int));
                assert(self.acc_entry(2 * i + 1) == ((self.new_p - self.output_of(
                    beta as int,
                )) % (self.new_p as int)) as u32);
                assert forall|j: int| 0 <= j < 2 * (i + 1) implies acc@[j] == #[trigger] self.acc_entry(j) by {
                    if j >= 2 * i {
                        assert(j == 2 * i || j == 2 * i + 1);
                    }
                }
            }
            i = i + 1;
        }
        proof {
            assert forall|j: int| 0 <= j <= self.p implies acc@[j] == #[trigger] self.acc_entry(j) by {
                if j >= 2 * i {
                    assert(j == p && p % 2 == 0);
                }
            }
            if self.params_ok() {
                assert forall|j: int| 0 <= j <= self.p implies acc@[j] < self.p by {
                    assert(acc@[j] == self.acc_entry(j));
                }
            }
        }
        acc
    }

    /// The truth table the encoding was made for.
    pub fn tt_value(&self) -> (r: u128)
        ensures
            r == self.tt_value,
    {
        self.tt_value
    }

    /// The plaintext modulus.
    pub fn p(&self) -> (r: u32)
        ensures
            r == self.p,
    {
        self.p
    }
}

} // verus!
