//! Two-input Boolean gates over ℤ_3, with the encoding 0 → 1 and 1 → 2 on every wire, so
//! that negation is a free additive inverse.

use crate::ciphertext::Ciphertext;
use crate::client_key::ClientKey;
use crate::encoding::Encoding;
use crate::engine::{decryptable, decryption, lwe_fits, refresh_spec, GadgetEngine};
use crate::error::GadgetError;
use crate::lwe::{encrypts_near, LweCiphertext};
use crate::random::noise_bound;
use crate::plaintext::{encode, encode_spec, tmod};
use crate::server_key::ServerKey;
use vstd::prelude::*;

verus! {

/// Plaintext modulus of every Boolean gate.
pub const BOOLEAN_PLAINTEXT_MODULUS: u32 = 3;

/// The value in ℤ_3 that stands for true.
pub const BOOLEAN_MESSAGE_TRUE: u32 = 2;

/// The value in ℤ_3 that stands for false.
pub const BOOLEAN_MESSAGE_FALSE: u32 = 1;

/// The two-input gates.
#[derive(Clone, Copy, Debug, PartialEq, Eq)]
pub enum BooleanGate {
    And,
    Nand,
    Or,
    Nor,
    Xor,
}

/// The Boolean function of a gate.
pub open spec fn gate_fn(gate: BooleanGate, lhs: bool, rhs: bool) -> bool {
    match gate {
        BooleanGate::And => lhs && rhs,
        BooleanGate::Nand => !(lhs && rhs),
        BooleanGate::Or => lhs || rhs,
        BooleanGate::Nor => !(lhs || rhs),
        BooleanGate::Xor => lhs != rhs,
    }
}

/// Evaluates a gate on clear bits.
pub fn apply_gate(gate: BooleanGate, lhs: bool, rhs: bool) -> (r: bool)
    ensures
        r == gate_fn(gate, lhs, rhs),
{
    match gate {
        BooleanGate::And => lhs && rhs,
        BooleanGate::Nand => !(lhs && rhs),
        BooleanGate::Or => lhs || rhs,
        BooleanGate::Nor => !(lhs || rhs),
        BooleanGate::Xor => lhs != rhs,
    }
}

/// The 0-set of a gate kind: the sums (2 for false, false; 0 for one true; 1 for true, true)
/// on which that kind of gate is false.
pub open spec fn boolean_outputs_0(gate: BooleanGate) -> Seq<u32> {
    match gate {
        BooleanGate::And => seq![0u32, 2],
        BooleanGate::Nand => seq![1u32],
        BooleanGate::Or => seq![2u32],
        BooleanGate::Nor => seq![0u32, 1],
        BooleanGate::Xor => seq![1u32, 2],
    }
}

/// `e` is the encoding of gate kind `gate` in every field that a bootstrap reads.
pub open spec fn is_boolean_encoding(e: Encoding, gate: BooleanGate) -> bool {
    &&& e.p == BOOLEAN_PLAINTEXT_MODULUS
    &&& e.new_p == BOOLEAN_PLAINTEXT_MODULUS
    &&& e.pin_count == 2
    &&& e.new_0 == BOOLEAN_MESSAGE_FALSE
    &&& e.new_1 == BOOLEAN_MESSAGE_TRUE
    &&& e.output_encodings_0@ == boolean_outputs_0(gate)
}

/// The encoding of a gate kind: the sum of two wires is 2 (false, false), 0 (one true) or 1
/// (true, true), and the output sets give the value of each gate kind.
pub fn boolean_encoding(gate: BooleanGate) -> (r: Encoding)
    ensures
        r.p == BOOLEAN_PLAINTEXT_MODULUS,
        r.pin_count == 2,
        r.new_0 == BOOLEAN_MESSAGE_FALSE,
        r.new_1 == BOOLEAN_MESSAGE_TRUE,
        is_boolean_encoding(r, gate),
{
    let (out0, out1) = match gate {
        BooleanGate::And => (words(0, Some(2)), words(1, None)),
        BooleanGate::Nand => (words(1, None), words(0, Some(2))),
        BooleanGate::Or => (words(2, None), words(0, Some(1))),
        BooleanGate::Nor => (words(0, Some(1)), words(2, None)),
        BooleanGate::Xor => (words(1, Some(2)), words(0, None)),
    };
    Encoding::new(
        8,
        2,
        vec![BOOLEAN_MESSAGE_FALSE; 2],
        vec![BOOLEAN_MESSAGE_TRUE; 2],
        out0,
        out1,
        BOOLEAN_MESSAGE_FALSE,
        BOOLEAN_MESSAGE_TRUE,
        BOOLEAN_PLAINTEXT_MODULUS,
        BOOLEAN_PLAINTEXT_MODULUS,
    )
}

/// The list of one or two words.
fn words(a: u32, b: Option<u32>) -> (r: Vec<u32>)
    ensures
        r@ == match b {
            Some(x) => seq![a, x],
            None => seq![a],
        },
{
    let mut v: Vec<u32> = Vec::new();
    v.push(a);
    if let Some(x) = b {
        v.push(x);
    }
    proof {
        match b {
            Some(x) => assert(v@ =~= seq![a, x]),
            None => assert(v@ =~= seq![a]),
        }
    }
    v
}

/// The plaintext of a clear bit: `encode(2)` for true, `encode(1)` for false.
pub fn boolean_plaintext(b: bool) -> (r: u32)
    ensures
        r as int == encode_spec(
            if b {
                BOOLEAN_MESSAGE_TRUE as int
            } else {
                BOOLEAN_MESSAGE_FALSE as int
            },
            BOOLEAN_PLAINTEXT_MODULUS as int,
        ),
{
    if b {
        encode(BOOLEAN_MESSAGE_TRUE, BOOLEAN_PLAINTEXT_MODULUS)
    } else {
        encode(BOOLEAN_MESSAGE_FALSE, BOOLEAN_PLAINTEXT_MODULUS)
    }
}

/// The LWE ciphertext of `size` words that a gate bootstraps for two wires: the word-wise
/// sum of two encrypted wires, or an encrypted wire with the plaintext of a clear one added
/// to its body.
pub open spec fn wire_sum(lhs: Ciphertext, rhs: Ciphertext, size: int) -> Seq<u32> {
    match (lhs, rhs) {
        (Ciphertext::Encrypted(a), Ciphertext::Encrypted(b)) => Seq::new(
            size as nat,
            |t: int| tmod(a.data@[t] + b.data@[t]) as u32,
        ),
        (Ciphertext::Encrypted(a), Ciphertext::Trivial(b)) | (
            Ciphertext::Trivial(b),
            Ciphertext::Encrypted(a),
        ) => Seq::new(
            size as nat,
            |t: int|
                if t == size - 1 {
                    tmod(
                        a.data@[t] + encode_spec(
                            if b {
                                BOOLEAN_MESSAGE_TRUE as int
                            } else {
                                BOOLEAN_MESSAGE_FALSE as int
                            },
                            3,
                        ),
                    ) as u32
                } else {
                    a.data@[t]
                },
        ),
        _ => Seq::empty(),
    }
}

impl ServerKey {
    /// Evaluates `gate` on two wires: two clear bits give the clear result; otherwise the
    /// sum of the two wires (a clear bit added as its plaintext) is bootstrapped.
    /// `ParameterError` when an encrypted wire has the wrong size.
    pub fn boolean_gate(&self, gate: BooleanGate, lhs: &Ciphertext, rhs: &Ciphertext) -> (r:
        Result<Ciphertext, GadgetError>)
        requires
            self.wf(),
        ensures
            (*lhs, *rhs) matches (Ciphertext::Trivial(a), Ciphertext::Trivial(b)) ==> r == Ok::<
                Ciphertext,
                GadgetError,
            >(Ciphertext::Trivial(gate_fn(gate, a, b))),
            (lhs is Encrypted || rhs is Encrypted) ==> (r matches Ok(o) ==> o matches Ciphertext::Encrypted(c) && lwe_fits(
                c,
                self.parameters,
            )),
            r matches Ok(Ciphertext::Encrypted(c)) ==> exists|e: Encoding|
                #[trigger] is_boolean_encoding(e, gate) && c.data@ == refresh_spec(
                    *self,
                    wire_sum(*lhs, *rhs, self.parameters.lwe_dimension + 1),
                    e,
                ),
    {
        let encoding = boolean_encoding(gate);
        let size = self.parameters.lwe_dimension + 1;
        match (lhs, rhs) {
            (Ciphertext::Encrypted(lwe_lhs), Ciphertext::Encrypted(lwe_rhs)) => {
                if lwe_lhs.data.len() != size || lwe_rhs.data.len() != size {
                    return Err(GadgetError::ParameterError);
                }
                let mut sum = LweCiphertext::new_zero(size);
                sum.add_assign(lwe_lhs);
                let ghost first = sum.data@;
                sum.add_assign(lwe_rhs);
                proof {
                    let ws = wire_sum(*lhs, *rhs, size as int);
                    assert forall|t: int| 0 <= t < size implies sum.data@[t] == ws[t] by {
                        assert(first[t] as int == tmod(0 + lwe_lhs.data@[t]));
                        vstd::arithmetic::div_mod::lemma_fundamental_div_mod_converse(
                            lwe_lhs.data@[t] as int,
                            0x1_0000_0000,
                            0,
                            lwe_lhs.data@[t] as int,
                        );
                    }
                    assert(sum.data@ =~= ws);
                }
                self.bootstrap(Ciphertext::Encrypted(sum), &encoding)
            },
            (Ciphertext::Encrypted(lwe), Ciphertext::Trivial(b)) | (
                Ciphertext::Trivial(b),
                Ciphertext::Encrypted(lwe),
            ) => {
                if lwe.data.len() != size {
                    return Err(GadgetError::ParameterError);
                }
                let mut sum = LweCiphertext { data: copy_words(&lwe.data) };
                sum.plaintext_add_assign(boolean_plaintext(*b));
                proof {
                    let ws = wire_sum(*lhs, *rhs, size as int);
                    assert forall|t: int| 0 <= t < size implies sum.data@[t] == ws[t] by {
                    }
                    assert(sum.data@ =~= ws);
                }
                self.bootstrap(Ciphertext::Encrypted(sum), &encoding)
            },
            (Ciphertext::Trivial(a), Ciphertext::Trivial(b)) => Ok(
                Ciphertext::Trivial(apply_gate(gate, *a, *b)),
            ),
        }
    }

    /// AND of two wires.
    pub fn and(&self, lhs: &Ciphertext, rhs: &Ciphertext) -> (r: Result<Ciphertext, GadgetError>)
        requires
            self.wf(),
        ensures
            (*lhs, *rhs) matches (Ciphertext::Trivial(a), Ciphertext::Trivial(b)) ==> r == Ok::<
                Ciphertext,
                GadgetError,
            >(Ciphertext::Trivial(a && b)),
            r matches Ok(Ciphertext::Encrypted(c)) ==> exists|e: Encoding|
                #[trigger] is_boolean_encoding(e, BooleanGate::And) && c.data@ == refresh_spec(
                    *self,
                    wire_sum(*lhs, *rhs, self.parameters.lwe_dimension + 1),
                    e,
                ),
    {
        self.boolean_gate(BooleanGate::And, lhs, rhs)
    }

    /// NAND of two wires.
    pub fn nand(&self, lhs: &Ciphertext, rhs: &Ciphertext) -> (r: Result<Ciphertext, GadgetError>)
        requires
            self.wf(),
        ensures
            (*lhs, *rhs) matches (Ciphertext::Trivial(a), Ciphertext::Trivial(b)) ==> r == Ok::<
                Ciphertext,
                GadgetError,
            >(Ciphertext::Trivial(!(a && b))),
            r matches Ok(Ciphertext::Encrypted(c)) ==> exists|e: Encoding|
                #[trigger] is_boolean_encoding(e, BooleanGate::Nand) && c.data@ == refresh_spec(
                    *self,
                    wire_sum(*lhs, *rhs, self.parameters.lwe_dimension + 1),
                    e,
                ),
    {
        self.boolean_gate(BooleanGate::Nand, lhs, rhs)
    }

    /// OR of two wires.
    pub fn or(&self, lhs: &Ciphertext, rhs: &Ciphertext) -> (r: Result<Ciphertext, GadgetError>)
        requires
            self.wf(),
        ensures
            (*lhs, *rhs) matches (Ciphertext::Trivial(a), Ciphertext::Trivial(b)) ==> r == Ok::<
                Ciphertext,
                GadgetError,
            >(Ciphertext::Trivial(a || b)),
            r matches Ok(Ciphertext::Encrypted(c)) ==> exists|e: Encoding|
                #[trigger] is_boolean_encoding(e, BooleanGate::Or) && c.data@ == refresh_spec(
                    *self,
                    wire_sum(*lhs, *rhs, self.parameters.lwe_dimension + 1),
                    e,
                ),
    {
        self.boolean_gate(BooleanGate::Or, lhs, rhs)
    }

    /// NOR of two wires.
    pub fn nor(&self, lhs: &Ciphertext, rhs: &Ciphertext) -> (r: Result<Ciphertext, GadgetError>)
        requires
            self.wf(),
        ensures
            (*lhs, *rhs) matches (Ciphertext::Trivial(a), Ciphertext::Trivial(b)) ==> r == Ok::<
                Ciphertext,
                GadgetError,
            >(Ciphertext::Trivial(!(a || b))),
            r matches Ok(Ciphertext::Encrypted(c)) ==> exists|e: Encoding|
                #[trigger] is_boolean_encoding(e, BooleanGate::Nor) && c.data@ == refresh_spec(
                    *self,
                    wire_sum(*lhs, *rhs, self.parameters.lwe_dimension + 1),
                    e,
                ),
    {
        self.boolean_gate(BooleanGate::Nor, lhs, rhs)
    }

    /// XOR of two wires.
    pub fn xor(&self, lhs: &Ciphertext, rhs: &Ciphertext) -> (r: Result<Ciphertext, GadgetError>)
        requires
            self.wf(),
        ensures
            (*lhs, *rhs) matches (Ciphertext::Trivial(a), Ciphertext::Trivial(b)) ==> r == Ok::<
                Ciphertext,
                GadgetError,
            >(Ciphertext::Trivial(a != b)),
            r matches Ok(Ciphertext::Encrypted(c)) ==> exists|e: Encoding|
                #[trigger] is_boolean_encoding(e, BooleanGate::Xor) && c.data@ == refresh_spec(
                    *self,
                    wire_sum(*lhs, *rhs, self.parameters.lwe_dimension + 1),
                    e,
                ),
    {
        self.boolean_gate(BooleanGate::Xor, lhs, rhs)
    }

    /// NOT of a wire, without bootstrap: the negation of an encrypted wire maps 1 to 2 and
    /// 2 to 1 in ℤ_3.
    pub fn not(&self, input: &Ciphertext) -> (r: Ciphertext)
        ensures
            *input matches Ciphertext::Trivial(b) ==> r == Ciphertext::Trivial(!b),
            *input matches Ciphertext::Encrypted(c) ==> r matches Ciphertext::Encrypted(o)
                && o.data@.len() == c.data@.len() && forall|i: int|
                0 <= i < c.data@.len() ==> o.data@[i] as int == crate::plaintext::tmod(
                    -c.data@[i],
                ),
    {
        match input {
            Ciphertext::Encrypted(lwe_input) => {
                let mut negated = LweCiphertext { data: copy_words(&lwe_input.data) };
                negated.opposite_assign();
                Ciphertext::Encrypted(negated)
            },
            Ciphertext::Trivial(b) => Ciphertext::Trivial(!*b),
        }
    }
}

/// A copy of `v`.
pub fn copy_words(v: &Vec<u32>) -> (r: Vec<u32>)
    ensures
        r@ == v@,
{
    let mut r: Vec<u32> = Vec::with_capacity(v.len());
    let mut i: usize = 0;
    while i < v.len()
        invariant
            i <= v@.len(),
            r@ == v@.subrange(0, i as int),
        decreases v@.len() - i,
    {
        r.push(v[i]);
        proof {
            assert(r@ =~= v@.subrange(0, i + 1));
        }
        i = i + 1;
    }
    proof {
        assert(r@ =~= v@);
    }
    r
}

impl ClientKey {
    /// Encrypts a bit: true as 2 and false as 1 in ℤ_3.
    pub fn encrypt(&self, engine: &mut GadgetEngine, message: bool) -> (r: Result<Ciphertext, GadgetError>)
        requires
            self.wf(),
        ensures
            r matches Ok(ct) ==> ct is Encrypted && decryptable(ct, *self),
            r matches Ok(Ciphertext::Encrypted(c)) ==> encrypts_near(
                c.data@,
                self.lwe_secret_key@,
                encode_spec(
                    if message {
                        BOOLEAN_MESSAGE_TRUE as int
                    } else {
                        BOOLEAN_MESSAGE_FALSE as int
                    },
                    BOOLEAN_PLAINTEXT_MODULUS as int,
                ),
                noise_bound(self.parameters.lwe_modular_std_dev as int),
            ),
            r is Err ==> r == Err::<Ciphertext, GadgetError>(GadgetError::InternalError),
    {
        let m = if message {
            BOOLEAN_MESSAGE_TRUE
        } else {
            BOOLEAN_MESSAGE_FALSE
        };
        engine.encrypt(m, self, BOOLEAN_PLAINTEXT_MODULUS)
    }

    /// Decrypts a bit: 2 in ℤ_3 is true and 1 is false; `None` when the ciphertext decrypts
    /// to 0, which stands for neither.
    pub fn decrypt(&self, engine: &GadgetEngine, ct: &Ciphertext) -> (r: Option<bool>)
        requires
            decryptable(*ct, *self),
        ensures
            ct is Encrypted ==> (r == Some(true) <==> decryption(*ct, *self, 3) == 2),
            ct is Encrypted ==> (r == Some(false) <==> decryption(*ct, *self, 3) == 1),
            *ct matches Ciphertext::Trivial(b) ==> r == Some(b),
    {
        match ct {
            Ciphertext::Trivial(b) => Some(*b),
            Ciphertext::Encrypted(_) => {
                let message = engine.decrypt(ct, self, BOOLEAN_PLAINTEXT_MODULUS);
                if message == BOOLEAN_MESSAGE_FALSE {
                    Some(false)
                } else if message == BOOLEAN_MESSAGE_TRUE {
                    Some(true)
                } else {
                    None
                }
            },
        }
    }
}

} // verus!
