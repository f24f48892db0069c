use gadget_fhe::boolean::{apply_gate, boolean_encoding, BooleanGate};
use gadget_fhe::ciphertext::Ciphertext;
use gadget_fhe::client_key::ClientKey;
use gadget_fhe::engine::GadgetEngine;
use gadget_fhe::gen_keys;
use gadget_fhe::parameters::GadgetParameters;
use gadget_fhe::random::CsRng;
use gadget_fhe::server_key::ServerKey;

fn boolean_parameters() -> GadgetParameters {
    GadgetParameters::new(16, 1, 64, 256, 4, 10, 2, 4, 5)
}

fn setup(seed: u128) -> (GadgetEngine, ClientKey, ServerKey) {
    let mut engine = GadgetEngine::new(seed).unwrap();
    let (client_key, server_key) = gen_keys(&boolean_parameters(), &mut engine).unwrap();
    (engine, client_key, server_key)
}

fn random_boolean(rng: &mut CsRng) -> bool {
    rng.next_u8().unwrap() % 2 != 0
}

fn check_gate(gate: BooleanGate, seed: u128) {
    let (mut engine, client_key, server_key) = setup(seed);
    let mut rng = CsRng::new(seed + 1000);
    for _ in 0..128 {
        let lhs = random_boolean(&mut rng);
        let rhs = random_boolean(&mut rng);
        let expected = apply_gate(gate, lhs, rhs);

        let lhs_ct = client_key.encrypt(&mut engine, lhs).unwrap();
        let rhs_ct = client_key.encrypt(&mut engine, rhs).unwrap();
        let out = server_key.boolean_gate(gate, &lhs_ct, &rhs_ct).unwrap();
        assert_eq!(client_key.decrypt(&engine, &out), Some(expected), "left: {lhs}, right: {rhs}");

        // Ciphertext lhs, Trivial rhs
        let lhs_ct = client_key.encrypt(&mut engine, lhs).unwrap();
        let out = server_key.boolean_gate(gate, &lhs_ct, &Ciphertext::Trivial(rhs)).unwrap();
        assert_eq!(client_key.decrypt(&engine, &out), Some(expected), "left: {lhs}, right: {rhs}");

        // Trivial lhs, Ciphertext rhs
        let rhs_ct = client_key.encrypt(&mut engine, rhs).unwrap();
        let out = server_key.boolean_gate(gate, &Ciphertext::Trivial(lhs), &rhs_ct).unwrap();
        assert_eq!(client_key.decrypt(&engine, &out), Some(expected), "left: {lhs}, right: {rhs}");
    }
}

#[test]
fn test_and_gate() {
    let (mut engine, client_key, server_key) = setup(1);
    let mut rng = CsRng::new(2);
    for _ in 0..128 {
        let lhs = random_boolean(&mut rng);
        let rhs = random_boolean(&mut rng);
        let expected_out_bool = lhs && rhs;

        let lhs_ct = client_key.encrypt(&mut engine, lhs).unwrap();
        let rhs_ct = client_key.encrypt(&mut engine, rhs).unwrap();
        let out_ct = server_key.and(&lhs_ct, &rhs_ct).unwrap();
        let out_bool = client_key.decrypt(&engine, &out_ct).unwrap();
        assert_eq!(out_bool, expected_out_bool, "left: {lhs}, right: {rhs}");

        // Ciphertext lhs, Trivial rhs
        let lhs_ct = client_key.encrypt(&mut engine, lhs).unwrap();
        let out_ct = server_key.and(&lhs_ct, &Ciphertext::Trivial(rhs)).unwrap();
        let out_bool = client_key.decrypt(&engine, &out_ct).unwrap();
        assert_eq!(out_bool, expected_out_bool, "left: {lhs}, right: {rhs}");

        // Trivial lhs, Ciphertext rhs
        let rhs_ct = client_key.encrypt(&mut engine, rhs).unwrap();
        let out_ct = server_key.and(&Ciphertext::Trivial(lhs), &rhs_ct).unwrap();
        let out_bool = client_key.decrypt(&engine, &out_ct).unwrap();
        assert_eq!(out_bool, expected_out_bool, "left: {lhs}, right: {rhs}");
    }
}

#[test]
fn test_or_gate() {
    let (mut engine, client_key, server_key) = setup(3);
    let mut rng = CsRng::new(4);
    for _ in 0..128 {
        let lhs = random_boolean(&mut rng);
        let rhs = random_boolean(&mut rng);
        let expected_out_bool = lhs || rhs;

        let lhs_ct = client_key.encrypt(&mut engine, lhs).unwrap();
        let rhs_ct = client_key.encrypt(&mut engine, rhs).unwrap();
        let out_ct = server_key.or(&lhs_ct, &rhs_ct).unwrap();
        let out_bool = client_key.decrypt(&engine, &out_ct).unwrap();
        assert_eq!(out_bool, expected_out_bool, "left: {lhs}, right: {rhs}");

        // Ciphertext lhs, Trivial rhs
        let lhs_ct = client_key.encrypt(&mut engine, lhs).unwrap();
        let out_ct = server_key.or(&lhs_ct, &Ciphertext::Trivial(rhs)).unwrap();
        let out_bool = client_key.decrypt(&engine, &out_ct).unwrap();
        assert_eq!(out_bool, expected_out_bool, "left: {lhs}, right: {rhs}");

        // Trivial lhs, Ciphertext rhs
        let rhs_ct = client_key.encrypt(&mut engine, rhs).unwrap();
        let out_ct = server_key.or(&Ciphertext::Trivial(lhs), &rhs_ct).unwrap();
        let out_bool = client_key.decrypt(&engine, &out_ct).unwrap();
        assert_eq!(out_bool, expected_out_bool, "left: {lhs}, right: {rhs}");
    }
}

#[test]
fn test_and_then_or_gate() {
    let (mut engine, client_key, server_key) = setup(5);
    let mut rng = CsRng::new(6);
    // Helps test parameters are correct for repeated bootstrapping.
    let mut main_wire = random_boolean(&mut rng);
    let mut main_wire_ct = client_key.encrypt(&mut engine, main_wire).unwrap();
    for _ in 0..5 {
        let rhs = random_boolean(&mut rng);
        let rhs_ct = client_key.encrypt(&mut engine, rhs).unwrap();
        main_wire &= rhs;
        main_wire_ct = server_key.and(&main_wire_ct, &rhs_ct).unwrap();

        let rhs = random_boolean(&mut rng);
        let rhs_ct = client_key.encrypt(&mut engine, rhs).unwrap();
        main_wire |= rhs;
        main_wire_ct = server_key.or(&main_wire_ct, &rhs_ct).unwrap();
    }
    let out = client_key.decrypt(&engine, &main_wire_ct).unwrap();
    assert_eq!(out, main_wire);
}

#[test]
fn nand_nor_xor_gates() {
    check_gate(BooleanGate::Nand, 7);
    check_gate(BooleanGate::Nor, 9);
    check_gate(BooleanGate::Xor, 11);
}

#[test]
fn not_gate_negates() {
    let (mut engine, client_key, server_key) = setup(13);
    for b in [false, true] {
        let ct = client_key.encrypt(&mut engine, b).unwrap();
        let out = server_key.not(&ct);
        assert_eq!(client_key.decrypt(&engine, &out), Some(!b));
        assert!(matches!(server_key.not(&Ciphertext::Trivial(b)), Ciphertext::Trivial(x) if x == !b));
    }
}

#[test]
fn trivial_inputs_stay_clear() {
    let (_, _, server_key) = setup(15);
    for a in [false, true] {
        for b in [false, true] {
            let out = server_key.xor(&Ciphertext::Trivial(a), &Ciphertext::Trivial(b)).unwrap();
            assert!(matches!(out, Ciphertext::Trivial(x) if x == (a != b)));
            let out = server_key.nand(&Ciphertext::Trivial(a), &Ciphertext::Trivial(b)).unwrap();
            assert!(matches!(out, Ciphertext::Trivial(x) if x == !(a && b)));
            let out = server_key.nor(&Ciphertext::Trivial(a), &Ciphertext::Trivial(b)).unwrap();
            assert!(matches!(out, Ciphertext::Trivial(x) if x == !(a || b)));
        }
    }
}

#[test]
fn nand_and_nor_on_encrypted_wires() {
    let (mut engine, client_key, server_key) = setup(17);
    for (a, b) in [(false, false), (false, true), (true, false), (true, true)] {
        let ca = client_key.encrypt(&mut engine, a).unwrap();
        let cb = client_key.encrypt(&mut engine, b).unwrap();
        let nand = server_key.nand(&ca, &cb).unwrap();
        assert_eq!(client_key.decrypt(&engine, &nand), Some(!(a && b)));
        let nor = server_key.nor(&ca, &cb).unwrap();
        assert_eq!(client_key.decrypt(&engine, &nor), Some(!(a || b)));
        let xor = server_key.xor(&ca, &cb).unwrap();
        assert_eq!(client_key.decrypt(&engine, &xor), Some(a != b));
    }
}

#[test]
fn boolean_encodings_are_valid() {
    for gate in [BooleanGate::And, BooleanGate::Nand, BooleanGate::Or, BooleanGate::Nor, BooleanGate::Xor] {
        let encoding = boolean_encoding(gate);
        assert!(encoding.validate().is_ok());
        assert_eq!(encoding.p(), 3);
    }
}
