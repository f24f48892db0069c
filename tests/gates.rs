use gadget_fhe::ciphertext::Ciphertext;
use gadget_fhe::client_key::ClientKey;
use gadget_fhe::encoding::Encoding;
use gadget_fhe::engine::GadgetEngine;
use gadget_fhe::error::GadgetError;
use gadget_fhe::gen_keys;
use gadget_fhe::parameters::GadgetParameters;
use gadget_fhe::server_key::ServerKey;

fn small_parameters() -> GadgetParameters {
    GadgetParameters::new(16, 1, 512, 256, 4, 10, 2, 4, 5)
}

fn setup(seed: u128) -> (GadgetEngine, ClientKey, ServerKey) {
    let mut engine = GadgetEngine::new(seed).unwrap();
    let (client_key, server_key) = gen_keys(&small_parameters(), &mut engine).unwrap();
    (engine, client_key, server_key)
}

fn five_input_encoding() -> Encoding {
    Encoding::new_canonical(
        0xB9F4F5BA,
        5,
        vec![1, 2, 3, 7, 14],
        vec![0, 1, 5, 6, 8, 9, 11, 12, 16],
        vec![2, 3, 4, 7, 10, 13, 14, 15],
        17,
    )
}

fn six_input_encoding() -> Encoding {
    Encoding::new_canonical(
        3120627642,
        6,
        vec![1, 3, 20, 5, 18, 10],
        vec![0, 1, 3, 4, 6, 8, 9, 11, 13, 14, 16, 17, 18, 19, 21, 22],
        vec![2, 5, 7, 10, 12, 15, 20],
        23,
    )
}

/// The plaintext gate: pins scaled in reverse order, summed in ℤ_p, looked up in the partition.
fn expected_output(encoding: &Encoding, pins: &[u32]) -> u32 {
    let m = encoding.pin_count;
    let mut sum = 0u32;
    for i in 0..m {
        sum = (sum + encoding.input_mappings_1[m - 1 - i] * pins[i]) % encoding.p;
    }
    if encoding.output_encodings_0.contains(&sum) {
        0
    } else {
        1
    }
}

fn row_pins(row: u32, m: usize) -> Vec<u32> {
    (0..m).map(|i| (row >> i) & 1).collect()
}

fn encrypt_pins(engine: &mut GadgetEngine, ck: &ClientKey, pins: &[u32], p: u32) -> Vec<Ciphertext> {
    pins.iter().map(|b| engine.encrypt(*b, ck, p).unwrap()).collect()
}

#[test]
fn and_gate_two_pins() {
    let (mut engine, client_key, server_key) = setup(7);
    let encoding = Encoding::new_canonical(8, 2, vec![1, 1], vec![0, 1], vec![2], 3);
    for a in 0..2u32 {
        for b in 0..2u32 {
            let ca = engine.encrypt(a, &client_key, 3).unwrap();
            let cb = engine.encrypt(b, &client_key, 3).unwrap();
            let out = engine.evaluate_gate(&server_key, &encoding, &vec![ca, cb]).unwrap();
            assert!(matches!(out, Ciphertext::Encrypted(_)));
            assert_eq!(engine.decrypt(&out, &client_key, 3), a & b, "a={a} b={b}");
        }
    }
}

#[test]
fn five_input_gate_all_rows() {
    let (mut engine, client_key, server_key) = setup(11);
    let encoding = five_input_encoding();
    for row in 0..32u32 {
        let pins = row_pins(row, 5);
        let inputs = encrypt_pins(&mut engine, &client_key, &pins, 17);
        let out = engine.evaluate_gate(&server_key, &encoding, &inputs).unwrap();
        let bit = engine.decrypt(&out, &client_key, 17);
        assert_eq!(bit, expected_output(&encoding, &pins), "row {row}");
    }
}

#[test]
fn six_input_gate_matches_truth_table() {
    let (mut engine, client_key, server_key) = setup(13);
    let encoding = six_input_encoding();
    for row in 0..64u32 {
        let pins = row_pins(row, 6);
        let inputs = encrypt_pins(&mut engine, &client_key, &pins, 23);
        let out = engine.evaluate_gate(&server_key, &encoding, &inputs).unwrap();
        let bit = engine.decrypt(&out, &client_key, 23);
        assert_eq!(bit as u128, (encoding.tt_value() >> row) & 1, "row {row}");
    }
}

#[test]
fn two_gate_composition() {
    let (mut engine, client_key, server_key) = setup(17);
    let encoding = six_input_encoding();
    let rows = [5u32, 42, 63, 0, 17, 38, 9, 50, 27, 33, 12, 61];
    for trial in 0..2 {
        let mut second_inputs = Vec::new();
        let mut second_pins = Vec::new();
        for g in 0..6 {
            let pins = row_pins(rows[(trial * 6 + g) % rows.len()], 6);
            let inputs = encrypt_pins(&mut engine, &client_key, &pins, 23);
            let out = engine.evaluate_gate(&server_key, &encoding, &inputs).unwrap();
            let expected = expected_output(&encoding, &pins);
            assert_eq!(engine.decrypt(&out, &client_key, 23), expected);
            second_inputs.push(out);
            second_pins.push(expected);
        }
        let out = engine.evaluate_gate(&server_key, &encoding, &second_inputs).unwrap();
        assert_eq!(
            engine.decrypt(&out, &client_key, 23),
            expected_output(&encoding, &second_pins)
        );
    }
}

#[test]
fn trivial_and_encrypted_inputs_agree() {
    let (mut engine, client_key, server_key) = setup(19);
    let encoding = five_input_encoding();
    for row in [3u32, 10, 21, 31] {
        let pins = row_pins(row, 5);
        let expected = expected_output(&encoding, &pins);
        for trivial_pin in 0..5 {
            let mut inputs = encrypt_pins(&mut engine, &client_key, &pins, 17);
            inputs[trivial_pin] = Ciphertext::Trivial(pins[trivial_pin] == 1);
            let out = engine.evaluate_gate(&server_key, &encoding, &inputs).unwrap();
            assert_eq!(engine.decrypt(&out, &client_key, 17), expected, "row {row}");
        }
        let all_trivial: Vec<Ciphertext> = pins.iter().map(|b| Ciphertext::Trivial(*b == 1)).collect();
        let out = engine.evaluate_gate(&server_key, &encoding, &all_trivial).unwrap();
        assert_eq!(engine.decrypt(&out, &client_key, 17), expected, "row {row}");
    }
}

#[test]
fn arena_reuse_gives_same_ciphertexts() {
    let (mut engine, client_key, server_key) = setup(23);
    let five = five_input_encoding();
    let six = six_input_encoding();
    let and = Encoding::new_canonical(8, 2, vec![1, 1], vec![0, 1], vec![2], 3);
    let pins6 = row_pins(45, 6);
    let pins5 = row_pins(13, 5);
    let inputs6 = encrypt_pins(&mut engine, &client_key, &pins6, 23);
    let inputs5 = encrypt_pins(&mut engine, &client_key, &pins5, 17);
    let inputs2 = encrypt_pins(&mut engine, &client_key, &[1, 1], 3);
    // One engine, several evaluations in a row.
    let a = engine.evaluate_gate(&server_key, &six, &inputs6).unwrap();
    let b = engine.evaluate_gate(&server_key, &and, &inputs2).unwrap();
    let c = engine.evaluate_gate(&server_key, &five, &inputs5).unwrap();
    let d = engine.evaluate_gate(&server_key, &six, &inputs6).unwrap();
    // Each evaluation in scratch space of its own.
    let a1 = server_key.evaluate_gate(inputs6.clone(), &six).unwrap();
    let b1 = server_key.evaluate_gate(inputs2.clone(), &and).unwrap();
    let c1 = server_key.evaluate_gate(inputs5.clone(), &five).unwrap();
    for (x, y) in [(&a, &a1), (&b, &b1), (&c, &c1), (&d, &a1)] {
        match (x, y) {
            (Ciphertext::Encrypted(x), Ciphertext::Encrypted(y)) => assert_eq!(x, y),
            _ => panic!("expected encrypted outputs"),
        }
    }
    assert_eq!(engine.decrypt(&a, &client_key, 23), expected_output(&six, &pins6));
    assert_eq!(engine.decrypt(&b, &client_key, 3), 1);
    assert_eq!(engine.decrypt(&c, &client_key, 17), expected_output(&five, &pins5));
}

#[test]
fn bootstrap_is_a_lookup() {
    let (mut engine, client_key, server_key) = setup(29);
    let encoding = five_input_encoding();
    for m in 0..17u32 {
        let ct = engine.encrypt(m, &client_key, 17).unwrap();
        let out = server_key.bootstrap(ct, &encoding).unwrap();
        let bit = engine.decrypt(&out, &client_key, 17);
        let expected = if encoding.output_encodings_0.contains(&m) { 0 } else { 1 };
        assert_eq!(bit, expected, "m={m}");
    }
}

#[test]
fn bootstrap_of_trivial_input_is_its_lookup() {
    let (mut engine, client_key, server_key) = setup(31);
    let encoding = five_input_encoding();
    // 1 lies in the 0-set, 0 too: both look up to 0
    let out = engine.bootstrap(Ciphertext::Trivial(true), &server_key, &encoding).unwrap();
    assert!(matches!(out, Ciphertext::Trivial(false)));
    assert_eq!(engine.decrypt(&out, &client_key, 17), 0);
    let and = Encoding::new_canonical(8, 2, vec![1, 1], vec![0, 2], vec![1], 3);
    let out = server_key.bootstrap(Ciphertext::Trivial(true), &and).unwrap();
    assert!(matches!(out, Ciphertext::Trivial(true)));
    let bad = Encoding::new_canonical(8, 2, vec![1, 1], vec![0, 1], vec![1, 2], 3);
    assert_eq!(
        server_key.bootstrap(Ciphertext::Trivial(true), &bad).unwrap_err(),
        GadgetError::EncodingError
    );
}

#[test]
fn encrypt_decrypt_round_trip() {
    let (mut engine, client_key, _) = setup(37);
    for p in [2u32, 3, 5, 17, 23] {
        for trial in 0..128u32 {
            let m = trial % p;
            let ct = engine.encrypt(m, &client_key, p).unwrap();
            assert_eq!(engine.decrypt(&ct, &client_key, p), m, "p={p} m={m}");
        }
    }
}

#[test]
fn encrypt_rejects_message_out_of_range() {
    let (mut engine, client_key, _) = setup(41);
    assert_eq!(engine.encrypt(5, &client_key, 5).unwrap_err(), GadgetError::ParameterError);
    assert_eq!(engine.encrypt(0, &client_key, 1).unwrap_err(), GadgetError::ParameterError);
}

#[test]
fn gate_rejects_wrong_pin_count() {
    let (mut engine, client_key, server_key) = setup(43);
    let encoding = five_input_encoding();
    let inputs = encrypt_pins(&mut engine, &client_key, &[1, 0, 1], 17);
    assert_eq!(
        engine.evaluate_gate(&server_key, &encoding, &inputs).unwrap_err(),
        GadgetError::ParameterError
    );
}

#[test]
fn gate_rejects_bad_partition() {
    let (mut engine, client_key, server_key) = setup(47);
    let overlapping = Encoding::new_canonical(8, 2, vec![1, 1], vec![0, 1], vec![1, 2], 3);
    let inputs = encrypt_pins(&mut engine, &client_key, &[1, 1], 3);
    assert_eq!(
        engine.evaluate_gate(&server_key, &overlapping, &inputs).unwrap_err(),
        GadgetError::EncodingError
    );
    let missing = Encoding::new_canonical(8, 2, vec![1, 1], vec![0], vec![2], 3);
    assert_eq!(
        server_key.evaluate_gate(inputs, &missing).unwrap_err(),
        GadgetError::EncodingError
    );
}

#[test]
fn gate_rejects_modulus_too_large_for_polynomial() {
    let mut engine = GadgetEngine::new(53).unwrap();
    let params = GadgetParameters::new(8, 1, 16, 256, 4, 10, 2, 4, 5);
    let (client_key, server_key) = gen_keys(&params, &mut engine).unwrap();
    let encoding = five_input_encoding();
    let inputs = encrypt_pins(&mut engine, &client_key, &[1, 0, 1, 0, 1], 17);
    assert_eq!(
        engine.evaluate_gate(&server_key, &encoding, &inputs).unwrap_err(),
        GadgetError::ParameterError
    );
    let small_p = Encoding::new_canonical(0, 1, vec![1], vec![0], vec![1], 1);
    let ct = engine.encrypt(1, &client_key, 2).unwrap();
    assert_eq!(server_key.bootstrap(ct, &small_p).unwrap_err(), GadgetError::ParameterError);
}

#[test]
fn key_generation_rejects_bad_parameters() {
    let mut engine = GadgetEngine::new(59).unwrap();
    let not_power_of_two = GadgetParameters::new(16, 1, 48, 256, 4, 10, 2, 4, 5);
    assert_eq!(
        gen_keys(&not_power_of_two, &mut engine).unwrap_err(),
        GadgetError::ParameterError
    );
    let too_many_bits = GadgetParameters::new(16, 1, 64, 256, 4, 10, 4, 4, 5);
    assert_eq!(
        ClientKey::new(&too_many_bits, &mut engine).unwrap_err(),
        GadgetError::ParameterError
    );
    assert!(!too_many_bits.is_valid());
    assert!(small_parameters().is_valid());
}

#[test]
fn key_sizes() {
    let (_, _, server_key) = setup(61);
    // n · (k+1)·ℓ · (k+1)·N = 16 · 4 · 1024
    assert_eq!(server_key.bootstrapping_key_size_elements(), 65536);
    assert_eq!(server_key.bootstrapping_key_size_bytes(), 4 * 65536);
    // k·N · ℓ_ks · (n+1) = 512 · 5 · 17
    assert_eq!(server_key.key_switching_key_size_elements(), 43520);
    assert_eq!(server_key.key_switching_key_size_bytes(), 4 * 43520);
}
