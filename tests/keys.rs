use gadget_fhe::ciphertext::Ciphertext;
use gadget_fhe::encoding::Encoding;
use gadget_fhe::encrypt::{lwe_encrypt, lwe_phase, EncryptionRandomGenerator};
use gadget_fhe::engine::{Bootstrapper, GadgetEngine, PBSOrder};
use gadget_fhe::lwe::LweCiphertext;
use gadget_fhe::parameters::{default_parameters, GadgetParameters};
use gadget_fhe::plaintext::{decode, encode};
use gadget_fhe::client_key::ClientKey;

fn small_parameters() -> GadgetParameters {
    GadgetParameters::new(16, 1, 512, 256, 4, 10, 2, 4, 5)
}

fn and_encoding() -> Encoding {
    Encoding::new_canonical(8, 2, vec![1, 1], vec![0, 1], vec![2], 3)
}

#[test]
fn compressed_server_key_decompresses_to_a_working_key() {
    let mut engine = GadgetEngine::new(71).unwrap();
    let client_key = ClientKey::new(&small_parameters(), &mut engine).unwrap();
    let mut bootstrapper = Bootstrapper::new(72).unwrap();
    let compressed = bootstrapper.new_compressed_server_key(&client_key).unwrap();
    assert_eq!(compressed.bootstrapping_key_bodies.len(), 16 * 4 * 512);
    assert_eq!(compressed.key_switching_key_bodies.len(), 512 * 5);
    let server_key = compressed.decompress().unwrap();
    let again = compressed.decompress().unwrap();
    assert_eq!(server_key.bootstrapping_key, again.bootstrapping_key);
    assert_eq!(server_key.key_switching_key, again.key_switching_key);
    let encoding = and_encoding();
    for (a, b) in [(0u32, 0u32), (0, 1), (1, 0), (1, 1)] {
        let inputs = vec![
            engine.encrypt(a, &client_key, 3).unwrap(),
            engine.encrypt(b, &client_key, 3).unwrap(),
        ];
        let out = server_key.evaluate_gate(inputs, &encoding).unwrap();
        assert_eq!(engine.decrypt(&out, &client_key, 3), a & b);
    }
}

#[test]
fn keyswitch_first_order_refreshes_big_ciphertexts() {
    let mut engine = GadgetEngine::new(73).unwrap();
    let client_key = ClientKey::new(&small_parameters(), &mut engine).unwrap();
    let server_key = engine.create_server_key(&client_key).unwrap();
    let mut bootstrapper = Bootstrapper::new(74).unwrap();
    let mut generator = EncryptionRandomGenerator::new(75).unwrap();
    let encoding = Encoding::new_canonical(0, 1, vec![1], vec![0, 2, 4], vec![1, 3], 5);
    for m in 0..5u32 {
        let data = lwe_encrypt(&client_key.glwe_secret_key, encode(m, 5), 256, &mut generator).unwrap();
        let out = bootstrapper
            .apply_bootstrapping_pattern(LweCiphertext { data }, &server_key, &encoding, PBSOrder::KeyswitchBootstrap)
            .unwrap();
        match out {
            Ciphertext::Encrypted(c) => {
                assert_eq!(c.data.len(), 513);
                let bit = decode(lwe_phase(&c.data, &client_key.glwe_secret_key), 5);
                assert_eq!(bit, m % 2, "m={m}");
            }
            Ciphertext::Trivial(_) => panic!("expected an encrypted output"),
        }
    }
    // the same ciphertexts under the small key go the other way round
    let small = engine.encrypt(3, &client_key, 5).unwrap();
    if let Ciphertext::Encrypted(c) = small {
        let big = bootstrapper.bootstrap(&c, &server_key, &encoding).unwrap();
        assert_eq!(big.data.len(), 513);
        assert_eq!(decode(lwe_phase(&big.data, &client_key.glwe_secret_key), 5), 1);
        let back = bootstrapper.keyswitch(&big, &server_key).unwrap();
        assert_eq!(decode(lwe_phase(&back.data, &client_key.lwe_secret_key), 5), 1);
        let out = bootstrapper
            .apply_bootstrapping_pattern(c, &server_key, &encoding, PBSOrder::BootstrapKeyswitch)
            .unwrap();
        assert_eq!(engine.decrypt(&out, &client_key, 5), 1);
    }
}

#[test]
fn default_parameters_are_valid() {
    let p = default_parameters();
    assert!(p.is_valid());
    assert_eq!((p.lwe_dimension, p.polynomial_size, p.glwe_dimension), (768, 2048, 1));
}
