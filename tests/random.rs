use gadget_fhe::random::CsRng;

fn bytes(seed: u128, n: usize) -> Vec<u8> {
    let mut rng = CsRng::new(seed);
    (0..n).map(|_| rng.next_u8().unwrap()).collect()
}

#[test]
fn same_seed_same_stream() {
    assert_eq!(bytes(42, 64), bytes(42, 64));
}

#[test]
fn different_seeds_different_streams() {
    assert_ne!(bytes(42, 64), bytes(43, 64));
    let stream = bytes(42, 64);
    assert!(stream.iter().any(|b| *b != stream[0]));
}

#[test]
fn noise_stays_within_bound() {
    let mut rng = CsRng::new(5);
    let mut nonzero = false;
    for _ in 0..256 {
        let e = rng.noise(400).unwrap();
        assert!((-3200..=3200).contains(&e));
        nonzero |= e != 0;
    }
    assert!(nonzero);
    assert_eq!(rng.noise(3).unwrap(), 0);
}
