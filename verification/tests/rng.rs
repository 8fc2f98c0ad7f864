use sim::rng::{seed_from_ids, splitmix64, Rng};

#[test]
fn splitmix64_matches_the_reference_implementation() {
    let mut state: u64 = 0;
    assert_eq!(splitmix64(&mut state), 0xE220A8397B1DCDAF);
    assert_eq!(splitmix64(&mut state), 0x6E789E6AA1B965F4);
    assert_eq!(splitmix64(&mut state), 0x06C45D188009454F);
}

#[test]
fn next_u64_matches_the_reference_implementation() {
    let mut rng = Rng::from_state(1, 2, 3, 4);
    let expected = [
        41943041u64,
        58720359,
        3588806011781223,
        3591011842654386,
        9228616714210784205,
        9973669472204895162,
        14011001112246962877,
        12406186145184390807,
        15849039046786891736,
        10450023813501588000,
    ];
    for e in expected {
        assert_eq!(rng.next_u64(), e);
    }
}

#[test]
fn the_same_ids_always_give_the_same_stream() {
    let seed = seed_from_ids(7, 11);
    assert_eq!(seed, seed_from_ids(7, 11));
    let mut a = Rng::new(seed);
    let mut b = Rng::new(seed);
    for _ in 0..16 {
        assert_eq!(a.next_u64(), b.next_u64());
    }
    assert_ne!(seed_from_ids(7, 11), seed_from_ids(11, 7));
}
