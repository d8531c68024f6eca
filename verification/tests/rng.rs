use water_sort::rng::Pcg32;

#[test]
fn deterministic() {
    let a: Vec<u32> = (0..8).map(|_| Pcg32::new(7, 1).next_u32()).collect();
    assert!(a.windows(2).all(|w| w[0] == w[1]));
}

#[test]
fn below_is_bounded() {
    let mut rng = Pcg32::new(1, 1);
    for _ in 0..10_000 {
        assert!(rng.below(7) < 7);
    }
}

#[test]
fn pcg32_reference_values() {
    // The PCG32 reference generator, seeded with 42 on stream 54.
    let mut rng = Pcg32::new(42, 54);
    let expected: [u32; 6] = [
        0xa15c02b7, 0x7b47f409, 0xba1d3330, 0x83d2f293, 0xbfa4784b, 0xcbed606e,
    ];
    for value in expected {
        assert_eq!(rng.next_u32(), value);
    }
}

#[test]
fn below_one_is_zero() {
    let mut rng = Pcg32::new(3, 9);
    for _ in 0..100 {
        assert_eq!(rng.below(1), 0);
    }
}

#[test]
fn different_streams_differ() {
    let a = Pcg32::new(7, 1).next_u32();
    let b = Pcg32::new(7, 2).next_u32();
    assert_ne!(a, b);
}
