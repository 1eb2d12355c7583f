use darkroom_core::rng::SplitMix64;

#[test]
fn splitmix_matches_the_reference_stream() {
    // SplitMix64 seeded with 0: the published first outputs.
    let mut r = SplitMix64::new(0);
    assert_eq!(r.next_u64(), 0xE220_A839_7B1D_CDAF);
    assert_eq!(r.next_u64(), 0x6E78_9E6A_A1B9_65F4);
    assert_eq!(r.state, 0x9E37_79B9_7F4A_7C15u64.wrapping_mul(2));
}

#[test]
fn gen_range_stays_below_bound() {
    let mut r = SplitMix64::new(0xC0FFEE);
    for _ in 0..100 {
        assert!(r.gen_range(7) < 7);
    }
    let mut a = SplitMix64::new(42);
    let mut b = SplitMix64::new(42);
    assert_eq!(a.gen_range(1000), b.gen_range(1000));
}

fn finalize(z: u64) -> u64 {
    let z1 = (z ^ (z >> 30)).wrapping_mul(0xBF58_476D_1CE4_E5B9);
    let z2 = (z1 ^ (z1 >> 27)).wrapping_mul(0x94D0_49BB_1331_11EB);
    z2 ^ (z2 >> 31)
}

#[test]
fn kth_output_is_the_finalizer_of_seed_plus_k_gammas() {
    let seed: u64 = 0xDEAD_BEEF_0123_4567;
    let mut a = SplitMix64::new(seed);
    let mut b = SplitMix64::new(seed);
    for k in 1..=20u64 {
        let x = a.next_u64();
        assert_eq!(x, b.next_u64());
        assert_eq!(x, finalize(seed.wrapping_add(k.wrapping_mul(0x9E37_79B9_7F4A_7C15))));
    }
}
