use darkroom_core::ransac::pick4;
use darkroom_core::rng::SplitMix64;

#[test]
fn pick4_draws_the_first_four_distinct_values() {
    let mut rng = SplitMix64::new(0xC0FFEE);
    assert_eq!(pick4(&mut rng, 10), [4, 7, 1, 0]);
    let mut rng = SplitMix64::new(1);
    // Two of the first six draws repeat an earlier value and are skipped.
    assert_eq!(pick4(&mut rng, 5), [0, 4, 1, 3]);
    let mut after = SplitMix64::new(1);
    for _ in 0..6 {
        after.next_u64();
    }
    assert_eq!(rng.state, after.state);
}

#[test]
fn pick4_with_four_candidates_is_a_permutation() {
    let mut rng = SplitMix64::new(0xC0FFEE);
    let mut got = pick4(&mut rng, 4);
    assert_eq!(got, [2, 1, 3, 0]);
    got.sort_unstable();
    assert_eq!(got, [0, 1, 2, 3]);
}
