use darkroom_core::matching::{best_two, directional, match_descriptors, Descriptor};

fn d(w0: u64) -> Descriptor {
    Descriptor::from_words([w0, 0, 0, 0])
}

#[test]
fn hamming_counts_differing_bits() {
    let a = Descriptor::from_words([0b1011, u64::MAX, 0, 1]);
    let b = Descriptor::from_words([0b0001, 0, 0, 0]);
    assert_eq!(a.hamming(&b), 2 + 64 + 0 + 1);
    assert_eq!(b.hamming(&a), a.hamming(&b));
    assert_eq!(a.hamming(&a), 0);
}

#[test]
fn best_two_finds_nearest_and_runner_up() {
    let train = [d(0b1111), d(0b0001), d(0b0011), d(0b0001)];
    assert_eq!(best_two(&d(0), &train), (1, 1, 1));
    assert_eq!(best_two(&d(0b0011), &train), (2, 0, 1));
    assert_eq!(best_two(&d(0), &[]), (0, u32::MAX, u32::MAX));
    assert_eq!(best_two(&d(0), &[d(0b111)]), (0, 3, u32::MAX));
}

#[test]
fn ratio_test_rejects_ambiguous_matches() {
    // best 1 vs second 2: 1 < 0.8*2 passes; best 4 vs second 5: 4 < 4.0 fails.
    let to = [d(0b1), d(0b11)];
    assert_eq!(directional(&[d(0)], &to), vec![Some(0)]);
    let to2 = [d(0b1111), d(0b11111)];
    assert_eq!(directional(&[d(0)], &to2), vec![None]);
    assert_eq!(directional(&[d(0)], &[d(0)]), vec![None]);
}

#[test]
fn mutual_matches_are_one_to_one() {
    let di = [d(0x0F), d(0xF0), d(0xFF00)];
    let dj = [d(0xF0), d(0x0F), d(0xFFFF_0000)];
    let m = match_descriptors(&di, &dj);
    assert_eq!(m, vec![(0, 1), (1, 0)]);
    let mut js: Vec<usize> = m.iter().map(|p| p.1).collect();
    js.dedup();
    assert_eq!(js.len(), m.len());
}
