use darkroom_core::detect::pano_groups;

#[test]
fn pano_groups_are_components_of_two_or_more() {
    // 0-1-2 chained, 4-6 paired, 3 and 5 alone.
    let groups = pano_groups(7, &[(1, 2), (4, 6), (0, 1)]);
    assert_eq!(groups, vec![vec![0, 1, 2], vec![4, 6]]);
}

#[test]
fn pano_groups_sorted_by_first_member() {
    let groups = pano_groups(6, &[(3, 5), (0, 4), (2, 3)]);
    assert_eq!(groups, vec![vec![0, 4], vec![2, 3, 5]]);
}

#[test]
fn pano_groups_empty_cases() {
    assert!(pano_groups(0, &[]).is_empty());
    assert!(pano_groups(1, &[]).is_empty());
    assert!(pano_groups(3, &[]).is_empty());
    // A self-pair joins nothing.
    assert!(pano_groups(3, &[(1, 1)]).is_empty());
    // Repeated pairs make one group.
    assert_eq!(pano_groups(3, &[(0, 2), (2, 0), (0, 2)]), vec![vec![0, 2]]);
}

#[test]
fn pano_groups_are_disjoint_and_cover_joined_frames() {
    let n = 12;
    let pairs = [(0, 3), (3, 7), (1, 2), (9, 10), (10, 11), (11, 9), (5, 5)];
    let groups = pano_groups(n, &pairs);
    let mut seen = vec![0usize; n];
    for g in &groups {
        assert!(g.len() >= 2);
        assert!(g.windows(2).all(|w| w[0] < w[1]));
        for &v in g {
            seen[v] += 1;
        }
    }
    assert_eq!(seen, vec![1, 1, 1, 1, 0, 0, 0, 1, 0, 1, 1, 1]);
    assert_eq!(groups, vec![vec![0, 3, 7], vec![1, 2], vec![9, 10, 11]]);
}
