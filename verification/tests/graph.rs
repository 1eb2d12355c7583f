use darkroom_core::graph::{component_roots, largest_component_tree, Edge};
use darkroom_core::PanoError;

fn edge(a: usize, b: usize, weight: usize, pair_idx: usize) -> Edge {
    Edge { a, b, weight, pair_idx }
}

#[test]
fn keeps_largest_component_and_does_not_error_at_two() {
    let edges = vec![edge(0, 1, 50, 0), edge(2, 3, 40, 1)];
    let tree = largest_component_tree(4, &edges).expect("2-frame component must not error");
    assert_eq!(tree.used, vec![0, 1]);
    assert_eq!(tree.reference, 0);
    assert_eq!(tree.order.len(), 1);
    let e = &tree.order[0];
    assert_eq!((e.parent, e.child, e.pair_idx), (0, 1, 0));
}

#[test]
fn too_few_matched_when_nothing_connects() {
    let tree = largest_component_tree(3, &[]);
    assert!(matches!(tree, Err(PanoError::TooFewMatched(1))));
}

#[test]
fn no_frames_reports_an_empty_component() {
    assert!(matches!(largest_component_tree(0, &[]), Err(PanoError::TooFewMatched(0))));
}

#[test]
fn reference_is_the_best_supported_frame_and_tree_spans_component() {
    // Chain 0-1-2 plus a heavy edge 1-2: frame 1 and 2 share the most inliers; the tree covers
    // every frame of the component with one step per non-reference frame.
    let edges = vec![edge(0, 1, 10, 0), edge(1, 2, 90, 1), edge(3, 4, 5, 2)];
    let tree = largest_component_tree(5, &edges).unwrap();
    assert_eq!(tree.used, vec![0, 1, 2]);
    assert_eq!(tree.reference, 1);
    assert_eq!(tree.order.len(), 2);
    // The heaviest crossing edge joins first.
    assert_eq!((tree.order[0].parent, tree.order[0].child, tree.order[0].pair_idx), (1, 2, 1));
    assert_eq!((tree.order[1].parent, tree.order[1].child, tree.order[1].pair_idx), (1, 0, 0));
}

#[test]
fn component_roots_agree_within_components() {
    let edges = vec![edge(0, 2, 1, 0), edge(3, 4, 1, 1)];
    let roots = component_roots(5, &edges);
    assert_eq!(roots[0], roots[2]);
    assert_eq!(roots[3], roots[4]);
    assert_ne!(roots[0], roots[1]);
    assert_ne!(roots[0], roots[3]);
}
