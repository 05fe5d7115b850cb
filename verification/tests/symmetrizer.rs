use graph_builder::bidir;
use graph_builder::bidir_supported;

#[test]
fn paired_equal_edges_keep_one_copy() {
    let mut edges: Vec<([usize; 2], char)> = vec![([0, 1], 'x'), ([1, 0], 'x')];
    bidir(&mut edges);
    assert_eq!(edges, vec![([0, 1], 'x')]);
}

#[test]
fn a_directed_only_edge_is_dropped() {
    let mut edges: Vec<([usize; 2], char)> = vec![([0, 1], 'x')];
    bidir(&mut edges);
    assert_eq!(edges, Vec::new());
}

#[test]
fn paired_edges_with_unequal_labels_are_dropped() {
    let mut edges: Vec<([usize; 2], char)> = vec![([0, 1], 'x'), ([1, 0], 'y')];
    bidir(&mut edges);
    assert_eq!(edges, Vec::new());
}

#[test]
fn three_edges_on_one_pair_break_the_precondition() {
    let edges: Vec<([usize; 2], char)> = vec![([0, 1], 'x'), ([1, 0], 'x'), ([0, 1], 'x')];
    assert!(!bidir_supported(&edges));
    let two: Vec<([usize; 2], char)> = vec![([0, 1], 'x'), ([1, 0], 'x')];
    assert!(bidir_supported(&two));
}

#[test]
fn output_is_sorted_by_canonical_pair() {
    let mut edges: Vec<([usize; 2], u64)> =
        vec![([5, 2], 9), ([1, 0], 7), ([0, 1], 7), ([2, 5], 9), ([3, 4], 1)];
    bidir(&mut edges);
    assert_eq!(edges, vec![([0, 1], 7), ([2, 5], 9)]);
}

#[test]
fn empty_input_stays_empty() {
    let mut edges: Vec<([usize; 2], u64)> = Vec::new();
    bidir(&mut edges);
    assert_eq!(edges, Vec::new());
    // A second application of an empty result is a no-op.
    bidir(&mut edges);
    assert_eq!(edges, Vec::new());
}

#[test]
fn a_second_application_drops_the_kept_copies() {
    // The result keeps one copy per pair, so that copy stands unpaired on a
    // second pass and is dropped: the symmetrizer is not idempotent on
    // nonempty results.
    let mut edges: Vec<([usize; 2], u64)> = vec![([0, 1], 7), ([1, 0], 7)];
    bidir(&mut edges);
    assert_eq!(edges, vec![([0, 1], 7)]);
    bidir(&mut edges);
    assert_eq!(edges, Vec::new());
}

#[test]
fn repeated_symmetrizations_agree() {
    let input: Vec<([usize; 2], u64)> = vec![([4, 2], 3), ([2, 4], 3), ([9, 9], 1), ([0, 3], 2)];
    let mut first = input.clone();
    bidir(&mut first);
    let mut second = input.clone();
    bidir(&mut second);
    assert_eq!(first, second);
    assert_eq!(first, vec![([2, 4], 3)]);
}
