use discovery_engine_core::clustering::{
    assign_labels, count_below_threshold, cut_tree, find_n_clusters, heaviest_per_label,
    is_valid_dendrogram, source_weight, triangular_indices, WeightedSource,
};
use kodama::{linkage, Method};

/// The merge steps and the dissimilarities (as float bits) of the
/// dendrogram of a condensed distance matrix.
fn dendrogram(distances: &mut [f32], observations: usize) -> (Vec<(usize, usize)>, Vec<u32>) {
    let dendrogram = linkage(distances, observations, Method::Single);
    let steps = dendrogram.steps().iter().map(|s| (s.cluster1, s.cluster2)).collect();
    let dissimilarities = dendrogram.steps().iter().map(|s| s.dissimilarity.to_bits()).collect();
    (steps, dissimilarities)
}

fn cut(threshold: f32) -> Vec<usize> {
    let (steps, dissimilarities) = dendrogram(&mut [0.5, 3., 2., 3.5, 2.5, 1.], 4);
    let below = count_below_threshold(&dissimilarities, threshold.to_bits());
    cut_tree(4, &steps, below)
}

fn find(n: usize) -> Vec<usize> {
    let (steps, _) = dendrogram(&mut [0.5, 3., 2., 3.5, 2.5, 1.], 4);
    find_n_clusters(4, &steps, n)
}

#[test]
fn semantic_test_cut_tree_1_cluster() {
    assert_eq!(cut(3.6), [0, 0, 0, 0]);
}

#[test]
fn semantic_test_cut_tree_3_clusters() {
    assert_eq!(cut(0.75), [2, 2, 0, 1]);
}

#[test]
fn semantic_test_cut_tree_4_clusters() {
    assert_eq!(cut(0.5), [0, 1, 2, 3]);
}

#[test]
fn semantic_filters_test_cut_tree_1_cluster() {
    assert_eq!(cut(3.6), [0, 0, 0, 0]);
}

#[test]
fn semantic_filters_test_cut_tree_3_clusters() {
    assert_eq!(cut(0.75), [2, 2, 0, 1]);
}

#[test]
fn semantic_filters_test_cut_tree_4_clusters() {
    assert_eq!(cut(0.5), [0, 1, 2, 3]);
}

#[test]
fn test_find_1_cluster() {
    assert_eq!(find(1), [0, 0, 0, 0]);
}

#[test]
fn test_find_2_clusters() {
    assert_eq!(find(2), [0, 0, 1, 1]);
}

#[test]
fn test_find_3_clusters() {
    assert_eq!(find(3), [2, 2, 0, 1]);
}

#[test]
fn test_find_4_clusters() {
    assert_eq!(find(4), [0, 1, 2, 3]);
}

#[test]
fn test_find_n_clusters_too_many() {
    assert_eq!(find(5), [0, 1, 2, 3]);
}

#[test]
fn test_find_0_clusters_no_panic() {
    assert_eq!(find(0), [0, 0, 0, 0]);
}

#[test]
fn triangular_indices_of_a_matrix() {
    assert_eq!(triangular_indices(3), [(0, 1), (0, 2), (1, 2)]);
    assert!(triangular_indices(1).is_empty());
    assert!(triangular_indices(0).is_empty());
}

#[test]
fn labels_follow_the_order_of_the_clusters() {
    assert_eq!(assign_labels(&vec![vec![2], vec![0, 1]], 3), [1, 1, 0]);
}

#[test]
fn a_nan_dissimilarity_stops_the_cut() {
    let d = [0.1f32.to_bits(), f32::NAN.to_bits(), 0.2f32.to_bits()];
    assert_eq!(count_below_threshold(&d, 1.0f32.to_bits()), 1);
    assert_eq!(count_below_threshold(&d, f32::NAN.to_bits()), 0);
}

#[test]
fn weights_of_sources() {
    let sources = vec![
        WeightedSource { source: "a.com".to_string(), weight: 3 },
        WeightedSource { source: "b.com".to_string(), weight: -2 },
    ];
    assert_eq!(source_weight(&"b.com".to_string(), &sources), -2);
    assert_eq!(source_weight(&"c.com".to_string(), &sources), 0);
}

#[test]
fn one_document_per_label() {
    // labels 0,1,0,1 with weights: the heaviest of label 0 is index 2, of label 1 index 1
    let kept = heaviest_per_label(&vec![0, 1, 0, 1], &vec![1, 5, 3, 5]);
    assert_eq!(kept, [2, 3]);
}

#[test]
fn dendrogram_of_linkage_is_valid() {
    let (steps, _) = dendrogram(&mut [0.5, 3., 2., 3.5, 2.5, 1.], 4);
    assert!(is_valid_dendrogram(4, &steps));
}

#[test]
fn dendrogram_with_unknown_or_repeated_cluster_is_invalid() {
    assert!(is_valid_dendrogram(3, &[(0, 1), (2, 3)]));
    assert!(!is_valid_dendrogram(3, &[(0, 0)]));
    assert!(!is_valid_dendrogram(3, &[(0, 3)]));
    assert!(!is_valid_dendrogram(3, &[(0, 1), (0, 2)]));
    assert!(is_valid_dendrogram(3, &[]));
}
