use discovery_engine_core::selection::{
    argsort, document_selection, pull_arms, retain_documents_by_indices, sample_order_key,
    select_initial_candidates, SelectionError, SelectionIter,
};
use rand::SeedableRng;

fn keys(values: &[f32]) -> Vec<u32> {
    values.iter().map(|v| sample_order_key(v.to_bits())).collect()
}

fn bits(values: &[f32]) -> Vec<u32> {
    values.iter().map(|v| v.to_bits()).collect()
}

#[test]
fn test_selection() {
    // buckets as (alpha, beta, documents); the sampler yields alpha - beta
    let stacks: Vec<(f32, f32, Vec<u32>)> = vec![
        (0.01, 1.0, vec![]),
        (0.01, 1.0, vec![0]),
        (1.0, 0.001, vec![1, 2, 3]),
        (0.001, 1.0, vec![4, 5, 6]),
    ];
    let samples: Vec<u32> = stacks
        .iter()
        .map(|(alpha, beta, _)| sample_order_key((alpha - beta).to_bits()))
        .collect();
    let mut selection = SelectionIter::new(stacks.into_iter().map(|(_, _, docs)| docs).collect());
    let mut docs = Vec::new();
    for _ in 0..10 {
        match selection.next_with_samples(&samples) {
            Some(doc) => docs.push(doc),
            None => break,
        }
    }
    assert_eq!(docs[0], 3);
    assert_eq!(docs[1], 2);
    assert_eq!(docs[2], 1);
    assert_eq!(docs[3], 0);
    assert_eq!(docs[4], 6);
    assert_eq!(docs[5], 5);
    assert_eq!(docs[6], 4);
    assert_eq!(docs.len(), 7);
}

#[test]
fn pull_arms_takes_the_first_best_sample() {
    assert_eq!(pull_arms(&[None, Some(3), Some(7), Some(7)]), Some(2));
    assert_eq!(pull_arms(&[None, None]), None);
    assert_eq!(pull_arms(&[]), None);
}

#[test]
fn order_keys_follow_the_floats() {
    let k = |v: f32| sample_order_key(v.to_bits());
    assert!(k(f32::NEG_INFINITY) < k(-1.0));
    assert!(k(-1.0) < k(-0.5));
    assert!(k(-0.5) < k(0.0));
    assert_eq!(k(0.0), k(-0.0));
    assert!(k(0.0) < k(f32::MIN_POSITIVE));
    assert!(k(1.0) < k(f32::INFINITY));
    assert_eq!(k(f32::NAN), 0);
    assert!(k(f32::NAN) < k(f32::NEG_INFINITY));
}

#[test]
fn test_argsort() {
    assert_eq!(argsort(&keys(&[3., 1., 2.])), [1, 2, 0]);
}

#[test]
fn test_argsort_inf() {
    assert_eq!(argsort(&keys(&[3., f32::INFINITY, 2.])), [2, 0, 1]);
}

#[test]
fn test_argsort_neg_inf() {
    assert_eq!(argsort(&keys(&[3., f32::NEG_INFINITY, 2.])), [1, 2, 0]);
}

#[test]
fn test_argsort_neg_nan() {
    assert_eq!(argsort(&keys(&[3., f32::NAN, 2.])), [1, 2, 0]);
}

#[test]
fn test_argsort_empty() {
    assert!(argsort(&[]).is_empty());
}

fn threshold_of(nearest: &[f32], index: Option<usize>) -> f32 {
    index.map_or(0., |i| nearest[i])
}

#[test]
fn test_select_initial_candidates() {
    let nearest = [3., 4., 2., 0.];
    let (threshold, idxs) = select_initial_candidates(&bits(&nearest), 2);
    assert_eq!(threshold_of(&nearest, threshold), 2.);
    assert_eq!(idxs, [2, 3]);
}

#[test]
fn test_select_initial_candidates_all() {
    let nearest = [3., 4., 2., 0.];
    let (threshold, idxs) = select_initial_candidates(&bits(&nearest), 4);
    assert_eq!(threshold_of(&nearest, threshold), 4.);
    assert_eq!(idxs, [0, 1, 2, 3]);
}

#[test]
fn test_select_initial_candidates_none() {
    let nearest = [3., 4., 2., -1.];
    let (threshold, idxs) = select_initial_candidates(&bits(&nearest), 0);
    assert_eq!(threshold_of(&nearest, threshold), 0.);
    assert!(idxs.is_empty());
}

#[test]
fn test_select_initial_candidates_too_many() {
    let nearest = [3., 4., 2., -1.];
    let (threshold, idxs) = select_initial_candidates(&bits(&nearest), 5);
    assert_eq!(threshold_of(&nearest, threshold), 4.);
    assert_eq!(idxs, [0, 1, 2, 3]);

    let (threshold, idxs) = select_initial_candidates(&[], 5);
    assert_eq!(threshold_of(&[], threshold), 0.);
    assert!(idxs.is_empty());
}

#[test]
fn test_retain_documents_by_indices() {
    let docs = vec![10, 11, 12, 13, 14];
    let retained = retain_documents_by_indices(&[4, 2, 0], docs);
    assert_eq!(retained, [10, 12, 14]);
}

#[test]
fn test_retain_documents_by_indices_non_selected() {
    let retained = retain_documents_by_indices(&[], vec![1, 2, 3]);
    assert!(retained.is_empty());
}

#[test]
fn test_retain_documents_by_indices_no_docs() {
    let retained: Vec<u32> = retain_documents_by_indices(&[4, 2, 0], vec![]);
    assert!(retained.is_empty());
}

fn cosine(a: &[f32], b: &[f32]) -> f32 {
    let dot: f32 = a.iter().zip(b).map(|(x, y)| x * y).sum();
    let na: f32 = a.iter().map(|x| x * x).sum::<f32>().sqrt();
    let nb: f32 = b.iter().map(|x| x * x).sum::<f32>().sqrt();
    dot / (na * nb)
}

/// The nearest similarity of each document to the cois and the pairwise
/// similarity of the documents, as float bits.
fn similarities(docs: &[[f32; 3]], cois: &[[f32; 3]]) -> (Vec<u32>, Vec<Vec<u32>>) {
    let nearest = docs
        .iter()
        .map(|d| {
            cois.iter()
                .map(|c| cosine(d, c))
                .fold(f32::NEG_INFINITY, f32::max)
                .to_bits()
        })
        .collect();
    let pairwise = docs
        .iter()
        .map(|a| docs.iter().map(|b| cosine(a, b).to_bits()).collect())
        .collect();
    (nearest, pairwise)
}

#[test]
fn test_document_selection_close_no_documents() {
    let (nearest, pairwise) = similarities(&[], &[[4., 4., 0.]]);
    let mut rng = rand::rngs::StdRng::seed_from_u64(1);
    let docs: Vec<u32> = vec![];
    let docs = document_selection(1, &nearest, &pairwise, docs, 10, 20, &mut rng).unwrap();
    assert_eq!(docs.len(), 0);
}

#[test]
fn test_document_selection_close_no_candidates() {
    let (nearest, pairwise) = similarities(&[[3., 1., 0.]], &[[4., 4., 0.]]);
    let mut rng = rand::rngs::StdRng::seed_from_u64(1);
    let docs = document_selection(1, &nearest, &pairwise, vec![0], 0, 20, &mut rng).unwrap();
    assert_eq!(docs.len(), 0);
}

#[test]
fn test_document_selection_close_all_documents() {
    let embeddings = [[3., 1., 0.], [-1., 0., 0.], [2., 3., 0.], [-3., 7., 0.]];
    let (nearest, pairwise) = similarities(&embeddings, &[[4., 4., 0.]]);
    let mut rng = rand::rngs::StdRng::seed_from_u64(1);
    let docs = document_selection(1, &nearest, &pairwise, vec![0, 1, 2, 3], 4, 20, &mut rng).unwrap();
    assert_eq!(docs.len(), 4);
}

#[test]
fn test_document_selection_close_no_cois() {
    let mut rng = rand::rngs::StdRng::seed_from_u64(1);
    let docs: Vec<u32> = vec![];
    let res = document_selection(0, &[], &vec![], docs, 40, 20, &mut rng);
    assert!(matches!(res.unwrap_err(), SelectionError::NotEnoughCois));
}

#[test]
fn selection_respects_the_maximum_and_the_threshold() {
    let embeddings = [
        [3., 3., 1.],
        [-3., -3., 1.],
        [-3., 3., 1.],
        [3., -3., 1.],
        [3., 0., 1.],
        [-3., 0., 1.],
        [0., 3., 1.],
        [0., -3., 1.],
    ];
    let (nearest, pairwise) = similarities(&embeddings, &[[0., 0., 1.]]);
    for seed in 0..20 {
        let mut rng = rand::rngs::StdRng::seed_from_u64(seed);
        let docs =
            document_selection(1, &nearest, &pairwise, (0..8).collect(), 8, 2, &mut rng).unwrap();
        assert_eq!(docs.len(), 2);
        let threshold = nearest.iter().map(|b| f32::from_bits(*b)).fold(f32::NEG_INFINITY, f32::max);
        let sim = f32::from_bits(pairwise[docs[0]][docs[1]]);
        assert!(!(sim >= threshold));
    }
}

#[test]
fn equal_keys_keep_the_order_of_their_indices() {
    assert_eq!(argsort(&keys(&[1., 0., 1., 0.])), [1, 3, 0, 2]);
    let nearest = [1., 0., 1., 0., 1.];
    let (threshold, idxs) = select_initial_candidates(&bits(&nearest), 3);
    assert_eq!(threshold, Some(0));
    assert_eq!(idxs, [0, 1, 3]);
}
