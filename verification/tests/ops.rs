use discovery_engine_core::document::UserReaction;
use discovery_engine_core::engine::{fetch_jobs, logs_view_time, partition_results};
use discovery_engine_core::ops::{page_of_request, personalized_phrase, trusted_sources_ready, NotReady};
use discovery_engine_core::selection::rank_by_similarity;

#[test]
fn stacks_wait_for_what_they_need() {
    assert_eq!(personalized_phrase(&[]), Err(NotReady));
    assert_eq!(
        personalized_phrase(&["climate change".to_string(), "rust".to_string()]).unwrap(),
        "climate change rust"
    );
    assert_eq!(trusted_sources_ready(&[]), Err(NotReady));
    assert_eq!(trusted_sources_ready(&["a.com".to_string()]), Ok(()));
    assert_eq!(page_of_request(0), 1);
}

#[test]
fn each_needy_stack_asks_each_market() {
    assert_eq!(fetch_jobs(&[true, false, true], 2), [(0, 0), (0, 1), (2, 0), (2, 1)]);
    assert!(fetch_jobs(&[false], 3).is_empty());
}

#[test]
fn results_split_in_values_and_errors() {
    let (oks, errs) = partition_results(vec![Ok(1), Err("a"), Ok(2), Err("b")]);
    assert_eq!(oks, [1, 2]);
    assert_eq!(errs, ["a", "b"]);
}

#[test]
fn view_time_counts_unless_disliked() {
    assert!(logs_view_time(None));
    assert!(logs_view_time(Some(UserReaction::Positive)));
    assert!(logs_view_time(Some(UserReaction::Neutral)));
    assert!(!logs_view_time(Some(UserReaction::Negative)));
}

#[test]
fn deep_search_keeps_the_similar_documents_best_first() {
    let sims: Vec<u32> = [0.1f32, 0.9, 0.5, f32::NAN, 0.9, 0.3].iter().map(|v| v.to_bits()).collect();
    assert_eq!(rank_by_similarity(&sims, 0.2f32.to_bits()), [1, 4, 2, 5]);
}
