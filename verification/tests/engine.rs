use discovery_engine_core::dedup::{DedupKey, HistoryKey};
use discovery_engine_core::document::{Paging, UserReaction};
use discovery_engine_core::engine::{
    all_stacks_failed, batch_outcome, collect_fetches, dropped_markets, group_by_stack,
    key_phrases_needed, needy_stacks, needy_stacks_failed, next_page_number, partition_by_mask,
    reaction_updates_stacks, relevance_target, scaled_page_size, search_outcome,
    source_reaction_of, source_reaction_step, merge_fetched, FetchCollection, FetchResult, StackedDocument, InvalidStackId, RelevanceTarget,
    RequestSchedule, SourceReactionStep,
};
use discovery_engine_core::filter::Market;
use discovery_engine_core::stack::StackId;

#[test]
fn test_usize_not_to_small() {
    assert!(std::mem::size_of::<usize>() >= std::mem::size_of::<u32>());
}

#[test]
fn feed_requests_follow_the_schedule() {
    let mut schedule = RequestSchedule::new();
    // with the default period of 2 the counter stays below it
    assert_eq!(schedule.next_request_new(2, 3), 3);
    assert_eq!(schedule.next_request_new(2, 3), 3);
    assert_eq!(schedule.next_request_new(2, 3), 3);
    // a shorter period after a longer one lifts the limit once
    let mut schedule = RequestSchedule::new();
    schedule.next_request_new(5, 3);
    schedule.next_request_new(5, 3);
    assert_eq!(schedule.next_request_new(1, 3), usize::MAX);
    schedule.reset();
    assert_eq!(schedule.next_request_new(1, 3), 3);
}

#[test]
fn stacks_with_few_documents_are_needy() {
    assert_eq!(needy_stacks(&[0, 3, 4, 10], 3), [true, true, false, false]);
    assert!(key_phrases_needed(&[true, false], &[true, true]));
    assert!(!key_phrases_needed(&[false, true], &[true, false]));
}

fn s(n: u128) -> StackId {
    StackId(n)
}

#[test]
fn update_stack_no_error_when_no_stack_is_ready() {
    let results: Vec<(StackId, FetchResult<u32, String>)> =
        vec![(s(1), FetchResult::NotReady), (s(2), FetchResult::NotReady)];
    let c = collect_fetches(results);
    assert!(!needy_stacks_failed(&c, 2));
}

#[test]
fn update_stack_no_error_when_one_stack_is_successful() {
    let results = vec![
        (s(1), FetchResult::Failed("a".to_string())),
        (s(2), FetchResult::Fetched(vec![1, 2])),
    ];
    let c = collect_fetches(results);
    assert_eq!(c.documents, [1, 2]);
    assert!(!needy_stacks_failed(&c, 2));
}

#[test]
fn update_stack_should_error_when_all_stacks_fail() {
    let results: Vec<(StackId, FetchResult<u32, String>)> = vec![
        (s(1), FetchResult::Failed("a".to_string())),
        (s(1), FetchResult::Failed("b".to_string())),
        (s(2), FetchResult::Failed("c".to_string())),
    ];
    let c = collect_fetches(results);
    assert_eq!(c.failed, [s(1), s(2)]);
    assert_eq!(c.errors, ["a", "b", "c"]);
    assert!(needy_stacks_failed(&c, 2));
}

#[test]
fn update_stack_multiple_markets_one_stack_not_ready() {
    let results: Vec<(StackId, FetchResult<u32, String>)> = vec![
        (s(1), FetchResult::NotReady),
        (s(1), FetchResult::NotReady),
        (s(2), FetchResult::Failed("x".to_string())),
        (s(2), FetchResult::Failed("y".to_string())),
    ];
    let c = collect_fetches(results);
    assert_eq!(c.not_ready, [s(1)]);
    assert!(needy_stacks_failed(&c, 2));
    assert!(all_stacks_failed(4, 3));
    assert!(!all_stacks_failed(3, 3));
}

#[test]
fn exploration_documents_are_split_off_and_the_rest_grouped() {
    let docs = vec!["a", "b", "c", "d", "e"];
    let ids = [s(1), s(9), s(2), s(1), s(9)];
    let mask: Vec<bool> = ids.iter().map(|id| *id == s(9)).collect();
    let (exploration, others) = partition_by_mask(docs, &mask);
    assert_eq!(exploration, ["b", "e"]);
    assert_eq!(others, ["a", "c", "d"]);
    let other_ids: Vec<StackId> = ids.iter().copied().filter(|id| *id != s(9)).collect();
    let groups = group_by_stack(others, &other_ids);
    assert_eq!(groups, vec![(s(1), vec!["a", "d"]), (s(2), vec!["c"])]);
}

#[test]
fn reactions_go_to_their_stack() {
    let stacks = [StackId::breaking_news(), StackId::personalized_news()];
    assert_eq!(relevance_target(StackId::nil(), &stacks), Ok(None));
    assert_eq!(
        relevance_target(StackId::breaking_news(), &stacks),
        Ok(Some(RelevanceTarget::Stack(StackId::breaking_news())))
    );
    assert_eq!(relevance_target(StackId::exploration(), &stacks), Ok(Some(RelevanceTarget::Exploration)));
    assert_eq!(relevance_target(s(5), &stacks), Err(InvalidStackId(s(5))));
}

#[test]
fn reactions_to_sources() {
    assert_eq!(source_reaction_of(UserReaction::Positive), Some(true));
    assert_eq!(source_reaction_of(UserReaction::Negative), Some(false));
    assert_eq!(source_reaction_of(UserReaction::Neutral), None);
    assert!(reaction_updates_stacks(UserReaction::Positive));
    assert!(!reaction_updates_stacks(UserReaction::Negative));
    assert_eq!(source_reaction_step(None, true), SourceReactionStep::Create { weight: 1, liked: true });
    assert_eq!(source_reaction_step(None, false), SourceReactionStep::Create { weight: -1, liked: false });
    assert_eq!(source_reaction_step(Some(true), true), SourceReactionStep::Reinforce);
    assert_eq!(source_reaction_step(Some(true), false), SourceReactionStep::Remove);
}

#[test]
fn search_pages() {
    assert_eq!(scaled_page_size(20, 3), 7);
    assert_eq!(scaled_page_size(20, 1), 21);
    assert_eq!(search_outcome(vec![1, 2, 3], vec!["e"], 2), Ok(vec![1, 2]));
    assert_eq!(search_outcome(Vec::<u32>::new(), vec!["e"], 2), Err(vec!["e"]));
    assert_eq!(search_outcome(Vec::<u32>::new(), Vec::<&str>::new(), 2), Ok(vec![]));
    assert_eq!(batch_outcome(vec![1], vec!["e"]), Ok(vec![1]));
    assert_eq!(batch_outcome(Vec::<u32>::new(), vec!["e"]), Err(vec!["e"]));
    assert_eq!(next_page_number(&Paging { size: 10, next_page: 1 }), 2);
}

#[test]
fn markets_that_are_no_longer_used() {
    let m = |l: &str, c: &str| Market::new(l.to_string(), c.to_string());
    let dropped = dropped_markets(vec![m("en", "US"), m("de", "DE"), m("de", "AT")], &[m("de", "DE")]);
    assert_eq!(dropped, vec![m("en", "US"), m("de", "AT")]);
}

fn stacked(
    stack_id: StackId,
    title: &str,
    url: &str,
    rank: u64,
) -> StackedDocument<&'static str> {
    StackedDocument {
        stack_id,
        key: DedupKey { title: title.to_string(), rank, url: url.to_string() },
        document: "doc",
    }
}

#[test]
fn merged_stacks_are_deduplicated_across_stacks_and_regrouped() {

    let breaking = StackId::breaking_news();
    let personalized = StackId::personalized_news();
    let exploration = StackId::exploration();
    let fetched = FetchCollection::<_, ()> {
        documents: vec![
            // same title as a breaking news document, better ranked: it stays
            stacked(personalized, "Storm ahead", "https://p/1", 1),
            // in the history by URL
            stacked(personalized, "Seen before", "https://p/2", 1),
            stacked(personalized, "Fresh", "https://p/3", 5),
        ],
        not_ready: vec![],
        failed: vec![],
        errors: vec![],
    };
    let mut stacks = vec![
        (breaking, vec![stacked(breaking, "storm ahead", "https://b/1", 9), stacked(breaking, "Other", "https://b/2", 3)]),
        (personalized, vec![]),
    ];
    let mut expl = vec![stacked(exploration, "Explore", "https://e/1", 2)];
    let history = vec![HistoryKey { title: "Read long ago".to_string(), url: "https://p/2".to_string() }];

    let (groups, explored) = merge_fetched(fetched, 2, &mut stacks, &mut expl, &history).ok().unwrap();
    assert!(expl.is_empty());
    assert_eq!(stacks.len(), 2);
    assert!(stacks.iter().all(|(_, docs)| docs.is_empty()));
    assert_eq!(explored.len(), 1);
    let urls = |id: StackId| -> Vec<String> {
        groups.iter().find(|(g, _)| *g == id).map(|(_, d)| d.iter().map(|x| x.key.url.clone()).collect()).unwrap_or_default()
    };
    assert_eq!(urls(breaking), vec!["https://b/2"]);
    assert_eq!(urls(personalized), vec!["https://p/1", "https://p/3"]);
}

#[test]
fn merging_gives_up_when_every_ready_needy_stack_failed() {
    let fetched = FetchCollection::<StackedDocument<&'static str>, &str> {
        documents: vec![],
        not_ready: vec![StackId::trusted_news()],
        failed: vec![StackId::personalized_news()],
        errors: vec!["timeout"],
    };
    let mut stacks = vec![(StackId::breaking_news(), vec![stacked(StackId::breaking_news(), "a", "https://a", 1)])];
    let mut expl = vec![];
    assert_eq!(merge_fetched(fetched, 2, &mut stacks, &mut expl, &[]).err(), Some(vec!["timeout"]));
    assert_eq!(stacks[0].1.len(), 1);
}

#[test]
fn test_cross_stack_deduplication_over_two_merges() {
    let breaking = StackId::breaking_news();
    let trusted = StackId::trusted_news();
    let fetch = || FetchCollection::<_, ()> {
        documents: vec![stacked(breaking, "Same article", "https://same/1", 1), stacked(trusted, "Same article", "https://same/1", 1)],
        not_ready: vec![],
        failed: vec![],
        errors: vec![],
    };
    let total = |groups: &Vec<(StackId, Vec<StackedDocument<&'static str>>)>| groups.iter().map(|(_, d)| d.len()).sum::<usize>();

    let mut stacks = vec![(breaking, vec![]), (trusted, vec![])];
    let mut expl = vec![];
    let (groups, _) = merge_fetched(fetch(), 2, &mut stacks, &mut expl, &[]).ok().unwrap();
    assert_eq!(total(&groups), 1);

    // the stacks take their documents back, then the same article comes again
    let mut stacks: Vec<_> = vec![breaking, trusted]
        .into_iter()
        .map(|id| {
            let docs = groups.iter().find(|(g, _)| *g == id).map(|(_, d)| d.iter().map(|x| stacked(x.stack_id, "Same article", "https://same/1", 1)).collect()).unwrap_or_default();
            (id, docs)
        })
        .collect();
    let (groups, _) = merge_fetched(fetch(), 2, &mut stacks, &mut expl, &[]).ok().unwrap();
    assert_eq!(total(&groups), 1);
}
