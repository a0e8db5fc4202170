use discovery_engine_core::document::{UserReaction, ViewMode};
use discovery_engine_core::filter::Market;
use discovery_engine_core::stack::{DocumentId, StackId};
use discovery_engine_core::storage::{
    domain_rank_column, domain_rank_from_column, existing_stacks, extract_error,
    extract_first_error, insert_chunks, market_column, migration_rows, open_decision,
    presentation_indices, view_time_ms, CompoundError, MigrationDocument, OpenDecision,
};

fn migrated(id: u128, stack: u128, active: bool, searched: bool) -> MigrationDocument {
    MigrationDocument {
        id: DocumentId(id),
        stack_id: StackId(stack),
        has_embedding: true,
        is_active: active,
        is_searched: searched,
        reaction: UserReaction::Positive,
        story_view_ms: None,
        reader_view_ms: None,
        web_view_ms: None,
    }
}

#[test]
fn migrated_documents_make_their_rows() {
    let mut no_embedding = migrated(4, 7, true, false);
    no_embedding.has_embedding = false;
    let mut viewed = migrated(5, 0, false, true);
    viewed.web_view_ms = Some(10);
    viewed.story_view_ms = Some(u128::from(u32::MAX) + 5);
    let docs = vec![
        migrated(1, 7, true, false),
        migrated(2, 7, false, false),
        migrated(3, 0, true, true),
        no_embedding,
        viewed,
    ];
    let rows = migration_rows(&docs);
    assert_eq!(rows.feed, [DocumentId(1)]);
    assert_eq!(rows.stack, [(DocumentId(1), StackId(7)), (DocumentId(2), StackId(7))]);
    assert_eq!(rows.search, [DocumentId(3)]);
    assert_eq!(rows.reactions.len(), 4);
    assert_eq!(rows.reactions[0], (DocumentId(1), 1));
    assert_eq!(
        rows.view_times,
        [(DocumentId(5), ViewMode::Story, u32::MAX), (DocumentId(5), ViewMode::Web, 10)]
    );
}

#[test]
fn view_times_saturate() {
    assert_eq!(view_time_ms(12), 12);
    assert_eq!(view_time_ms(u128::from(u32::MAX)), u32::MAX);
    assert_eq!(view_time_ms(u128::MAX), u32::MAX);
}

#[test]
fn ranks_survive_the_signed_column() {
    for rank in [0, 1, i64::MAX as u64, i64::MAX as u64 + 1, u64::MAX] {
        assert_eq!(domain_rank_from_column(domain_rank_column(rank)), rank);
        assert_eq!(domain_rank_column(rank), rank as i64);
    }
}

#[test]
fn markets_are_stored_as_one_code() {
    assert_eq!(market_column(&Market::new("de".to_string(), "AT".to_string())), "deAT");
}

#[test]
fn new_documents_are_inserted_in_chunks() {
    assert!(insert_chunks(0).is_empty());
    assert_eq!(insert_chunks(10), [(0, 10)]);
    assert_eq!(insert_chunks(3640), [(0, 3640)]);
    assert_eq!(insert_chunks(8000), [(0, 3640), (3640, 7280), (7280, 8000)]);
    assert_eq!(presentation_indices(3), [0, 1, 2]);
}

#[test]
fn opening_the_database() {
    assert_eq!(open_decision(false, true), OpenDecision::NewDbCreated);
    assert_eq!(open_decision(true, true), OpenDecision::NormalInit);
    assert_eq!(open_decision(false, false), OpenDecision::Fail);
    assert_eq!(open_decision(true, false), OpenDecision::Recreate);
    assert_eq!(existing_stacks().len(), 4);
    assert_eq!(existing_stacks()[3], StackId::exploration());
}

#[test]
fn errors_are_extracted() {
    let mut slot = None;
    assert_eq!(extract_first_error::<u32, &str>(Err("a"), &mut slot), None);
    assert_eq!(extract_first_error::<u32, &str>(Err("b"), &mut slot), None);
    assert_eq!(extract_first_error::<u32, &str>(Ok(3), &mut slot), Some(3));
    assert_eq!(slot, Some("a"));
    let mut errors = Vec::new();
    assert_eq!(extract_error::<u32, &str>(Err("a"), &mut errors), None);
    assert_eq!(extract_error::<u32, &str>(Ok(1), &mut errors), Some(1));
    assert_eq!(errors, ["a"]);
    let compound = CompoundError::new("deleting database files failed".to_string(), errors);
    assert_eq!(compound.errors.len(), 1);
}
