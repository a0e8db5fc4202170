use discovery_engine_core::config::{FeedConfig, SearchConfig};
use discovery_engine_core::document::{
    market_from_db, search_from_db, user_reaction_from_db, ConversionError, SearchBy, UserReaction,
    ViewMode,
};

#[test]
fn reactions_convert_from_their_numbers() {
    assert_eq!(user_reaction_from_db(None).unwrap(), None);
    assert_eq!(user_reaction_from_db(Some(0)).unwrap(), Some(UserReaction::Neutral));
    assert_eq!(user_reaction_from_db(Some(1)).unwrap(), Some(UserReaction::Positive));
    assert_eq!(user_reaction_from_db(Some(2)).unwrap(), Some(UserReaction::Negative));
    assert!(matches!(user_reaction_from_db(Some(3)), Err(ConversionError::UserReaction(3))));
    assert_eq!(UserReaction::default(), UserReaction::Neutral);
    assert_eq!(UserReaction::Negative.code(), 2);
    assert_eq!(ViewMode::from_u32(2), Some(ViewMode::Web));
    assert_eq!(ViewMode::Reader.code(), 1);
    assert_eq!(ViewMode::from_u32(3), None);
}

#[test]
fn searches_convert_from_their_columns() {
    let search = search_from_db(1, "topic".to_string(), 2, 20).unwrap();
    assert_eq!(search.search_by, SearchBy::Topic);
    assert_eq!(search.search_term, "topic");
    assert_eq!(search.paging.next_page, 2);
    assert_eq!(search.paging.size, 20);
    assert!(matches!(search_from_db(2, String::new(), 0, 0), Err(ConversionError::SearchBy(2))));
}

#[test]
fn markets_convert_from_their_code() {
    let m = market_from_db("enUS").unwrap();
    assert_eq!((m.lang_code.as_str(), m.country_code.as_str()), ("en", "US"));
    let m = market_from_db("éX").unwrap();
    assert_eq!((m.lang_code.as_str(), m.country_code.as_str()), ("é", "X"));
    assert!(matches!(market_from_db("e"), Err(ConversionError::Market(_))));
    assert!(matches!(market_from_db("€x"), Err(ConversionError::Market(_))));
}

#[test]
fn batch_sizes_from_the_init_config() {
    assert_eq!(FeedConfig::from_batch_size(20).max_docs_per_batch, 20);
    assert_eq!(SearchConfig::from_batch_size(7).stored_page_size(), 7);
}
