use discovery_engine_core::clean_query::clean_query;
use discovery_engine_core::engine::{search_query_term, topic_is_valid, SearchTermError};

fn clean(s: &str) -> String {
    clean_query(s).unwrap()
}

#[test]
fn no_symbol_is_identity_letters() {
    let s = "aàáâäąbßcçdeèéêëęfghiìíîïlłmnǹńoòóôöpqrsśtuùúüvwyỳýÿzź";
    assert_eq!(clean(s), s);
}

#[test]
fn no_symbol_is_identity_numbers() {
    let s = "0123456789";
    assert_eq!(clean(s), s);
}

#[test]
fn remove_symbols() {
    assert_eq!(clean("!$\",?(){};:."), "");
}

#[test]
fn remove_symbols_adjust_space_between() {
    for s in ["a-b", "a - b"] {
        assert_eq!(clean(s), "a b");
    }
}

#[test]
fn remove_symbols_adjust_space_after() {
    for s in ["a!  ", "a ! ", "a  !  "] {
        assert_eq!(clean(s), "a");
    }
}

#[test]
fn remove_symbols_adjust_space_before() {
    for s in ["  !a ", " ! a ", "  !  a  "] {
        assert_eq!(clean(s), "a");
    }
}

#[test]
fn adjust_spaces() {
    assert_eq!(clean("  a  b  c  "), "a b c");
}

#[test]
fn search_term_is_the_cleaned_query() {
    assert_eq!(search_query_term("  climate -- change!  ").unwrap(), "climate change");
}

#[test]
fn search_term_of_only_symbols_is_refused() {
    assert!(matches!(search_query_term("!?.,"), Err(SearchTermError::InvalidTerm)));
    assert!(matches!(search_query_term("   "), Err(SearchTermError::InvalidTerm)));
}

#[test]
fn blank_topics_are_refused() {
    assert!(topic_is_valid(" sports "));
    assert!(!topic_is_valid(""));
    assert!(!topic_is_valid(" \t\n"));
}
