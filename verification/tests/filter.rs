use discovery_engine_core::filter::{get_name, Filter, Market};

#[test]
fn test_filter_empty_allows_all() {
    assert_eq!(Filter::default().build(), "*");
}

#[test]
fn filter_test_filter_keywords() {
    let expected = "(a b) OR (c d)";
    let filter = Filter::default().add_keyword("a b").add_keyword("c d");
    assert_eq!(expected, filter.build());

    let filter = Filter::default().add_keyword("c d").add_keyword("a b");
    assert_eq!(expected, filter.build());
}

#[test]
fn test_filter_remove_invalid_char() {
    let filter = Filter::default().add_keyword("a\"b");
    assert_eq!("(ab)", filter.build());
}

#[test]
fn repeated_keyword_counts_once() {
    let filter = Filter::default().add_keyword("a").add_keyword("a");
    assert_eq!("(a)", filter.build());
}

#[test]
fn quality_rank_limits_of_markets() {
    let m = |c: &str| Market::new("en".to_string(), c.to_string());
    assert_eq!(m("US").quality_rank_limit(), Some(9_000));
    assert_eq!(m("DE").quality_rank_limit(), Some(9_000));
    assert_eq!(m("GB").quality_rank_limit(), Some(14_000));
    assert_eq!(m("AT").quality_rank_limit(), Some(70_000));
    assert_eq!(m("CH").quality_rank_limit(), Some(50_000));
    assert_eq!(m("ES").quality_rank_limit(), Some(40_000));
    assert_eq!(m("NL").quality_rank_limit(), Some(60_000));
    assert_eq!(m("FR").quality_rank_limit(), None);
    assert_eq!(m("us").quality_rank_limit(), None);
}

#[test]
fn language_names() {
    assert_eq!(get_name("de").as_deref(), Some("german"));
    assert_eq!(get_name("en").as_deref(), Some("english"));
    assert_eq!(get_name("fr"), None);
}
