use discovery_engine_core::provider::{is_newscatcher_path, select_provider, ProviderConfig, ProviderError};

#[test]
fn test_defaults() {
    let base = "https://api.example.com";
    let token = "test-token";
    let _config = ProviderConfig::search(base, None, token.to_string()).unwrap();
    let _config = ProviderConfig::similar_search(base, None, token.to_string()).unwrap();
    let _config = ProviderConfig::headlines(base, None, token.to_string()).unwrap();
    let _config = ProviderConfig::trusted_headlines(base, None, token.to_string()).unwrap();
}

#[test]
fn routes_are_joined_to_the_base() {
    let c = ProviderConfig::search("https://api.example.com", None, "t".to_string()).unwrap();
    assert_eq!(c.url_text, "https://api.example.com/newscatcher/v2/search");
    assert_eq!(c.timeout_ms, 3500);
    assert_eq!(c.retry, 0);
    let c = c.with_overrides(Some(100), None);
    assert_eq!((c.timeout_ms, c.retry), (100, 0));
    assert!(matches!(
        ProviderConfig::search("not a url", None, "t".to_string()),
        Err(ProviderError::MalformedUrlInConfig(_))
    ));
}

#[test]
fn endpoints_are_served_by_newscatcher() {
    let c = ProviderConfig::headlines("https://api.example.com", None, "t".to_string()).unwrap();
    assert!(select_provider(&c).is_ok());
    let c = ProviderConfig::similar_search("https://api.example.com", None, "t".to_string()).unwrap();
    match select_provider(&c) {
        Err(ProviderError::NoProviderForEndpoint { url }) => assert_eq!(url, "https://api.example.com/_mlt"),
        _ => panic!("no provider serves this endpoint"),
    }
    assert!(!is_newscatcher_path(&None));
    assert!(is_newscatcher_path(&Some(vec!["a".to_string(), "newscatcher".to_string()])));
}
