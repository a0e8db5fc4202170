use discovery_engine_core::content::{
    only_ok, parse_article_urls, snippet_or_title, title_or_snippet, topic_image, valid_articles,
    ContentError, Image, Rank, UrlWithDomain,
};

#[test]
fn test_url_with_domain() {
    let wrapped = UrlWithDomain::parse("file:///foo/bar");
    assert!(matches!(wrapped, Err(ContentError::MissingDomainInUrl(_))));
}

#[test]
fn test_source_domain_extraction() {
    let url = UrlWithDomain::parse("https://example.net").unwrap();
    assert_eq!(url.domain(), "example.net");
}

#[test]
fn content_test_news_resource_from_article() {
    let (url, image) =
        parse_article_urls("https://example.com/news/", "https://example.com/news/image/").unwrap();
    assert_eq!(url.url().to_string(), "https://example.com/news/");
    assert_eq!(url.domain(), "example.com");
    assert_eq!(image.unwrap().to_string(), "https://example.com/news/image/");
    assert_eq!(Rank::new(10).0, 10);
}

#[test]
fn test_news_resource_from_article_invalid_link() {
    let res = parse_article_urls("", "https://example.com/news/image/");
    assert!(matches!(res, Err(ContentError::InvalidUrl(_))));
}

#[test]
fn test_news_resource_from_article_empty_media() {
    let (_, image) = parse_article_urls("https://example.com/news/", "").unwrap();
    assert!(image.is_none());
}

#[test]
fn test_news_resource_from_article_invalid_media() {
    let res = parse_article_urls("https://example.com/news/", "invalid");
    assert!(matches!(res, Err(ContentError::InvalidUrl(_))));
}

#[test]
fn invalid_articles_are_dropped_unless_none_is_left() {
    let mixed: Vec<Result<u32, ()>> = vec![Ok(1), Err(()), Ok(3)];
    assert_eq!(valid_articles(mixed).ok(), Some(vec![1, 3]));
    let none: Vec<Result<u32, ()>> = vec![Err(()), Err(())];
    assert!(matches!(valid_articles(none), Err(ContentError::NoValidArticles)));
    let empty: Vec<Result<u32, ()>> = vec![];
    assert_eq!(valid_articles(empty).ok(), Some(vec![]));
    let mixed: Vec<Result<u32, ()>> = vec![Err(()), Ok(2)];
    assert_eq!(only_ok(mixed), vec![2]);
}

#[test]
fn snippet_and_title_fall_back_on_each_other() {
    assert_eq!(snippet_or_title("t", "s"), "s");
    assert_eq!(snippet_or_title("t", ""), "t");
    assert_eq!(title_or_snippet("t", "s"), "t");
    assert_eq!(title_or_snippet("", "s"), "s");
}

#[test]
fn trending_topic_images() {
    assert!(matches!(topic_image(&Image { url: String::new() }), Ok(None)));
    assert!(matches!(topic_image(&Image { url: "https://example.com/a.png".to_string() }), Ok(Some(_))));
    assert!(matches!(topic_image(&Image { url: "not a url".to_string() }), Err(ContentError::InvalidUrl(_))));
}
