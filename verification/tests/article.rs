use discovery_engine_core::dedup::{
    apply, is_well_formed, normalize, not_excluded_mask, retain_by_mask, DedupKey, HistoryKey,
};

/// An article as far as the filters read it.
#[derive(Clone, Debug, PartialEq)]
struct Article {
    title: String,
    snippet: String,
    url: String,
    rank: u64,
    source_domain: String,
}

fn article(title: &str, url: &str, rank: u64) -> Article {
    Article {
        title: title.to_string(),
        snippet: format!("snippet of {title}"),
        url: url.to_string(),
        rank,
        source_domain: "example.com".to_string(),
    }
}

/// Four well formed articles with distinct titles and urls, all from
/// example.com.
fn valid_articles() -> Vec<Article> {
    vec![
        article("Porsche entwickelt Antrieb", "https://example.com/a", 10),
        article("Mensch mit düsterer Prognose", "https://example.com/b", 20),
        article("Bundesliga Spieltag", "https://example.com/c", 30),
        article("Wetter am Wochenende", "https://example.com/d", 40),
    ]
}

fn key(a: &Article) -> DedupKey {
    DedupKey { title: a.title.clone(), rank: a.rank, url: a.url.clone() }
}

/// The malformed filter followed by the duplicate filter.
fn common_filter(history: &[HistoryKey], stack: &[DedupKey], articles: Vec<Article>) -> Vec<Article> {
    let keep: Vec<bool> = articles.iter().map(|a| is_well_formed(&a.title, &a.snippet)).collect();
    let articles = retain_by_mask(articles, &keep);
    let keys: Vec<DedupKey> = articles.iter().map(key).collect();
    apply(history, stack, articles, &keys)
}

fn sorted_titles(articles: Vec<Article>) -> Vec<String> {
    let mut titles: Vec<String> = articles.into_iter().map(|a| a.title).collect();
    titles.sort();
    titles
}

#[test]
fn article_test_filter_duplicate_stack() {
    let valid = valid_articles();
    let stack: Vec<DedupKey> = valid.iter().take(2).map(key).collect();
    let filtered = sorted_titles(common_filter(&[], &stack, valid.clone()));
    assert_eq!(filtered, ["Bundesliga Spieltag", "Wetter am Wochenende"]);
}

#[test]
fn article_test_filter_duplicate_history() {
    let valid = valid_articles();
    let history: Vec<HistoryKey> = valid
        .iter()
        .take(2)
        .map(|a| HistoryKey { title: a.title.clone(), url: a.url.clone() })
        .collect();
    let filtered = sorted_titles(common_filter(&history, &[], valid.clone()));
    assert_eq!(filtered, ["Bundesliga Spieltag", "Wetter am Wochenende"]);
}

#[test]
fn article_test_filter_title() {
    let malformed = vec![article("", "https://example.com/a", 1), article("", "https://example.com/b", 2)];
    assert!(common_filter(&[], &[], malformed).is_empty());
}

#[test]
fn article_test_filter_excerpt() {
    let mut a = article("a", "https://example.com/a", 1);
    a.snippet = String::new();
    let mut b = article("b", "https://example.com/b", 2);
    b.snippet = String::new();
    assert!(common_filter(&[], &[], vec![a, b]).is_empty());
}

#[test]
fn test_filter_sources() {
    let articles = valid_articles();
    let domains = |arts: &[Article]| arts.iter().map(|a| a.source_domain.clone()).collect::<Vec<_>>();

    let mask = not_excluded_mask(&domains(&articles), &["example.org".to_string()]);
    let filtered1 = retain_by_mask(articles, &mask);
    assert_eq!(filtered1.len(), 4);

    let mask = not_excluded_mask(&domains(&filtered1), &["example.com".to_string()]);
    let filtered2 = retain_by_mask(filtered1, &mask);
    assert!(filtered2.is_empty());
}

#[test]
fn test_dedup_articles_them_self() {
    let valid = valid_articles();
    let mut articles = valid.clone();
    // {0, 1, 2, 3, 0, 1', 2', 3'}
    articles.push(valid[0].clone());
    articles.push({
        let mut a = valid[1].clone();
        a.url = "https://with_same_link.test".to_string();
        a.rank = u64::MAX;
        a
    });
    articles.push({
        let mut a = valid[2].clone();
        a.title = "With same url".to_string();
        a
    });
    articles.push({
        let mut a = valid[3].clone();
        a.url = "https://unique.test".to_string();
        a.title = "Unique".to_string();
        a
    });

    // after filtering: {0, 1, 2/2', 3, 3'}
    let filtered: Vec<(String, u64)> =
        common_filter(&[], &[], articles).into_iter().map(|a| (a.title, a.rank)).collect();
    assert_eq!(filtered.len(), 5, "Unexpected len for: {:?}", filtered);
    let get = |t: &str| filtered.iter().find(|(title, _)| title == t).map(|(_, r)| *r);
    assert_eq!(get(&valid[0].title), Some(valid[0].rank));
    assert_eq!(get(&valid[1].title), Some(valid[1].rank));
    assert_eq!(get("With same url").xor(get(&valid[2].title)), Some(valid[2].rank));
    assert_eq!(get(&valid[3].title), Some(valid[3].rank));
    assert_eq!(get("Unique"), Some(valid[3].rank));
}

#[test]
fn normalized_titles() {
    assert_eq!(normalize("  Hello World "), "hello world");
}

#[test]
fn better_ranked_duplicate_of_a_stack_document_stays() {
    let stack = vec![DedupKey { title: "News".to_string(), rank: 10, url: "https://x.com/1".to_string() }];
    let better = article("news", "https://x.com/2", 5);
    let worse = article("NEWS", "https://x.com/3", 10);
    assert_eq!(common_filter(&[], &stack, vec![better.clone()]), vec![better]);
    assert!(common_filter(&[], &stack, vec![worse]).is_empty());
}

#[test]
fn history_is_compared_by_url_and_by_the_items_url_against_history_titles() {
    // a history title under a new URL stays: the item's URL, not its title,
    // is compared with the history titles
    let history = vec![HistoryKey { title: "  Bundesliga SPIELTAG ".to_string(), url: "https://old.test/x".to_string() }];
    let filtered = sorted_titles(common_filter(&history, &[], valid_articles()));
    assert_eq!(filtered.len(), 4);
    // an item whose normalized URL is a history title goes
    let history = vec![HistoryKey { title: " HTTPS://EXAMPLE.COM/C".to_string(), url: "https://old.test/x".to_string() }];
    let filtered = sorted_titles(common_filter(&history, &[], valid_articles()));
    assert_eq!(filtered, ["Mensch mit düsterer Prognose", "Porsche entwickelt Antrieb", "Wetter am Wochenende"]);
}
