use discovery_engine_core::filter::{Filter, Market};
use discovery_engine_core::query::{
    append_market, CommonQueryParts, HeadlinesQuery, NewsQuery, RankLimit, SimilarNewsQuery,
    TrendingTopicsQuery, TrustedHeadlinesQuery, TrustedSourcesQuery,
};

fn p(pairs: &[(&str, &str)]) -> Vec<(String, String)> {
    pairs.iter().map(|(k, v)| (k.to_string(), v.to_string())).collect()
}

fn market(c: &str) -> Market {
    Market::new("en".to_string(), c.to_string())
}

#[test]
fn news_query_parameters() {
    let m = market("US");
    let filter = Filter::default().add_keyword("rust");
    let excluded = vec!["a.com".to_string(), "b.com".to_string()];
    let q = NewsQuery {
        market: &m,
        page_size: 20,
        page: 2,
        rank_limit: RankLimit::LimitedByMarket,
        excluded_sources: &excluded,
        filter: &filter,
        max_age_days: None,
    };
    assert_eq!(
        q.params(Some("2022/01/01".to_string())),
        p(&[
            ("page_size", "20"),
            ("page", "2"),
            ("not_sources", "a.com,b.com"),
            ("sort_by", "relevancy"),
            ("lang", "en"),
            ("countries", "US"),
            ("to_rank", "9000"),
            ("q", "(rust)"),
            ("from", "2022/01/01"),
        ])
    );
    assert_eq!(q.params_now().len(), 8);
}

#[test]
fn test_common_query_rank_unlimited() {
    let m = market("US");
    let q = CommonQueryParts {
        market: Some(&m),
        page_size: 2,
        page: 1,
        rank_limit: RankLimit::Unlimited,
        excluded_sources: &[],
    };
    assert_eq!(q.params(), p(&[("lang", "en"), ("countries", "US"), ("page_size", "2"), ("page", "1")]));
}

#[test]
fn headlines_query_parameters() {
    let m = market("DE");
    let q = HeadlinesQuery {
        market: &m,
        page_size: 10,
        page: 1,
        rank_limit: RankLimit::Unlimited,
        excluded_sources: &[],
        trusted_sources: &[],
        topic: Some("sports"),
        max_age_days: Some(3),
    };
    assert_eq!(q.compute_when().as_deref(), Some("3d"));
    assert_eq!(
        q.params(),
        p(&[
            ("page_size", "10"),
            ("page", "1"),
            ("lang", "en"),
            ("countries", "DE"),
            ("when", "3d"),
            ("topic", "sports"),
        ])
    );
}

#[test]
fn trusted_queries_parameters() {
    let trusted = vec!["x.com".to_string(), "y.com".to_string()];
    let q = TrustedHeadlinesQuery {
        market: None,
        page_size: 5,
        page: 3,
        rank_limit: RankLimit::Unlimited,
        excluded_sources: &[],
        trusted_sources: &trusted,
        max_age_days: Some(30),
    };
    assert_eq!(
        q.params(),
        p(&[("page_size", "5"), ("page", "3"), ("when", "30d"), ("sources", "x.com,y.com")])
    );
    let q = TrustedSourcesQuery {
        common: CommonQueryParts { market: None, page_size: 5, page: 1, rank_limit: RankLimit::Unlimited, excluded_sources: &[] },
        trusted_sources: &trusted,
        when: Some("3d"),
    };
    assert_eq!(
        q.params(),
        p(&[("page_size", "5"), ("page", "1"), ("sources", "x.com,y.com"), ("when", "3d")])
    );
}

#[test]
fn similar_and_trending_parameters() {
    let m = market("GB");
    let q = SimilarNewsQuery {
        like: "some text",
        market: &m,
        page_size: 10,
        page: 1,
        rank_limit: RankLimit::LimitedByMarket,
        excluded_sources: &[],
        max_age_days: None,
    };
    assert_eq!(
        q.params(None),
        p(&[
            ("like", "some text"),
            ("min_term_freq", "1"),
            ("page_size", "10"),
            ("page", "1"),
            ("sort_by", "relevancy"),
            ("lang", "en"),
            ("countries", "GB"),
            ("to_rank", "14000"),
        ])
    );
    assert_eq!(TrendingTopicsQuery { market: &m }.params(), p(&[("mkt", "en-GB")]));
    let mut params = Vec::new();
    append_market(&mut params, &market("FR"), RankLimit::LimitedByMarket);
    assert_eq!(params, p(&[("lang", "en"), ("countries", "FR")]));
}

#[test]
fn news_query_from_date_counts_back_from_today() {
    let m = market("US");
    let filter = Filter::default().add_keyword("rust");
    let query = |days: Option<usize>| NewsQuery {
        market: &m,
        page_size: 20,
        page: 1,
        rank_limit: RankLimit::Unlimited,
        excluded_sources: &[],
        filter: &filter,
        max_age_days: days,
    };
    let from = |params: Vec<(String, String)>| params.into_iter().find(|(k, _)| k == "from").map(|(_, v)| v);

    let expected = (chrono::Utc::now().date_naive() - chrono::Duration::days(3)).format("%Y/%m/%d").to_string();
    let got = from(query(Some(3)).params_now()).unwrap();
    // the day may turn between the two clock reads
    let later = (chrono::Utc::now().date_naive() - chrono::Duration::days(3)).format("%Y/%m/%d").to_string();
    assert!(got == expected || got == later, "{got}");
    assert_eq!(got.len(), 10);

    assert_eq!(from(query(None).params_now()), None);
    // a date out of the range of dates gives no oldest date
    assert_eq!(from(query(Some(usize::MAX)).params_now()), None);
}
