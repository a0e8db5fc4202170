//! The configuration of the news providers: their endpoint URLs, timeouts
//! and retries, and which provider serves an endpoint.

use vstd::prelude::*;
use crate::text::{str_equal, strings_view};

verus! {

/// The default route of the news search.
pub const SEARCH_ROUTE: &'static str = "/newscatcher/v2/search";
/// The default route of the similar news search.
pub const SIMILAR_SEARCH_ROUTE: &'static str = "/_mlt";
/// The default route of the latest headlines.
pub const HEADLINES_ROUTE: &'static str = "/newscatcher/v2/latest_headlines";
/// The default route of the headlines from trusted sources.
pub const TRUSTED_HEADLINES_ROUTE: &'static str = "/newscatcher/v2/trusted-sources";

/// The default timeout of a request, in milliseconds.
pub const DEFAULT_TIMEOUT_MS: u64 = 3500;

/// What joining `route` to the base URL `base` gives: its serialization, or
/// `None` when `base` is no URL or the join fails.
pub uninterp spec fn joined_url(base: Seq<char>, route: Seq<char>) -> Option<Seq<char>>;

/// Parses `base` with `url::Url::parse`, joins `route` to it with
/// `Url::join` and hands back the serialization of the result
/// (`Url::as_str`).
///
/// The contract claims only that the outcome is a function of the two
/// strings, named `joined_url`.
#[verifier::external_body]
fn join_url(base: &str, route: &str) -> (r: Result<String, url::ParseError>)
    ensures
        match r {
            Ok(text) => joined_url(base@, route@) == Some(text@),
            Err(_) => joined_url(base@, route@) is None,
        },
{
    match url::Url::parse(base).and_then(|b| b.join(route)) {
        Ok(u) => Ok(u.as_str().to_string()),
        Err(e) => Err(e),
    }
}

/// The segments of the path of the URL serialized as `url`, `None` where
/// `url` is no URL or one that cannot be a base.
pub uninterp spec fn url_path_segments(url: Seq<char>) -> Option<Seq<Seq<char>>>;

/// The view of optional path segments.
pub open spec fn segments_view(segments: Option<Vec<String>>) -> Option<Seq<Seq<char>>> {
    match segments {
        Some(v) => Some(strings_view(v@)),
        None => None,
    }
}

/// Parses `url` with `url::Url::parse` and hands back its path segments
/// (`Url::path_segments`).
///
/// The contract claims only that the outcome is a function of the string,
/// named `url_path_segments`.
#[verifier::external_body]
fn path_segments(url: &str) -> (r: Option<Vec<String>>)
    ensures
        segments_view(r) == url_path_segments(url@),
{
    match url::Url::parse(url) {
        Ok(u) => u.path_segments().map(|segments| segments.map(|s| s.to_string()).collect()),
        Err(_) => None,
    }
}

/// Errors of the provider configuration.
#[derive(Debug)]
pub enum ProviderError {
    /// The base URL or the route does not make a URL.
    MalformedUrlInConfig(url::ParseError),
    /// No provider serves this endpoint.
    NoProviderForEndpoint { url: String },
}

/// The configuration of one provider endpoint.
pub struct ProviderConfig {
    /// The URL of the endpoint, serialized.
    pub url_text: String,
    /// The authorization token.
    pub token: String,
    /// The timeout of a request, in milliseconds.
    pub timeout_ms: u64,
    /// The number of retries after a timeout.
    pub retry: usize,
    /// Whether queries are sent as the body of a POST request.
    pub get_as_post: bool,
}

/// The route used: the given one, else the default.
pub open spec fn route_or(route: Option<&str>, default: &str) -> Seq<char> {
    match route {
        Some(r) => r@,
        None => default@,
    }
}

impl ProviderConfig {
    /// The configuration of the endpoint `route` of `base`, with the default
    /// timeout and no retry.
    pub fn new(base: &str, route: &str, token: String, get_as_post: bool) -> (r: Result<ProviderConfig, ProviderError>)
        ensures
            r is Ok <==> joined_url(base@, route@) is Some,
            r matches Ok(c) ==> (Some(c.url_text@) == joined_url(base@, route@) && c.token == token
                && c.timeout_ms == DEFAULT_TIMEOUT_MS && c.retry == 0 && c.get_as_post == get_as_post),
    {
        match join_url(base, route) {
            Ok(url_text) => Ok(ProviderConfig {
                url_text,
                token,
                timeout_ms: DEFAULT_TIMEOUT_MS,
                retry: 0,
                get_as_post,
            }),
            Err(e) => Err(ProviderError::MalformedUrlInConfig(e)),
        }
    }

    /// The news search endpoint (its default route unless one is given).
    pub fn search(base: &str, route: Option<&str>, token: String) -> (r: Result<ProviderConfig, ProviderError>)
        ensures
            r is Ok <==> joined_url(base@, route_or(route, SEARCH_ROUTE)) is Some,
            r matches Ok(c) ==> (Some(c.url_text@) == joined_url(base@, route_or(route, SEARCH_ROUTE))
                && c.token == token && c.get_as_post),
    {
        let route = match route {
            Some(r) => r,
            None => SEARCH_ROUTE,
        };
        ProviderConfig::new(base, route, token, true)
    }

    /// The similar news search endpoint (its default route unless one is
    /// given).
    pub fn similar_search(base: &str, route: Option<&str>, token: String) -> (r: Result<ProviderConfig, ProviderError>)
        ensures
            r is Ok <==> joined_url(base@, route_or(route, SIMILAR_SEARCH_ROUTE)) is Some,
            r matches Ok(c) ==> (Some(c.url_text@) == joined_url(base@, route_or(route, SIMILAR_SEARCH_ROUTE))
                && c.token == token && c.get_as_post),
    {
        let route = match route {
            Some(r) => r,
            None => SIMILAR_SEARCH_ROUTE,
        };
        ProviderConfig::new(base, route, token, true)
    }

    /// The latest headlines endpoint (its default route unless one is
    /// given).
    pub fn headlines(base: &str, route: Option<&str>, token: String) -> (r: Result<ProviderConfig, ProviderError>)
        ensures
            r is Ok <==> joined_url(base@, route_or(route, HEADLINES_ROUTE)) is Some,
            r matches Ok(c) ==> (Some(c.url_text@) == joined_url(base@, route_or(route, HEADLINES_ROUTE))
                && c.token == token && c.get_as_post),
    {
        let route = match route {
            Some(r) => r,
            None => HEADLINES_ROUTE,
        };
        ProviderConfig::new(base, route, token, true)
    }

    /// The trusted headlines endpoint (its default route unless one is
    /// given).
    pub fn trusted_headlines(base: &str, route: Option<&str>, token: String) -> (r: Result<ProviderConfig, ProviderError>)
        ensures
            r is Ok <==> joined_url(base@, route_or(route, TRUSTED_HEADLINES_ROUTE)) is Some,
            r matches Ok(c) ==> (Some(c.url_text@) == joined_url(base@, route_or(route, TRUSTED_HEADLINES_ROUTE))
                && c.token == token && c.get_as_post),
    {
        let route = match route {
            Some(r) => r,
            None => TRUSTED_HEADLINES_ROUTE,
        };
        ProviderConfig::new(base, route, token, true)
    }

    /// The configuration with another timeout.
    pub fn with_timeout(self, millis: u64) -> (r: ProviderConfig)
        ensures
            r.timeout_ms == millis,
            r.retry == self.retry,
            r.token == self.token,
            r.url_text == self.url_text,
            r.get_as_post == self.get_as_post,
    {
        let mut c = self;
        c.timeout_ms = millis;
        c
    }

    /// The configuration with another number of retries.
    pub fn with_retry(self, retry: usize) -> (r: ProviderConfig)
        ensures
            r.retry == retry,
            r.timeout_ms == self.timeout_ms,
            r.token == self.token,
            r.url_text == self.url_text,
            r.get_as_post == self.get_as_post,
    {
        let mut c = self;
        c.retry = retry;
        c
    }

    /// The configuration with the timeout and the number of retries replaced
    /// where they are given.
    pub fn with_overrides(self, timeout_ms: Option<u64>, retry: Option<usize>) -> (r: ProviderConfig)
        ensures
            r.timeout_ms == (match timeout_ms { Some(t) => t, None => self.timeout_ms }),
            r.retry == (match retry { Some(n) => n, None => self.retry }),
            r.token == self.token,
            r.url_text == self.url_text,
            r.get_as_post == self.get_as_post,
    {
        let c = match timeout_ms {
            Some(t) => self.with_timeout(t),
            None => self,
        };
        match retry {
            Some(n) => c.with_retry(n),
            None => c,
        }
    }
}

/// Whether a path with these segments is served by the Newscatcher
/// provider: one of its segments is `newscatcher`.
pub open spec fn newscatcher_path(segments: Option<Seq<Seq<char>>>) -> bool {
    match segments {
        Some(s) => s.contains("newscatcher"@),
        None => false,
    }
}

/// Whether a path with these segments is served by the Newscatcher
/// provider.
pub fn is_newscatcher_path(segments: &Option<Vec<String>>) -> (r: bool)
    ensures
        r == newscatcher_path(segments_view(*segments)),
{
    match segments {
        None => false,
        Some(v) => {
            let ghost sv = strings_view(v@);
            let mut i: usize = 0;
            while i < v.len()
                invariant
                    i <= v@.len(),
                    sv == strings_view(v@),
                    *segments == Some(*v),
                    forall|k: int| 0 <= k < i ==> sv[k] != "newscatcher"@,
                decreases v@.len() - i,
            {
                if str_equal(v[i].as_str(), "newscatcher") {
                    proof {
                        assert(sv[i as int] == "newscatcher"@);
                        assert(sv.contains("newscatcher"@));
                    }
                    return true;
                }
                i = i + 1;
            }
            false
        },
    }
}

/// Checks that the Newscatcher provider serves the endpoint of `config`;
/// the error names the endpoint's URL.
pub fn select_provider(config: &ProviderConfig) -> (r: Result<(), ProviderError>)
    ensures
        r is Ok <==> newscatcher_path(url_path_segments(config.url_text@)),
        r matches Err(ProviderError::NoProviderForEndpoint { url }) ==> url == config.url_text,
        !(r matches Err(ProviderError::MalformedUrlInConfig(_))),
{
    let segments = path_segments(config.url_text.as_str());
    if is_newscatcher_path(&segments) {
        Ok(())
    } else {
        Err(ProviderError::NoProviderForEndpoint { url: config.url_text.clone() })
    }
}

} // verus!
