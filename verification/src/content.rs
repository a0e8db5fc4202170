//! Content delivered by the news providers: URLs with a domain, article
//! links, and which of the received articles are kept.

use vstd::prelude::*;

use crate::query::opt_view;

verus! {

#[verifier::external_type_specification]
#[verifier::external_body]
pub struct ExParseError(url::ParseError);

/// What parsing `input` as a URL gives: `None` when it is no URL, else the
/// serialization of the URL and its domain, if it has one.
pub uninterp spec fn url_parse_outcome(input: Seq<char>) -> Option<(Seq<char>, Option<Seq<char>>)>;

/// Parses `input` with `url::Url::parse` and reads the serialization of the
/// result (`Url::as_str`) and its domain (`Url::domain`).
///
/// The contract claims only that the outcome (failure, or the serialization
/// and the domain) is a function of the input, named `url_parse_outcome`.
#[verifier::external_body]
fn parse_url(input: &str) -> (r: Result<(String, Option<String>), url::ParseError>)
    ensures
        match r {
            Ok((text, d)) => url_parse_outcome(input@) == Some((text@, opt_view(d))),
            Err(_) => url_parse_outcome(input@) is None,
        },
{
    match url::Url::parse(input) {
        Ok(u) => {
            let d = match u.domain() {
                Some(d) => Some(d.to_string()),
                None => None,
            };
            Ok((u.as_str().to_string(), d))
        },
        Err(e) => Err(e),
    }
}

/// Errors about the content received from a provider.
#[derive(Debug)]
pub enum ContentError {
    /// Impossible to parse the provided url.
    InvalidUrl(url::ParseError),
    /// The provided Url is missing a domain.
    MissingDomainInUrl(String),
    /// None of the received articles were well-formed.
    NoValidArticles,
}

/// A URL that has a domain (unlike, e.g., `file:///foo/bar`), held as its
/// serialization.
pub struct UrlWithDomain {
    url: String,
    domain: String,
}

impl UrlWithDomain {
    /// Parses `input`, which must be a URL with a domain.
    pub fn parse(input: &str) -> (r: Result<UrlWithDomain, ContentError>)
        ensures
            match url_parse_outcome(input@) {
                None => r matches Err(ContentError::InvalidUrl(_)),
                Some((_, None)) => r matches Err(ContentError::MissingDomainInUrl(s)) && s@ == input@,
                Some((text, Some(d))) => r matches Ok(w) && w.url_view() == text && w.domain_view() == d,
            },
    {
        match parse_url(input) {
            Ok((url, Some(domain))) => Ok(UrlWithDomain { url, domain }),
            Ok((_, None)) => Err(ContentError::MissingDomainInUrl(String::from_str(input))),
            Err(e) => Err(ContentError::InvalidUrl(e)),
        }
    }

    /// The serialization of the URL.
    pub closed spec fn url_view(&self) -> Seq<char> {
        self.url@
    }

    /// The domain of the URL.
    pub closed spec fn domain_view(&self) -> Seq<char> {
        self.domain@
    }

    /// The domain of the URL.
    pub fn domain(&self) -> (r: &String)
        ensures
            r@ == self.domain_view(),
    {
        &self.domain
    }

    /// The URL, serialized.
    pub fn url(&self) -> (r: &String)
        ensures
            r@ == self.url_view(),
    {
        &self.url
    }
}

/// The rank of a source.
#[derive(Clone, Copy, Debug, Default)]
pub struct Rank(pub u64);

impl Rank {
    pub fn new(rank: u64) -> (r: Self)
        ensures
            r.0 == rank,
    {
        Rank(rank)
    }
}

/// The links of an article: the URL of the article and, when `media` is not
/// empty, the serialized URL of its image. The image is parsed first.
pub fn parse_article_urls(link: &str, media: &str) -> (r: Result<(UrlWithDomain, Option<String>), ContentError>)
    ensures
        media@.len() > 0 && url_parse_outcome(media@) is None ==> r matches Err(ContentError::InvalidUrl(_)),
        !(media@.len() > 0 && url_parse_outcome(media@) is None) ==> (match url_parse_outcome(link@) {
            None => r matches Err(ContentError::InvalidUrl(_)),
            Some((_, None)) => r matches Err(ContentError::MissingDomainInUrl(s)) && s@ == link@,
            Some((text, Some(d))) => r matches Ok((w, img)) && w.url_view() == text && w.domain_view() == d
                && opt_view(img) == (if media@.len() > 0 { Some(url_parse_outcome(media@).unwrap().0) } else { None::<Seq<char>> }),
        }),
{
    let image = if media.unicode_len() > 0 {
        match parse_url(media) {
            Ok((u, _)) => Some(u),
            Err(e) => {
                return Err(ContentError::InvalidUrl(e));
            },
        }
    } else {
        None
    };
    match UrlWithDomain::parse(link) {
        Ok(w) => Ok((w, image)),
        Err(e) => Err(e),
    }
}

/// The values of the `Ok` items, in order.
pub open spec fn ok_values<A, E>(s: Seq<Result<A, E>>) -> Seq<A>
    decreases s.len(),
{
    if s.len() == 0 {
        Seq::empty()
    } else {
        let init = ok_values(s.drop_last());
        match s.last() {
            Ok(a) => init.push(a),
            Err(_) => init,
        }
    }
}

/// The articles that could be converted, given the conversion outcome of
/// each received article: no articles received is no error, but received
/// articles none of which could be converted are.
pub fn valid_articles<A, E>(converted: Vec<Result<A, E>>) -> (r: Result<Vec<A>, ContentError>)
    ensures
        converted@.len() == 0 ==> (r matches Ok(v) && v@.len() == 0),
        converted@.len() > 0 && ok_values(converted@).len() > 0 ==> (r matches Ok(v) && v@ == ok_values(converted@)),
        converted@.len() > 0 && ok_values(converted@).len() == 0 ==> r matches Err(ContentError::NoValidArticles),
{
    let n = converted.len();
    if n == 0 {
        return Ok(Vec::new());
    }
    let oks = only_ok(converted);
    if oks.len() == 0 {
        Err(ContentError::NoValidArticles)
    } else {
        Ok(oks)
    }
}

/// The values of the `Ok` items, in order (the failed conversions are dropped).
pub fn only_ok<A, E>(converted: Vec<Result<A, E>>) -> (r: Vec<A>)
    ensures
        r@ == ok_values(converted@),
{
    let ghost all = converted@;
    let mut rest = converted;
    let mut rev: Vec<A> = Vec::new();
    // take the items from the back, collecting the `Ok` values in reverse
    while rest.len() > 0
        invariant
            ok_values(all) == ok_values(rest@) + rev@.reverse(),
        decreases rest.len(),
    {
        let ghost before = rest@;
        let item = rest.pop().unwrap();
        proof {
            assert(rest@ =~= before.drop_last());
        }
        match item {
            Ok(a) => {
                let ghost old_rev = rev@;
                rev.push(a);
                proof {
                    assert(rev@.reverse() =~= seq![a] + old_rev.reverse());
                    assert(ok_values(before) == ok_values(rest@).push(a));
                    assert(ok_values(rest@).push(a) + old_rev.reverse() =~= ok_values(rest@) + rev@.reverse());
                }
            },
            Err(_) => {},
        }
    }
    proof {
        assert(ok_values(rest@) =~= Seq::<A>::empty());
        assert(ok_values(all) =~= rev@.reverse());
    }
    let mut res: Vec<A> = Vec::new();
    while rev.len() > 0
        invariant
            ok_values(all) == res@ + rev@.reverse(),
        decreases rev.len(),
    {
        let ghost before = rev@;
        let a = rev.pop().unwrap();
        res.push(a);
        proof {
            assert(before.reverse() =~= seq![a] + rev@.reverse());
            assert(ok_values(all) =~= res@ + rev@.reverse());
        }
    }
    proof {
        assert(rev@.reverse() =~= Seq::<A>::empty());
        assert(res@ =~= ok_values(all));
    }
    res
}

/// The snippet, or the title if the snippet is empty.
pub fn snippet_or_title<'a>(title: &'a str, snippet: &'a str) -> (r: &'a str)
    ensures
        r@ == if snippet@.len() == 0 { title@ } else { snippet@ },
{
    if snippet.unicode_len() == 0 {
        title
    } else {
        snippet
    }
}

/// The title, or the snippet if the title is empty.
pub fn title_or_snippet<'a>(title: &'a str, snippet: &'a str) -> (r: &'a str)
    ensures
        r@ == if title@.len() == 0 { snippet@ } else { title@ },
{
    if title.unicode_len() == 0 {
        snippet
    } else {
        title
    }
}

/// Search query returning a trending topic.
#[derive(Debug, Default)]
pub struct SearchQuery {
    /// Query text.
    pub text: String,
}

/// Image relating to a trending topic.
#[derive(Debug, Default)]
pub struct Image {
    /// URL to the image.
    pub url: String,
}

/// A trending topic as the trending topics provider sends it.
#[derive(Debug, Default)]
pub struct TrendingTopic {
    /// Title of the trending topic.
    pub name: String,
    /// Search query that returns this topic.
    pub query: SearchQuery,
    /// Link to a related image.
    pub image: Image,
}

/// The image of a trending topic: none for an empty link, else the
/// serialization of the parsed link.
pub fn topic_image(image: &Image) -> (r: Result<Option<String>, ContentError>)
    ensures
        image.url@.len() == 0 ==> r matches Ok(None),
        image.url@.len() > 0 && url_parse_outcome(image.url@) is None ==> r matches Err(ContentError::InvalidUrl(_)),
        image.url@.len() > 0 && url_parse_outcome(image.url@) is Some ==> (r matches Ok(Some(u))
            && u@ == url_parse_outcome(image.url@).unwrap().0),
{
    if image.url.unicode_len() == 0 {
        return Ok(None);
    }
    match parse_url(image.url.as_str()) {
        Ok((u, _)) => Ok(Some(u)),
        Err(e) => Err(ContentError::InvalidUrl(e)),
    }
}

} // verus!
