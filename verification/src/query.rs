//! Queries to the news providers and the request parameters they turn into.

use std::fmt::Write;

use chrono::Datelike;
use vstd::prelude::*;

use crate::filter::{filter_query, quality_rank_limit_of, Filter, Market};
use crate::text::{decimal, join_seqs, join_strings, strings_view, usize_to_string};

verus! {

/// Page rank limiting strategy.
#[derive(Clone, Copy)]
pub enum RankLimit {
    LimitedByMarket,
    Unlimited,
}

/// Parameters determining which news to fetch.
pub struct NewsQuery<'a> {
    /// Market of news.
    pub market: &'a Market,
    /// How many articles to return (per page).
    pub page_size: usize,
    /// The number of the page which should be returned; paging starts with `1`.
    pub page: usize,
    /// Page rank limiting strategy.
    pub rank_limit: RankLimit,
    /// Exclude given sources.
    pub excluded_sources: &'a [String],
    /// News filter.
    pub filter: &'a Filter,
    /// Maximum age of news items we want to include in the results.
    pub max_age_days: Option<usize>,
}

/// Parameters determining which headlines to fetch.
pub struct HeadlinesQuery<'a> {
    /// Market of news.
    pub market: &'a Market,
    /// How many articles to return (per page).
    pub page_size: usize,
    /// The number of the page which should be returned; paging starts with `1`.
    pub page: usize,
    /// Page rank limiting strategy.
    pub rank_limit: RankLimit,
    /// Exclude given sources.
    pub excluded_sources: &'a [String],
    /// Trusted sources.
    pub trusted_sources: &'a [String],
    /// Headlines topic.
    pub topic: Option<&'a str>,
    /// Maximum age of news items we want to include in the results.
    pub max_age_days: Option<usize>,
}

/// Parameters determining which headlines from trusted sources to fetch.
pub struct TrustedHeadlinesQuery<'a> {
    /// Market of news (not used by the provider).
    pub market: Option<&'a Market>,
    /// How many articles to return (per page).
    pub page_size: usize,
    /// The number of the page which should be returned; paging starts with `1`.
    pub page: usize,
    /// Page rank limiting strategy.
    pub rank_limit: RankLimit,
    /// Exclude given sources.
    pub excluded_sources: &'a [String],
    /// Prefer trusted sources.
    pub trusted_sources: &'a [String],
    /// Maximum age of news items we want to include in the results.
    pub max_age_days: Option<usize>,
}

/// Parameters determining which news similar to a text to fetch.
pub struct SimilarNewsQuery<'a> {
    /// The text the news should be similar to.
    pub like: &'a str,
    /// Market of news.
    pub market: &'a Market,
    /// How many articles to return (per page).
    pub page_size: usize,
    /// The number of the page which should be returned; paging starts with `1`.
    pub page: usize,
    /// Page rank limiting strategy.
    pub rank_limit: RankLimit,
    /// Exclude given sources.
    pub excluded_sources: &'a [String],
    /// Maximum age of news items we want to include in the results.
    pub max_age_days: Option<usize>,
}

/// Parameters for fetching trending news topics.
pub struct TrendingTopicsQuery<'a> {
    /// Market to fetch results from.
    pub market: &'a Market,
}

/// A request parameter: key and value.
pub type Param = (Seq<char>, Seq<char>);

/// The views of request parameters.
pub open spec fn params_view(v: Seq<(String, String)>) -> Seq<Param> {
    v.map_values(|p: (String, String)| (p.0@, p.1@))
}

pub open spec fn paging_params(page_size: usize, page: usize) -> Seq<Param> {
    seq![("page_size"@, decimal(page_size as nat)), ("page"@, decimal(page as nat))]
}

pub open spec fn excluded_params(excluded: Seq<String>) -> Seq<Param> {
    if excluded.len() == 0 {
        Seq::empty()
    } else {
        seq![("not_sources"@, join_seqs(strings_view(excluded), ","@))]
    }
}

pub open spec fn trusted_params(trusted: Seq<String>) -> Seq<Param> {
    if trusted.len() == 0 {
        Seq::empty()
    } else {
        seq![("sources"@, join_seqs(strings_view(trusted), ","@))]
    }
}

/// Language, countries and, when the rank is limited by market and the
/// market has a quality rank limit, that limit.
pub open spec fn market_params(market: Market, rank_limit: RankLimit) -> Seq<Param> {
    seq![("lang"@, market.lang_code@), ("countries"@, market.country_code@)] + match (
        rank_limit,
        quality_rank_limit_of(market.country_code@),
    ) {
        (RankLimit::LimitedByMarket, Some(limit)) => seq![("to_rank"@, decimal(limit as nat))],
        _ => Seq::empty(),
    }
}

pub open spec fn sort_params() -> Seq<Param> {
    seq![("sort_by"@, "relevancy"@)]
}

pub open spec fn from_params(from: Option<Seq<char>>) -> Seq<Param> {
    match from {
        Some(d) => seq![("from"@, d)],
        None => Seq::empty(),
    }
}

/// The `when` value of a maximum age in days, e.g. `3d`.
pub open spec fn when_value(days: usize) -> Seq<char> {
    decimal(days as nat).push('d')
}

pub open spec fn when_params(max_age_days: Option<usize>) -> Seq<Param> {
    match max_age_days {
        Some(days) => seq![("when"@, when_value(days))],
        None => Seq::empty(),
    }
}

pub open spec fn topic_params(topic: Option<&str>) -> Seq<Param> {
    match topic {
        Some(t) => seq![("topic"@, t@)],
        None => Seq::empty(),
    }
}

/// The parameters of a news search, `from` being the date of the oldest news.
pub open spec fn news_params(q: NewsQuery, from: Option<Seq<char>>) -> Seq<Param> {
    paging_params(q.page_size, q.page) + excluded_params(q.excluded_sources@) + sort_params()
        + market_params(*q.market, q.rank_limit) + seq![("q"@, filter_query(q.filter@))]
        + from_params(from)
}

/// The parameters of a headlines request.
pub open spec fn headlines_params(q: HeadlinesQuery) -> Seq<Param> {
    paging_params(q.page_size, q.page) + excluded_params(q.excluded_sources@) + market_params(
        *q.market,
        q.rank_limit,
    ) + when_params(q.max_age_days) + topic_params(q.topic)
}

/// The parameters of a trusted headlines request.
pub open spec fn trusted_headlines_params(q: TrustedHeadlinesQuery) -> Seq<Param> {
    paging_params(q.page_size, q.page) + excluded_params(q.excluded_sources@) + when_params(
        q.max_age_days,
    ) + trusted_params(q.trusted_sources@)
}

/// The parameters of a similar news request, `from` being the date of the oldest news.
pub open spec fn similar_news_params(q: SimilarNewsQuery, from: Option<Seq<char>>) -> Seq<Param> {
    seq![("like"@, q.like@), ("min_term_freq"@, "1"@)] + paging_params(q.page_size, q.page)
        + excluded_params(q.excluded_sources@) + sort_params() + market_params(
        *q.market,
        q.rank_limit,
    ) + from_params(from)
}

/// The parameters of a trending topics request: the market as `lang-country`.
pub open spec fn trending_topics_params(q: TrendingTopicsQuery) -> Seq<Param> {
    seq![("mkt"@, q.market.lang_code@ + "-"@ + q.market.country_code@)]
}

fn push_param(params: &mut Vec<(String, String)>, key: &str, value: String)
    ensures
        params_view(final(params)@) == params_view(old(params)@).push((key@, value@)),
{
    let k = String::from_str(key);
    params.push((k, value));
    proof {
        assert(params_view(params@) =~= params_view(old(params)@).push((key@, value@)));
    }
}

fn push_paging(params: &mut Vec<(String, String)>, page_size: usize, page: usize)
    ensures
        params_view(final(params)@) == params_view(old(params)@) + paging_params(page_size, page),
{
    push_param(params, "page_size", usize_to_string(page_size));
    push_param(params, "page", usize_to_string(page));
    proof {
        assert(params_view(params@) =~= params_view(old(params)@) + paging_params(page_size, page));
    }
}

fn push_excluded(params: &mut Vec<(String, String)>, excluded: &[String])
    ensures
        params_view(final(params)@) == params_view(old(params)@) + excluded_params(excluded@),
{
    if excluded.len() > 0 {
        push_param(params, "not_sources", join_strings(excluded, ","));
        proof {
            assert(params_view(params@) =~= params_view(old(params)@) + excluded_params(excluded@));
        }
    } else {
        proof {
            assert(params_view(params@) =~= params_view(old(params)@) + excluded_params(excluded@));
        }
    }
}

fn push_trusted(params: &mut Vec<(String, String)>, trusted: &[String])
    ensures
        params_view(final(params)@) == params_view(old(params)@) + trusted_params(trusted@),
{
    if trusted.len() > 0 {
        push_param(params, "sources", join_strings(trusted, ","));
        proof {
            assert(params_view(params@) =~= params_view(old(params)@) + trusted_params(trusted@));
        }
    } else {
        proof {
            assert(params_view(params@) =~= params_view(old(params)@) + trusted_params(trusted@));
        }
    }
}

/// Appends the market parameters (see [`market_params`]).
pub fn append_market(params: &mut Vec<(String, String)>, market: &Market, rank_limit: RankLimit)
    ensures
        params_view(final(params)@) == params_view(old(params)@) + market_params(*market, rank_limit),
{
    push_param(params, "lang", market.lang_code.clone());
    push_param(params, "countries", market.country_code.clone());
    let limit = market.quality_rank_limit();
    match rank_limit {
        RankLimit::LimitedByMarket => match limit {
            Some(l) => {
                push_param(params, "to_rank", usize_to_string(l));
            },
            None => {},
        },
        RankLimit::Unlimited => {},
    }
    proof {
        assert(params_view(params@) =~= params_view(old(params)@) + market_params(*market, rank_limit));
    }
}

fn push_sort(params: &mut Vec<(String, String)>)
    ensures
        params_view(final(params)@) == params_view(old(params)@) + sort_params(),
{
    push_param(params, "sort_by", String::from_str("relevancy"));
    proof {
        assert(params_view(params@) =~= params_view(old(params)@) + sort_params());
    }
}

fn push_from(params: &mut Vec<(String, String)>, from: Option<String>)
    ensures
        params_view(final(params)@) == params_view(old(params)@) + from_params(opt_view(from)),
{
    let ghost fv = opt_view(from);
    match from {
        Some(d) => {
            push_param(params, "from", d);
        },
        None => {},
    }
    proof {
        assert(params_view(params@) =~= params_view(old(params)@) + from_params(fv));
    }
}

/// The `when` value of a maximum age in days, e.g. `3d`.
pub fn when_string(days: usize) -> (r: String)
    ensures
        r@ == when_value(days),
{
    let mut s = usize_to_string(days);
    s.append("d");
    proof {
        reveal_strlit("d");
        assert(s@ =~= when_value(days));
    }
    s
}

fn push_when(params: &mut Vec<(String, String)>, max_age_days: Option<usize>)
    ensures
        params_view(final(params)@) == params_view(old(params)@) + when_params(max_age_days),
{
    match max_age_days {
        Some(days) => {
            push_param(params, "when", when_string(days));
        },
        None => {},
    }
    proof {
        assert(params_view(params@) =~= params_view(old(params)@) + when_params(max_age_days));
    }
}

/// The view of an optional string.
pub open spec fn opt_view(o: Option<String>) -> Option<Seq<char>> {
    match o {
        Some(s) => Some(s@),
        None => None,
    }
}

impl<'a> NewsQuery<'a> {
    /// The request parameters of this news search, given the date of the
    /// oldest news to include.
    pub fn params(&self, from: Option<String>) -> (r: Vec<(String, String)>)
        ensures
            params_view(r@) == news_params(*self, opt_view(from)),
    {
        let mut params: Vec<(String, String)> = Vec::new();
        push_paging(&mut params, self.page_size, self.page);
        push_excluded(&mut params, self.excluded_sources);
        push_sort(&mut params);
        append_market(&mut params, self.market, self.rank_limit);
        push_param(&mut params, "q", self.filter.build());
        push_from(&mut params, from);
        proof {
            assert(params_view(params@) =~= news_params(*self, opt_view(from)));
        }
        params
    }
}

impl<'a> HeadlinesQuery<'a> {
    /// The `when` parameter: the maximum age in days, e.g. `3d`.
    pub fn compute_when(&self) -> (r: Option<String>)
        ensures
            opt_view(r) == match self.max_age_days {
                Some(days) => Some(when_value(days)),
                None => None,
            },
    {
        match self.max_age_days {
            Some(days) => Some(when_string(days)),
            None => None,
        }
    }

    /// The request parameters of this headlines request.
    pub fn params(&self) -> (r: Vec<(String, String)>)
        ensures
            params_view(r@) == headlines_params(*self),
    {
        let mut params: Vec<(String, String)> = Vec::new();
        push_paging(&mut params, self.page_size, self.page);
        push_excluded(&mut params, self.excluded_sources);
        append_market(&mut params, self.market, self.rank_limit);
        push_when(&mut params, self.max_age_days);
        let ghost before = params_view(params@);
        match self.topic {
            Some(t) => {
                push_param(&mut params, "topic", String::from_str(t));
            },
            None => {},
        }
        proof {
            assert(params_view(params@) =~= before + topic_params(self.topic));
            assert(params_view(params@) =~= headlines_params(*self));
        }
        params
    }
}

impl<'a> TrustedHeadlinesQuery<'a> {
    /// The request parameters of this trusted headlines request.
    pub fn params(&self) -> (r: Vec<(String, String)>)
        ensures
            params_view(r@) == trusted_headlines_params(*self),
    {
        let mut params: Vec<(String, String)> = Vec::new();
        push_paging(&mut params, self.page_size, self.page);
        push_excluded(&mut params, self.excluded_sources);
        push_when(&mut params, self.max_age_days);
        push_trusted(&mut params, self.trusted_sources);
        proof {
            assert(params_view(params@) =~= trusted_headlines_params(*self));
        }
        params
    }
}

impl<'a> SimilarNewsQuery<'a> {
    /// The request parameters of this similar news request, given the date
    /// of the oldest news to include.
    pub fn params(&self, from: Option<String>) -> (r: Vec<(String, String)>)
        ensures
            params_view(r@) == similar_news_params(*self, opt_view(from)),
    {
        let mut params: Vec<(String, String)> = Vec::new();
        push_param(&mut params, "like", String::from_str(self.like));
        push_param(&mut params, "min_term_freq", String::from_str("1"));
        push_paging(&mut params, self.page_size, self.page);
        push_excluded(&mut params, self.excluded_sources);
        push_sort(&mut params);
        append_market(&mut params, self.market, self.rank_limit);
        push_from(&mut params, from);
        proof {
            assert(params_view(params@) =~= similar_news_params(*self, opt_view(from)));
        }
        params
    }
}

impl<'a> TrendingTopicsQuery<'a> {
    /// The request parameters of this trending topics request.
    pub fn params(&self) -> (r: Vec<(String, String)>)
        ensures
            params_view(r@) == trending_topics_params(*self),
    {
        let mut mkt = self.market.lang_code.clone();
        mkt.append("-");
        mkt.append(self.market.country_code.as_str());
        let mut params: Vec<(String, String)> = Vec::new();
        push_param(&mut params, "mkt", mkt);
        proof {
            assert(params_view(params@) =~= trending_topics_params(*self));
        }
        params
    }
}


/// The strftime pattern of the `from` date the providers expect:
/// `YYYY/MM/DD`.
pub const DATE_PATTERN: &'static str = "%Y/%m/%d";

/// Reads the current date in UTC (`chrono::Utc::now`, then
/// `DateTime::date_naive`) as its year, month and day of month.
///
/// The result depends on the clock; the contract claims only the ranges of
/// a month (`Datelike::month`, 1 to 12) and of a day of the month
/// (`Datelike::day`, 1 to 31).
#[verifier::external_body]
fn today() -> (r: (i32, u32, u32))
    ensures
        1 <= r.1 <= 12,
        1 <= r.2 <= 31,
{
    let date = chrono::Utc::now().date_naive();
    (date.year(), date.month(), date.day())
}

/// The date `days` days before the calendar date `year`-`month`-`day`,
/// formatted with the strftime pattern `pattern`; `None` where the date is
/// no calendar date, the earlier date leaves the range of dates, or the
/// pattern is not valid.
pub uninterp spec fn date_before(year: int, month: int, day: int, days: int, pattern: Seq<char>) -> Option<Seq<char>>;

/// Makes the date `year`-`month`-`day` (`NaiveDate::from_ymd_opt`), goes
/// `days` days back (`NaiveDate::checked_sub_days`) and formats the result
/// with `pattern` (`NaiveDate::format`, written into a `String`).
///
/// The contract claims only that the outcome is a function of the
/// arguments, named `date_before`.
#[verifier::external_body]
fn format_date_before(year: i32, month: u32, day: u32, days: u64, pattern: &str) -> (r: Option<String>)
    ensures
        opt_view(r) == date_before(year as int, month as int, day as int, days as int, pattern@),
{
    let date = chrono::NaiveDate::from_ymd_opt(year, month, day)?;
    let from = date.checked_sub_days(chrono::Days::new(days))?;
    let mut text = String::new();
    write!(text, "{}", from.format(pattern)).ok()?;
    Some(text)
}

/// The `from` date `max_age_days` days before today, where a maximum age
/// is set: both the date and its text, the latter `None` where no date
/// results.
fn from_date(max_age_days: Option<usize>) -> (r: Option<((i32, u32, u32), Option<String>)>)
    ensures
        max_age_days is None <==> r is None,
        max_age_days matches Some(days) ==> (r matches Some((t, text))
            && opt_view(text) == date_before(t.0 as int, t.1 as int, t.2 as int, days as int, DATE_PATTERN@)),
{
    match max_age_days {
        Some(days) => {
            let t = today();
            let text = format_date_before(t.0, t.1, t.2, days as u64, DATE_PATTERN);
            Some((t, text))
        },
        None => None,
    }
}

impl<'a> NewsQuery<'a> {
    /// The request parameters of this news search, the oldest date being
    /// `max_age_days` before today (formatted `YYYY/MM/DD`), and no oldest
    /// date where that leaves the range of dates.
    pub fn params_now(&self) -> (r: Vec<(String, String)>)
        ensures
            self.max_age_days is None ==> params_view(r@) == news_params(*self, None),
            self.max_age_days matches Some(days) ==> exists|y: int, m: int, d: int|
                params_view(r@) == news_params(*self, #[trigger] date_before(y, m, d, days as int, DATE_PATTERN@)),
    {
        match from_date(self.max_age_days) {
            Some((t, text)) => {
                let r = self.params(text);
                proof {
                    assert(params_view(r@) == news_params(*self, date_before(t.0 as int, t.1 as int, t.2 as int, self.max_age_days.unwrap() as int, DATE_PATTERN@)));
                }
                r
            },
            None => self.params(None),
        }
    }
}

impl<'a> SimilarNewsQuery<'a> {
    /// The request parameters of this similar news request, the oldest date
    /// being `max_age_days` before today (formatted `YYYY/MM/DD`), and no
    /// oldest date where that leaves the range of dates.
    pub fn params_now(&self) -> (r: Vec<(String, String)>)
        ensures
            self.max_age_days is None ==> params_view(r@) == similar_news_params(*self, None),
            self.max_age_days matches Some(days) ==> exists|y: int, m: int, d: int|
                params_view(r@) == similar_news_params(*self, #[trigger] date_before(y, m, d, days as int, DATE_PATTERN@)),
    {
        match from_date(self.max_age_days) {
            Some((t, text)) => {
                let r = self.params(text);
                proof {
                    assert(params_view(r@) == similar_news_params(*self, date_before(t.0 as int, t.1 as int, t.2 as int, self.max_age_days.unwrap() as int, DATE_PATTERN@)));
                }
                r
            },
            None => self.params(None),
        }
    }
}

/// Elements shared between the queries of the Newscatcher client.
pub struct CommonQueryParts<'a> {
    /// Market of news.
    pub market: Option<&'a Market>,
    /// How many articles to return (per page).
    pub page_size: usize,
    /// The number of the page which should be returned; paging starts with `1`.
    pub page: usize,
    /// Page rank limiting strategy.
    pub rank_limit: RankLimit,
    /// Exclude given sources.
    pub excluded_sources: &'a [String],
}

/// The parameters of the common parts: the market's, then paging, then the
/// excluded sources.
pub open spec fn common_params(c: CommonQueryParts) -> Seq<Param> {
    (match c.market {
        Some(m) => market_params(*m, c.rank_limit),
        None => Seq::empty(),
    }) + paging_params(c.page_size, c.page) + excluded_params(c.excluded_sources@)
}

impl<'a> CommonQueryParts<'a> {
    /// The request parameters of the common parts.
    pub fn params(&self) -> (r: Vec<(String, String)>)
        ensures
            params_view(r@) == common_params(*self),
    {
        let mut params: Vec<(String, String)> = Vec::new();
        match self.market {
            Some(m) => append_market(&mut params, m, self.rank_limit),
            None => {},
        }
        push_paging(&mut params, self.page_size, self.page);
        push_excluded(&mut params, self.excluded_sources);
        proof {
            assert(params_view(params@) =~= common_params(*self));
        }
        params
    }
}

/// Parameters determining which headlines from trusted sources to fetch.
pub struct TrustedSourcesQuery<'a> {
    /// Common parts.
    pub common: CommonQueryParts<'a>,
    /// Prefer trusted sources.
    pub trusted_sources: &'a [String],
    /// The time period to get the latest headlines for, e.g. `3d`.
    pub when: Option<&'a str>,
}

/// The parameters of a trusted sources query: the common ones, the
/// trusted sources and the time period.
pub open spec fn trusted_sources_params(q: TrustedSourcesQuery) -> Seq<Param> {
    common_params(q.common) + trusted_params(q.trusted_sources@) + match q.when {
        Some(w) => seq![("when"@, w@)],
        None => Seq::empty(),
    }
}

impl<'a> TrustedSourcesQuery<'a> {
    /// The request parameters of this query.
    pub fn params(&self) -> (r: Vec<(String, String)>)
        ensures
            params_view(r@) == trusted_sources_params(*self),
    {
        let mut params = self.common.params();
        push_trusted(&mut params, self.trusted_sources);
        let ghost before = params_view(params@);
        match self.when {
            Some(w) => push_param(&mut params, "when", String::from_str(w)),
            None => {},
        }
        proof {
            assert(params_view(params@) =~= trusted_sources_params(*self));
        }
        params
    }
}

/// `part` occurs in `text`.
pub open spec fn occurs_in(part: Seq<char>, text: Seq<char>) -> bool {
    exists|o: int| 0 <= o && o + part.len() <= text.len() && #[trigger] text.subrange(o, o + part.len()) == part
}

/// Every part occurs in the parts joined with a separator.
pub proof fn lemma_join_holds_parts(parts: Seq<Seq<char>>, sep: Seq<char>, k: int)
    requires
        0 <= k < parts.len(),
    ensures
        occurs_in(parts[k], join_seqs(parts, sep)),
    decreases parts.len(),
{
    let j = join_seqs(parts, sep);
    if parts.len() == 1 {
        let o: int = 0;
        assert(j.subrange(o, o + parts[k].len()) =~= parts[k]);
    } else if k == parts.len() - 1 {
        let o = j.len() - parts.last().len();
        assert(j.subrange(o, o + parts[k].len()) =~= parts[k]);
    } else {
        let init = parts.drop_last();
        lemma_join_holds_parts(init, sep, k);
        assert(init[k] == parts[k]);
        let ij = join_seqs(init, sep);
        let o = choose|o: int| 0 <= o && o + parts[k].len() <= ij.len() && #[trigger] ij.subrange(o, o + parts[k].len()) == parts[k];
        assert(j.subrange(o, o + parts[k].len()) =~= ij.subrange(o, o + parts[k].len()));
    }
}

/// The parameters send the excluded sources: where there are some, a
/// `not_sources` parameter whose value holds every one of them; where there
/// are none, no `not_sources` parameter.
pub open spec fn sends_excluded(params: Seq<Param>, excluded: Seq<Seq<char>>) -> bool {
    if excluded.len() == 0 {
        forall|i: int| 0 <= i < params.len() ==> (#[trigger] params[i]).0 != "not_sources"@
    } else {
        exists|i: int| 0 <= i < params.len() && (#[trigger] params[i]).0 == "not_sources"@
            && forall|k: int| 0 <= k < excluded.len() ==> occurs_in(#[trigger] excluded[k], params[i].1)
    }
}

proof fn lemma_excluded_entry(excluded: Seq<String>)
    requires
        excluded.len() > 0,
    ensures
        excluded_params(excluded).len() == 1,
        excluded_params(excluded)[0].0 == "not_sources"@,
        forall|k: int| 0 <= k < excluded.len() ==> occurs_in(#[trigger] strings_view(excluded)[k], excluded_params(excluded)[0].1),
{
    assert forall|k: int| 0 <= k < excluded.len() implies occurs_in(#[trigger] strings_view(excluded)[k], excluded_params(excluded)[0].1) by {
        lemma_join_holds_parts(strings_view(excluded), ","@, k);
    }
}

proof fn lemma_keys_differ()
    ensures
        "page_size"@ != "not_sources"@,
        "page"@ != "not_sources"@,
        "lang"@ != "not_sources"@,
        "countries"@ != "not_sources"@,
        "to_rank"@ != "not_sources"@,
        "when"@ != "not_sources"@,
        "topic"@ != "not_sources"@,
        "sources"@ != "not_sources"@,
        "sort_by"@ != "not_sources"@,
        "from"@ != "not_sources"@,
        "like"@ != "not_sources"@,
        "min_term_freq"@ != "not_sources"@,
        "q"@ != "not_sources"@,
{
    reveal_strlit("not_sources");
    reveal_strlit("page_size");
    reveal_strlit("page");
    reveal_strlit("lang");
    reveal_strlit("countries");
    reveal_strlit("to_rank");
    reveal_strlit("when");
    reveal_strlit("topic");
    reveal_strlit("sources");
    reveal_strlit("sort_by");
    reveal_strlit("from");
    reveal_strlit("like");
    reveal_strlit("min_term_freq");
    reveal_strlit("q");
    assert("page_size"@.len() != "not_sources"@.len());
    assert("page"@.len() != "not_sources"@.len());
    assert("lang"@.len() != "not_sources"@.len());
    assert("countries"@.len() != "not_sources"@.len());
    assert("to_rank"@.len() != "not_sources"@.len());
    assert("when"@.len() != "not_sources"@.len());
    assert("topic"@.len() != "not_sources"@.len());
    assert("sources"@.len() != "not_sources"@.len());
    assert("sort_by"@.len() != "not_sources"@.len());
    assert("from"@.len() != "not_sources"@.len());
    assert("like"@.len() != "not_sources"@.len());
    assert("min_term_freq"@.len() != "not_sources"@.len());
    assert("q"@.len() != "not_sources"@.len());
}

/// A headlines request sends the excluded sources (see [`sends_excluded`]).
pub proof fn lemma_headlines_send_excluded(q: HeadlinesQuery)
    ensures
        sends_excluded(headlines_params(q), strings_view(q.excluded_sources@)),
{
    let ps = headlines_params(q);
    lemma_keys_differ();
    if q.excluded_sources@.len() > 0 {
        lemma_excluded_entry(q.excluded_sources@);
        assert(ps[2] == excluded_params(q.excluded_sources@)[0]);
    } else {
        assert forall|i: int| 0 <= i < ps.len() implies (#[trigger] ps[i]).0 != "not_sources"@ by {}
    }
}

/// A trusted headlines request sends the excluded sources (see
/// [`sends_excluded`]).
pub proof fn lemma_trusted_headlines_send_excluded(q: TrustedHeadlinesQuery)
    ensures
        sends_excluded(trusted_headlines_params(q), strings_view(q.excluded_sources@)),
{
    let ps = trusted_headlines_params(q);
    lemma_keys_differ();
    if q.excluded_sources@.len() > 0 {
        lemma_excluded_entry(q.excluded_sources@);
        assert(ps[2] == excluded_params(q.excluded_sources@)[0]);
    } else {
        assert forall|i: int| 0 <= i < ps.len() implies (#[trigger] ps[i]).0 != "not_sources"@ by {}
    }
}

/// A similar news request sends the excluded sources (see
/// [`sends_excluded`]), whatever the oldest date.
pub proof fn lemma_similar_news_send_excluded(q: SimilarNewsQuery, from: Option<Seq<char>>)
    ensures
        sends_excluded(similar_news_params(q, from), strings_view(q.excluded_sources@)),
{
    let ps = similar_news_params(q, from);
    lemma_keys_differ();
    if q.excluded_sources@.len() > 0 {
        lemma_excluded_entry(q.excluded_sources@);
        assert(ps[4] == excluded_params(q.excluded_sources@)[0]);
    } else {
        assert forall|i: int| 0 <= i < ps.len() implies (#[trigger] ps[i]).0 != "not_sources"@ by {}
    }
}

/// A news search sends the excluded sources (see [`sends_excluded`]),
/// whatever the oldest date.
pub proof fn lemma_news_send_excluded(q: NewsQuery, from: Option<Seq<char>>)
    ensures
        sends_excluded(news_params(q, from), strings_view(q.excluded_sources@)),
{
    let ps = news_params(q, from);
    lemma_keys_differ();
    if q.excluded_sources@.len() > 0 {
        lemma_excluded_entry(q.excluded_sources@);
        assert(ps[2] == excluded_params(q.excluded_sources@)[0]);
    } else {
        assert forall|i: int| 0 <= i < ps.len() implies (#[trigger] ps[i]).0 != "not_sources"@ by {}
    }
}

} // verus!
