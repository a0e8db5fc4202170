//! Keyword filters and markets of news queries.

use vstd::prelude::*;

use crate::expression::{build_spec, contributes, exprs_view, lemma_exprs_view, or_from_items_spec, or_items_set, wf, all_wf, Expr, ExprView};
use crate::text::{remove_char, str_equal, strings_view, without_char};

verus! {

/// Filter the data using custom criteria: keywords that are in "or" with each other.
pub struct Filter {
    keywords: Vec<String>,
}

impl View for Filter {
    type V = Seq<Seq<char>>;

    /// The keywords, in the order in which they were added.
    closed spec fn view(&self) -> Seq<Seq<char>> {
        strings_view(self.keywords@)
    }
}

impl Default for Filter {
    fn default() -> (r: Self)
        ensures
            r@ == Seq::<Seq<char>>::empty(),
    {
        let r = Filter { keywords: Vec::new() };
        proof {
            assert(r@ =~= Seq::<Seq<char>>::empty());
        }
        r
    }
}

/// The expression item of a keyword: the keyword in parentheses.
pub open spec fn keyword_item(k: Seq<char>) -> ExprView {
    ExprView::Value(seq!['('] + k + seq![')'])
}

/// The query string of a filter: `*` when it has no keyword, else the `Or`
/// of all keywords, each in parentheses.
pub open spec fn filter_query(keywords: Seq<Seq<char>>) -> Seq<char> {
    if keywords.len() == 0 {
        seq!['*']
    } else {
        build_spec(or_from_items_spec(keywords.map_values(|k: Seq<char>| keyword_item(k))))
    }
}

impl Filter {
    /// Adds a keyword to filter with; `"` is removed from it as it would
    /// interfere with the exact match operator.
    pub fn add_keyword(self, keyword: &str) -> (r: Self)
        ensures
            r@ == self@.push(without_char(keyword@, '"')),
    {
        let mut keywords = self.keywords;
        let k = remove_char(keyword, '"');
        let ghost old_kw = keywords@;
        keywords.push(k);
        let r = Filter { keywords };
        proof {
            assert(r@ =~= strings_view(old_kw).push(without_char(keyword@, '"')));
        }
        r
    }

    /// Builds the query string (see [`filter_query`]).
    pub fn build(&self) -> (r: String)
        ensures
            r@ == filter_query(self@),
    {
        if self.keywords.len() == 0 {
            let r = String::from_str("*");
            proof {
                reveal_strlit("*");
                assert(r@ =~= seq!['*']);
            }
            return r;
        }
        let ghost kv = self@;
        let ghost target = kv.map_values(|k: Seq<char>| keyword_item(k));
        let mut items: Vec<Expr> = Vec::new();
        let mut i: usize = 0;
        proof {
            reveal_strlit("(");
            reveal_strlit(")");
            lemma_exprs_view(items@);
            assert(exprs_view(items@) =~= target.subrange(0, 0));
        }
        while i < self.keywords.len()
            invariant
                kv == self@,
                kv == strings_view(self.keywords@),
                target == kv.map_values(|k: Seq<char>| keyword_item(k)),
                i <= self.keywords.len(),
                exprs_view(items@) == target.subrange(0, i as int),
            decreases self.keywords.len() - i,
        {
            let mut w = String::from_str("(");
            w.append(self.keywords[i].as_str());
            w.append(")");
            let ghost old_items = items@;
            items.push(Expr::Value(w));
            proof {
                reveal_strlit("(");
                reveal_strlit(")");
                lemma_exprs_view(old_items);
                lemma_exprs_view(items@);
                assert(exprs_view(items@) =~= target.subrange(0, i + 1)) by {
                    assert forall|k: int| 0 <= k < i + 1 implies exprs_view(items@)[k] == target.subrange(0, i + 1)[k] by {
                        if k < i {
                            assert(items@[k] == old_items[k]);
                            assert(exprs_view(old_items)[k] == target.subrange(0, i as int)[k]);
                        } else {
                            assert(w@ =~= seq!['('] + kv[i as int] + seq![')']);
                        }
                    }
                }
            }
            i = i + 1;
        }
        proof {
            assert(target.subrange(0, i as int) =~= target);
            assert(all_wf(exprs_view(items@))) by {
                assert forall|k: int| 0 <= k < exprs_view(items@).len() implies wf(#[trigger] exprs_view(items@)[k]) by {
                    assert(exprs_view(items@)[k] == keyword_item(kv[k]));
                }
            }
        }
        let e = Expr::or_from_iter(items);
        e.build()
    }
}

/// Define area and language of interests.
#[derive(Clone, Debug, PartialEq, Eq, PartialOrd, Ord, Hash)]
pub struct Market {
    /// Language code as defined in ISO 639-1 — 2 letter code, e.g. 'de' or 'en'
    pub lang_code: String,
    /// Country code as defined in ISO 3166-1 alpha-2.
    pub country_code: String,
}

/// The default quality rank limit of the country `country`, if it has one.
pub open spec fn quality_rank_limit_of(country: Seq<char>) -> Option<usize> {
    if country == seq!['A', 'T'] { Some(70_000) }
    else if country == seq!['B', 'E'] { Some(70_000) }
    else if country == seq!['C', 'A'] { Some(70_000) }
    else if country == seq!['C', 'H'] { Some(50_000) }
    else if country == seq!['D', 'E'] { Some(9_000) }
    else if country == seq!['E', 'S'] { Some(40_000) }
    else if country == seq!['G', 'B'] { Some(14_000) }
    else if country == seq!['I', 'E'] { Some(70_000) }
    else if country == seq!['N', 'L'] { Some(60_000) }
    else if country == seq!['P', 'L'] { Some(50_000) }
    else if country == seq!['U', 'S'] { Some(9_000) }
    else { None }
}

fn country_is(country: &str, code: &str) -> (r: bool)
    ensures
        r == (country@ == code@),
{
    str_equal(country, code)
}

impl Market {
    pub fn new(lang_code: String, country_code: String) -> (r: Self)
        ensures
            r.lang_code == lang_code,
            r.country_code == country_code,
    {
        Market { lang_code, country_code }
    }

    /// Returns the default quality rank limit.
    pub fn quality_rank_limit(&self) -> (r: Option<usize>)
        ensures
            r == quality_rank_limit_of(self.country_code@),
    {
        let c = self.country_code.as_str();
        proof {
            reveal_strlit("AT");
            reveal_strlit("BE");
            reveal_strlit("CA");
            reveal_strlit("CH");
            reveal_strlit("DE");
            reveal_strlit("ES");
            reveal_strlit("GB");
            reveal_strlit("IE");
            reveal_strlit("NL");
            reveal_strlit("PL");
            reveal_strlit("US");
            assert("AT"@ =~= seq!['A', 'T']);
            assert("BE"@ =~= seq!['B', 'E']);
            assert("CA"@ =~= seq!['C', 'A']);
            assert("CH"@ =~= seq!['C', 'H']);
            assert("DE"@ =~= seq!['D', 'E']);
            assert("ES"@ =~= seq!['E', 'S']);
            assert("GB"@ =~= seq!['G', 'B']);
            assert("IE"@ =~= seq!['I', 'E']);
            assert("NL"@ =~= seq!['N', 'L']);
            assert("PL"@ =~= seq!['P', 'L']);
            assert("US"@ =~= seq!['U', 'S']);
        }
        if country_is(c, "AT") { Some(70_000) }
        else if country_is(c, "BE") { Some(70_000) }
        else if country_is(c, "CA") { Some(70_000) }
        else if country_is(c, "CH") { Some(50_000) }
        else if country_is(c, "DE") { Some(9_000) }
        else if country_is(c, "ES") { Some(40_000) }
        else if country_is(c, "GB") { Some(14_000) }
        else if country_is(c, "IE") { Some(70_000) }
        else if country_is(c, "NL") { Some(60_000) }
        else if country_is(c, "PL") { Some(50_000) }
        else if country_is(c, "US") { Some(9_000) }
        else { None }
    }
}

/// The English name of the language with the ISO 639-1 code `code`, among
/// the supported languages.
pub open spec fn language_name_of(code: Seq<char>) -> Option<Seq<char>> {
    if code == seq!['d', 'e'] {
        Some(seq!['g', 'e', 'r', 'm', 'a', 'n'])
    } else if code == seq!['e', 'n'] {
        Some(seq!['e', 'n', 'g', 'l', 'i', 's', 'h'])
    } else {
        None
    }
}

/// Maps a language code to its English name.
pub fn get_name(code: &str) -> (r: Option<String>)
    ensures
        match r {
            Some(name) => language_name_of(code@) == Some(name@),
            None => language_name_of(code@) is None,
        },
{
    proof {
        reveal_strlit("de");
        reveal_strlit("en");
        reveal_strlit("german");
        reveal_strlit("english");
        assert("de"@ =~= seq!['d', 'e']);
        assert("en"@ =~= seq!['e', 'n']);
        assert("german"@ =~= seq!['g', 'e', 'r', 'm', 'a', 'n']);
        assert("english"@ =~= seq!['e', 'n', 'g', 'l', 'i', 's', 'h']);
    }
    if str_equal(code, "de") {
        Some(String::from_str("german"))
    } else if str_equal(code, "en") {
        Some(String::from_str("english"))
    } else {
        None
    }
}

/// The order in which keywords were added, and repetitions, do not change
/// the query: filters with the same set of keywords build the same query.
pub proof fn lemma_filter_query_set(ks1: Seq<Seq<char>>, ks2: Seq<Seq<char>>)
    requires
        ks1.to_set() == ks2.to_set(),
    ensures
        filter_query(ks1) == filter_query(ks2),
{
    let items1 = ks1.map_values(|k: Seq<char>| keyword_item(k));
    let items2 = ks2.map_values(|k: Seq<char>| keyword_item(k));
    assert(or_items_set(items1) =~= or_items_set(items2)) by {
        assert forall|x: ExprView| or_items_set(items1).contains(x) implies or_items_set(items2).contains(x) by {
            let i = choose|i: int| 0 <= i < items1.len() && #[trigger] contributes(items1[i], x);
            assert(ks1.contains(ks1[i]));
            assert(ks1.to_set().contains(ks1[i]));
            assert(ks2.contains(ks1[i]));
            let j = choose|j: int| 0 <= j < ks2.len() && ks2[j] == ks1[i];
            assert(contributes(items2[j], x));
        }
        assert forall|x: ExprView| or_items_set(items2).contains(x) implies or_items_set(items1).contains(x) by {
            let i = choose|i: int| 0 <= i < items2.len() && #[trigger] contributes(items2[i], x);
            assert(ks2.contains(ks2[i]));
            assert(ks2.to_set().contains(ks2[i]));
            assert(ks1.contains(ks2[i]));
            let j = choose|j: int| 0 <= j < ks1.len() && ks1[j] == ks2[i];
            assert(contributes(items1[j], x));
        }
    }
    if ks1.len() == 0 && ks2.len() > 0 {
        assert(ks2.to_set().contains(ks2[0]));
    }
    if ks2.len() == 0 && ks1.len() > 0 {
        assert(ks1.to_set().contains(ks1[0]));
    }
}

} // verus!
