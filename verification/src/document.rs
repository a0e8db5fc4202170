//! Reactions, view modes and searches as the engine stores them, and their
//! conversion from stored numbers.

use vstd::prelude::*;
use crate::filter::Market;

verus! {

/// The user's sentiment towards a document.
#[derive(Clone, Copy, Debug, PartialEq, Eq, Structural)]
pub enum UserReaction {
    /// No reaction from the user.
    Neutral,
    /// The user is interested.
    Positive,
    /// The user is not interested.
    Negative,
}

/// The number a reaction is stored as.
pub open spec fn reaction_code(r: UserReaction) -> u32 {
    match r {
        UserReaction::Neutral => 0,
        UserReaction::Positive => 1,
        UserReaction::Negative => 2,
    }
}

impl UserReaction {
    /// The number this reaction is stored as.
    pub fn code(&self) -> (r: u32)
        ensures
            r == reaction_code(*self),
    {
        match self {
            UserReaction::Neutral => 0,
            UserReaction::Positive => 1,
            UserReaction::Negative => 2,
        }
    }

    /// The reaction stored as `value`, if there is one.
    pub fn from_u32(value: u32) -> (r: Option<UserReaction>)
        ensures
            r is Some <==> value < 3,
            r matches Some(x) ==> reaction_code(x) == value,
    {
        if value == 0 {
            Some(UserReaction::Neutral)
        } else if value == 1 {
            Some(UserReaction::Positive)
        } else if value == 2 {
            Some(UserReaction::Negative)
        } else {
            None
        }
    }
}

impl Default for UserReaction {
    /// No reaction.
    fn default() -> (r: UserReaction)
        ensures
            r == UserReaction::Neutral,
    {
        UserReaction::Neutral
    }
}

/// How a document was viewed.
#[derive(Clone, Copy, Debug, PartialEq, Eq, Structural)]
pub enum ViewMode {
    Story,
    Reader,
    Web,
}

/// The number a view mode is stored as.
pub open spec fn view_mode_code(m: ViewMode) -> u32 {
    match m {
        ViewMode::Story => 0,
        ViewMode::Reader => 1,
        ViewMode::Web => 2,
    }
}

impl ViewMode {
    /// The number this view mode is stored as.
    pub fn code(&self) -> (r: u32)
        ensures
            r == view_mode_code(*self),
    {
        match self {
            ViewMode::Story => 0,
            ViewMode::Reader => 1,
            ViewMode::Web => 2,
        }
    }

    /// The view mode stored as `value`, if there is one.
    pub fn from_u32(value: u32) -> (r: Option<ViewMode>)
        ensures
            r is Some <==> value < 3,
            r matches Some(x) ==> view_mode_code(x) == value,
    {
        if value == 0 {
            Some(ViewMode::Story)
        } else if value == 1 {
            Some(ViewMode::Reader)
        } else if value == 2 {
            Some(ViewMode::Web)
        } else {
            None
        }
    }
}

/// What an active search searches by.
#[derive(Clone, Copy, Debug, PartialEq, Eq, Structural)]
pub enum SearchBy {
    Query,
    Topic,
}

impl SearchBy {
    /// The number this mode is stored as.
    pub fn code(&self) -> (r: u32)
        ensures
            r == (if *self == SearchBy::Query { 0u32 } else { 1u32 }),
    {
        match self {
            SearchBy::Query => 0,
            SearchBy::Topic => 1,
        }
    }

    /// The mode stored as `value`, if there is one.
    pub fn from_u32(value: u32) -> (r: Option<SearchBy>)
        ensures
            value == 0 ==> r == Some(SearchBy::Query),
            value == 1 ==> r == Some(SearchBy::Topic),
            value > 1 ==> r is None,
    {
        if value == 0 {
            Some(SearchBy::Query)
        } else if value == 1 {
            Some(SearchBy::Topic)
        } else {
            None
        }
    }
}

/// The page size of a search and the number of the page to fetch next.
#[derive(Clone, Copy, Debug, PartialEq, Eq, Structural)]
pub struct Paging {
    pub size: u32,
    pub next_page: u32,
}

/// An active search.
pub struct Search {
    pub search_by: SearchBy,
    pub search_term: String,
    pub paging: Paging,
}

/// A stored value that does not convert back.
#[derive(Debug)]
pub enum ConversionError {
    /// The number is no user reaction.
    UserReaction(u32),
    /// The number is no search mode.
    SearchBy(u32),
    /// The text is no market code.
    Market(String),
}

/// The stored reaction `raw`, converted.
pub fn user_reaction_from_db(raw: Option<u32>) -> (r: Result<Option<UserReaction>, ConversionError>)
    ensures
        raw is None ==> r == Ok::<Option<UserReaction>, ConversionError>(None),
        raw matches Some(v) ==> (v < 3 <==> r is Ok),
        raw matches Some(v) ==> (v < 3 ==> (r matches Ok(Some(x)) && reaction_code(x) == v)),
        raw matches Some(v) ==> (v >= 3 ==> (r matches Err(ConversionError::UserReaction(w)) && w == v)),
{
    match raw {
        None => Ok(None),
        Some(value) => match UserReaction::from_u32(value) {
            Some(reaction) => Ok(Some(reaction)),
            None => Err(ConversionError::UserReaction(value)),
        },
    }
}

/// The stored search, converted.
pub fn search_from_db(search_by: u32, search_term: String, page_number: u32, page_size: u32) -> (r: Result<Search, ConversionError>)
    ensures
        r is Ok <==> search_by < 2,
        r matches Ok(s) ==> (s.search_term == search_term && s.paging == (Paging { size: page_size, next_page: page_number })
            && s.search_by == (if search_by == 0 { SearchBy::Query } else { SearchBy::Topic })),
        r matches Err(e) ==> (e matches ConversionError::SearchBy(v) && v == search_by),
{
    match SearchBy::from_u32(search_by) {
        Some(by) => Ok(Search {
            search_by: by,
            search_term,
            paging: Paging { size: page_size, next_page: page_number },
        }),
        None => Err(ConversionError::SearchBy(search_by)),
    }
}

/// The number of bytes `c` takes in UTF-8.
pub open spec fn utf8_width(c: char) -> nat {
    if (c as u32) < 0x80 {
        1
    } else if (c as u32) < 0x800 {
        2
    } else if (c as u32) < 0x10000 {
        3
    } else {
        4
    }
}

/// The number of bytes the first `n` characters of `s` take in UTF-8.
pub open spec fn utf8_prefix_width(s: Seq<char>, n: nat) -> nat
    decreases n,
{
    if n == 0 || n > s.len() {
        0
    } else {
        utf8_prefix_width(s, (n - 1) as nat) + utf8_width(s[n - 1])
    }
}

/// The number of characters of `s` that make up its first two bytes in
/// UTF-8, if two bytes end at a character boundary.
pub open spec fn two_byte_prefix(s: Seq<char>) -> Option<nat> {
    if s.len() >= 1 && utf8_width(s[0]) == 2 {
        Some(1)
    } else if s.len() >= 2 && utf8_width(s[0]) == 1 && utf8_width(s[1]) == 1 {
        Some(2)
    } else {
        None
    }
}

/// The width in bytes of `c` in UTF-8, as `char::len_utf8`.
fn char_width(c: char) -> (r: usize)
    ensures
        r == utf8_width(c),
{
    let v = c as u32;
    if v < 0x80 {
        1
    } else if v < 0x800 {
        2
    } else if v < 0x10000 {
        3
    } else {
        4
    }
}

/// The market stored as a language code and a country code written one
/// after the other: the first two bytes are the language.
pub fn market_from_db(code: &str) -> (r: Result<Market, ConversionError>)
    ensures
        r is Ok <==> two_byte_prefix(code@) is Some,
        r matches Ok(m) ==> (m.lang_code@ == code@.subrange(0, two_byte_prefix(code@).unwrap() as int)
            && m.country_code@ == code@.subrange(two_byte_prefix(code@).unwrap() as int, code@.len() as int)),
{
    let n = code.unicode_len();
    let mut split: usize = 0;
    if n >= 1 && char_width(code.get_char(0)) == 2 {
        split = 1;
    } else if n >= 2 && char_width(code.get_char(0)) == 1 && char_width(code.get_char(1)) == 1 {
        split = 2;
    }
    if split == 0 {
        return Err(ConversionError::Market(code.to_string()));
    }
    let lang = code.substring_char(0, split).to_string();
    let country = code.substring_char(split, n).to_string();
    Ok(Market::new(lang, country))
}

} // verus!
