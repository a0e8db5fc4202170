//! Cleaning of free text search queries.

use vstd::prelude::*;

use crate::text::{trim, trimmed};

verus! {

#[verifier::external_type_specification]
#[verifier::external_body]
pub struct ExRegexError(regex::Error);

/// What replacing every match of the regular expression `pattern` in `text`
/// by `replacement` gives, or `None` when `pattern` does not compile.
pub uninterp spec fn regex_replacement(pattern: Seq<char>, text: Seq<char>, replacement: Seq<char>) -> Option<Seq<char>>;

/// Compiles `pattern` with `regex::Regex::new` and replaces all its matches
/// in `text` with `Regex::replace_all`.
///
/// The contract claims only that the outcome is a function of the three
/// strings, named `regex_replacement`.
#[verifier::external_body]
fn replace_all_matches(pattern: &str, text: &str, replacement: &str) -> (r: Result<String, regex::Error>)
    ensures
        match r {
            Ok(s) => regex_replacement(pattern@, text@, replacement@) == Some(s@),
            Err(_) => regex_replacement(pattern@, text@, replacement@) is None,
        },
{
    match regex::Regex::new(pattern) {
        Ok(re) => Ok(re.replace_all(text, replacement).to_string()),
        Err(e) => Err(e),
    }
}

/// Any sequence of symbols and punctuation, with the separators that follow it.
pub open spec fn symbols_pattern() -> Seq<char> {
    r"[\p{Symbol}\p{Punctuation}]+\p{Separator}*"@
}

/// Any sequence of separators.
pub open spec fn separators_pattern() -> Seq<char> {
    r"\p{Separator}+"@
}

/// A query cleaned from symbols and multiple spaces: symbols (with the
/// spaces after them) become one space, runs of separators become one
/// space, and the result is trimmed. `None` if a pattern does not compile.
pub open spec fn cleaned_query(query: Seq<char>) -> Option<Seq<char>> {
    match regex_replacement(symbols_pattern(), query, " "@) {
        Some(no_symbols) => match regex_replacement(separators_pattern(), no_symbols, " "@) {
            Some(collapsed) => Some(trimmed(collapsed)),
            None => None,
        },
        None => None,
    }
}

/// Cleans a query from symbols and multiple spaces.
pub fn clean_query(query: &str) -> (r: Result<String, regex::Error>)
    ensures
        match r {
            Ok(s) => cleaned_query(query@) == Some(s@),
            Err(_) => cleaned_query(query@) is None,
        },
{
    let no_symbols = match replace_all_matches(r"[\p{Symbol}\p{Punctuation}]+\p{Separator}*", query, " ") {
        Ok(s) => s,
        Err(e) => {
            return Err(e);
        },
    };
    let collapsed = match replace_all_matches(r"\p{Separator}+", no_symbols.as_str(), " ") {
        Ok(s) => s,
        Err(e) => {
            return Err(e);
        },
    };
    Ok(trim(collapsed.as_str()))
}

} // verus!
