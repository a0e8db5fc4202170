//! What the stacks of the engine need before they ask a provider for new
//! items.

use vstd::prelude::*;
use crate::text::{join_seqs, join_strings, strings_view};

verus! {

/// The stack cannot ask for new items yet.
#[derive(Clone, Copy, Debug, PartialEq, Eq, Structural)]
pub struct NotReady;

/// The text the personalized news stack searches similar news for: the
/// words of the user's key phrases, separated by a space. Not ready without
/// key phrases.
pub fn personalized_phrase(key_phrases: &[String]) -> (r: Result<String, NotReady>)
    ensures
        key_phrases@.len() == 0 <==> r is Err,
        r matches Ok(p) ==> p@ == join_seqs(strings_view(key_phrases@), " "@),
{
    if key_phrases.len() == 0 {
        return Err(NotReady);
    }
    Ok(join_strings(key_phrases, " "))
}

/// The trusted news stack is ready once there are trusted sources.
pub fn trusted_sources_ready(sources: &[String]) -> (r: Result<(), NotReady>)
    ensures
        r is Ok <==> sources@.len() > 0,
{
    if sources.len() == 0 { Err(NotReady) } else { Ok(()) }
}

/// The page a stack asks for with its `request`-th request (counted from 0):
/// pages count from 1.
pub fn page_of_request(request: u32) -> (r: usize)
    requires
        request < u32::MAX,
    ensures
        r == request + 1,
{
    request as usize + 1
}

} // verus!
