//! The batch sizes of the feed and of the search.

use vstd::prelude::*;

verus! {

/// Configurations for the feed.
#[derive(Clone, Copy, Debug, PartialEq, Eq, Structural)]
pub struct FeedConfig {
    /// The maximum number of documents per feed batch.
    pub max_docs_per_batch: usize,
}

/// Configurations for the search.
#[derive(Clone, Copy, Debug, PartialEq, Eq, Structural)]
pub struct SearchConfig {
    /// The maximum number of documents per search batch.
    pub max_docs_per_batch: usize,
}

impl FeedConfig {
    /// The feed configuration for batches of at most `max_docs_per_batch`
    /// documents, as given at initialization.
    pub fn from_batch_size(max_docs_per_batch: u32) -> (r: FeedConfig)
        ensures
            r.max_docs_per_batch == max_docs_per_batch,
    {
        FeedConfig { max_docs_per_batch: max_docs_per_batch as usize }
    }
}

impl SearchConfig {
    /// The search configuration for batches of at most `max_docs_per_batch`
    /// documents, as given at initialization.
    pub fn from_batch_size(max_docs_per_batch: u32) -> (r: SearchConfig)
        ensures
            r.max_docs_per_batch == max_docs_per_batch,
    {
        SearchConfig { max_docs_per_batch: max_docs_per_batch as usize }
    }

    /// The page size stored with a search: the batch size, truncated to 32
    /// bits.
    pub fn stored_page_size(&self) -> (r: u32)
        ensures
            r == self.max_docs_per_batch as u32,
    {
        self.max_docs_per_batch as u32
    }
}

} // verus!
