//! What the engine writes to its database: which rows a migrated document
//! makes, how new documents are split into bulk inserts, and how values are
//! stored in columns.

use vstd::prelude::*;
use crate::document::{reaction_code, UserReaction, ViewMode};
use crate::filter::Market;
use crate::stack::{DocumentId, StackId};

verus! {

/// The largest number of values one statement may bind.
pub const BIND_LIMIT: usize = 32766;

/// The number of values a stored news resource binds, the most of any table
/// a new document is written to.
pub const NEWS_RESOURCE_FIELDS: usize = 9;

/// A view time in milliseconds as stored: values beyond `u32::MAX` are
/// stored as `u32::MAX`.
pub open spec fn stored_view_time(ms: u128) -> u32 {
    if ms > u32::MAX as u128 { u32::MAX } else { ms as u32 }
}

/// The view time column value of `ms` milliseconds.
pub fn view_time_ms(ms: u128) -> (r: u32)
    ensures
        r == stored_view_time(ms),
{
    if ms > 0xffff_ffff_u128 {
        0xffff_ffff_u32
    } else {
        ms as u32
    }
}

/// The domain rank as stored in a signed column: its bits, read as a signed
/// number.
pub open spec fn rank_column(rank: u64) -> i64 {
    if rank <= i64::MAX as u64 { rank as i64 } else { (rank - 0x1_0000_0000_0000_0000int) as i64 }
}

/// The domain rank column value of `rank`.
pub fn domain_rank_column(rank: u64) -> (r: i64)
    ensures
        r == rank_column(rank),
{
    if rank <= 0x7fff_ffff_ffff_ffff_u64 {
        rank as i64
    } else {
        let below: u64 = rank - 0x8000_0000_0000_0000_u64;
        let r: i64 = below as i64;
        let r2: i64 = r - 0x7fff_ffff_ffff_ffff_i64 - 1;
        r2
    }
}

/// The domain rank read back from its column.
pub fn domain_rank_from_column(value: i64) -> (r: u64)
    ensures
        value >= 0 ==> r == value,
        value < 0 ==> r == value + 0x1_0000_0000_0000_0000int,
{
    if value >= 0 {
        value as u64
    } else {
        let above: i64 = value + 0x7fff_ffff_ffff_ffff_i64 + 1;
        let r: u64 = above as u64;
        r + 0x8000_0000_0000_0000_u64
    }
}

/// A stored rank reads back as the rank that was stored.
pub proof fn lemma_rank_round_trip(rank: u64)
    ensures
        ({
            let c = rank_column(rank);
            (if c >= 0 { c as int } else { c + 0x1_0000_0000_0000_0000int }) == rank
        }),
{
}

/// The market column value: the language code and the country code, one
/// after the other.
pub fn market_column(market: &Market) -> (r: String)
    ensures
        r@ == market.lang_code@ + market.country_code@,
{
    let mut r = market.lang_code.clone();
    r.append(market.country_code.as_str());
    r
}

/// The number of new documents one bulk insert writes.
pub open spec fn insert_chunk_size() -> nat {
    (BIND_LIMIT / NEWS_RESOURCE_FIELDS) as nat
}

/// The bulk inserts for `len` new documents: consecutive ranges of at most
/// `BIND_LIMIT / 9` documents that cover all of them in order.
pub fn insert_chunks(len: usize) -> (r: Vec<(usize, usize)>)
    ensures
        len == 0 ==> r@.len() == 0,
        len > 0 ==> r@.len() > 0 && r@[0].0 == 0 && r@.last().1 == len,
        forall|i: int| 0 <= i < r@.len() ==> (#[trigger] r@[i]).0 < r@[i].1 && r@[i].1 - r@[i].0 <= insert_chunk_size()
            && (r@[i].1 < len ==> r@[i].1 - r@[i].0 == insert_chunk_size()),
        forall|i: int| 0 < i < r@.len() ==> (#[trigger] r@[i]).0 == r@[i - 1].1,
{
    let size: usize = BIND_LIMIT / NEWS_RESOURCE_FIELDS;
    let mut r: Vec<(usize, usize)> = Vec::new();
    let mut start: usize = 0;
    while start < len
        invariant
            size == insert_chunk_size(),
            start <= len,
            r@.len() == 0 <==> start == 0,
            r@.len() > 0 ==> r@[0].0 == 0 && r@.last().1 == start,
            forall|i: int| 0 <= i < r@.len() ==> (#[trigger] r@[i]).0 < r@[i].1 && r@[i].1 - r@[i].0 <= insert_chunk_size()
                && (r@[i].1 < len ==> r@[i].1 - r@[i].0 == insert_chunk_size()),
            forall|i: int| 0 < i < r@.len() ==> (#[trigger] r@[i]).0 == r@[i - 1].1,
        decreases len - start,
    {
        let end: usize = if len - start > size { start + size } else { len };
        r.push((start, end));
        start = end;
    }
    r
}

/// The positions stored with the documents of one bulk insert: their index
/// within the insert.
pub fn presentation_indices(chunk_len: usize) -> (r: Vec<u32>)
    requires
        chunk_len <= u32::MAX,
    ensures
        r@.len() == chunk_len,
        forall|i: int| 0 <= i < chunk_len ==> #[trigger] r@[i] == i,
{
    let mut r: Vec<u32> = Vec::new();
    let mut i: usize = 0;
    while i < chunk_len
        invariant
            i <= chunk_len,
            chunk_len <= u32::MAX,
            r@.len() == i,
            forall|k: int| 0 <= k < i ==> #[trigger] r@[k] == k,
        decreases chunk_len - i,
    {
        r.push(i as u32);
        i = i + 1;
    }
    r
}

/// A document migrated from an earlier store, as far as its rows depend on
/// it.
pub struct MigrationDocument {
    pub id: DocumentId,
    pub stack_id: StackId,
    pub has_embedding: bool,
    pub is_active: bool,
    pub is_searched: bool,
    pub reaction: UserReaction,
    pub story_view_ms: Option<u128>,
    pub reader_view_ms: Option<u128>,
    pub web_view_ms: Option<u128>,
}

/// The rows the migrated documents make.
pub struct MigrationRows {
    /// The documents of the feed.
    pub feed: Vec<DocumentId>,
    /// The documents of the stacks, with their stack.
    pub stack: Vec<(DocumentId, StackId)>,
    /// The documents of the search.
    pub search: Vec<DocumentId>,
    /// The reactions, as stored numbers.
    pub reactions: Vec<(DocumentId, u32)>,
    /// The view times in milliseconds: all story views, then all reader
    /// views, then all web views.
    pub view_times: Vec<(DocumentId, ViewMode, u32)>,
}

/// Whether a migrated document is part of the feed.
pub open spec fn in_feed(d: MigrationDocument) -> bool {
    d.has_embedding && d.is_active && !d.is_searched && d.stack_id.0 != 0
}

/// Whether a migrated document belongs to a stack.
pub open spec fn in_stack(d: MigrationDocument) -> bool {
    d.has_embedding && !d.is_searched && d.stack_id.0 != 0
}

/// Whether a migrated document is part of the search.
pub open spec fn in_search(d: MigrationDocument) -> bool {
    d.has_embedding && d.is_active && d.is_searched && d.stack_id.0 == 0
}

/// The view time of a migrated document in the given mode, if it has one.
pub open spec fn view_of(d: MigrationDocument, mode: ViewMode) -> Option<u128> {
    match mode {
        ViewMode::Story => d.story_view_ms,
        ViewMode::Reader => d.reader_view_ms,
        ViewMode::Web => d.web_view_ms,
    }
}

/// The feed rows of the documents.
pub open spec fn feed_rows(s: Seq<MigrationDocument>) -> Seq<DocumentId>
    decreases s.len(),
{
    if s.len() == 0 {
        Seq::empty()
    } else if in_feed(s.last()) {
        feed_rows(s.drop_last()).push(s.last().id)
    } else {
        feed_rows(s.drop_last())
    }
}

/// The stack rows of the documents.
pub open spec fn stack_rows(s: Seq<MigrationDocument>) -> Seq<(DocumentId, StackId)>
    decreases s.len(),
{
    if s.len() == 0 {
        Seq::empty()
    } else if in_stack(s.last()) {
        stack_rows(s.drop_last()).push((s.last().id, s.last().stack_id))
    } else {
        stack_rows(s.drop_last())
    }
}

/// The search rows of the documents.
pub open spec fn search_rows(s: Seq<MigrationDocument>) -> Seq<DocumentId>
    decreases s.len(),
{
    if s.len() == 0 {
        Seq::empty()
    } else if in_search(s.last()) {
        search_rows(s.drop_last()).push(s.last().id)
    } else {
        search_rows(s.drop_last())
    }
}

/// The reaction rows of the documents: one for each document with an
/// embedding.
pub open spec fn reaction_rows(s: Seq<MigrationDocument>) -> Seq<(DocumentId, u32)>
    decreases s.len(),
{
    if s.len() == 0 {
        Seq::empty()
    } else if s.last().has_embedding {
        reaction_rows(s.drop_last()).push((s.last().id, reaction_code(s.last().reaction)))
    } else {
        reaction_rows(s.drop_last())
    }
}

/// The view time rows of the documents in one mode.
pub open spec fn view_rows(s: Seq<MigrationDocument>, mode: ViewMode) -> Seq<(DocumentId, ViewMode, u32)>
    decreases s.len(),
{
    if s.len() == 0 {
        Seq::empty()
    } else if s.last().has_embedding && view_of(s.last(), mode) is Some {
        view_rows(s.drop_last(), mode).push((s.last().id, mode, stored_view_time(view_of(s.last(), mode).unwrap())))
    } else {
        view_rows(s.drop_last(), mode)
    }
}

fn push_view_rows(rows: &mut Vec<(DocumentId, ViewMode, u32)>, docs: &[MigrationDocument], mode: ViewMode)
    ensures
        final(rows)@ == old(rows)@ + view_rows(docs@, mode),
{
    let ghost start = rows@;
    let mut i: usize = 0;
    while i < docs.len()
        invariant
            i <= docs@.len(),
            rows@ == start + view_rows(docs@.subrange(0, i as int), mode),
        decreases docs@.len() - i,
    {
        let d = &docs[i];
        let view = match mode {
            ViewMode::Story => d.story_view_ms,
            ViewMode::Reader => d.reader_view_ms,
            ViewMode::Web => d.web_view_ms,
        };
        proof {
            assert(docs@.subrange(0, i + 1).drop_last() =~= docs@.subrange(0, i as int));
        }
        if d.has_embedding {
            if let Some(ms) = view {
                rows.push((d.id, mode, view_time_ms(ms)));
            }
        }
        proof {
            assert(rows@ =~= start + view_rows(docs@.subrange(0, i + 1), mode));
        }
        i = i + 1;
    }
    proof {
        assert(docs@.subrange(0, docs@.len() as int) =~= docs@);
    }
}

/// The rows the migrated documents make. Documents without an embedding
/// make none.
pub fn migration_rows(docs: &[MigrationDocument]) -> (r: MigrationRows)
    ensures
        r.feed@ == feed_rows(docs@),
        r.stack@ == stack_rows(docs@),
        r.search@ == search_rows(docs@),
        r.reactions@ == reaction_rows(docs@),
        r.view_times@ == view_rows(docs@, ViewMode::Story) + view_rows(docs@, ViewMode::Reader) + view_rows(docs@, ViewMode::Web),
{
    let mut feed: Vec<DocumentId> = Vec::new();
    let mut stack: Vec<(DocumentId, StackId)> = Vec::new();
    let mut search: Vec<DocumentId> = Vec::new();
    let mut reactions: Vec<(DocumentId, u32)> = Vec::new();
    let mut i: usize = 0;
    while i < docs.len()
        invariant
            i <= docs@.len(),
            feed@ == feed_rows(docs@.subrange(0, i as int)),
            stack@ == stack_rows(docs@.subrange(0, i as int)),
            search@ == search_rows(docs@.subrange(0, i as int)),
            reactions@ == reaction_rows(docs@.subrange(0, i as int)),
        decreases docs@.len() - i,
    {
        let d = &docs[i];
        proof {
            assert(docs@.subrange(0, i + 1).drop_last() =~= docs@.subrange(0, i as int));
            assert(docs@.subrange(0, i + 1).last() == docs@[i as int]);
        }
        if d.has_embedding {
            let nil = d.stack_id.0 == 0;
            if d.is_active && !d.is_searched && !nil {
                feed.push(d.id);
            }
            if !d.is_searched && !nil {
                stack.push((d.id, d.stack_id));
            }
            if d.is_active && d.is_searched && nil {
                search.push(d.id);
            }
            reactions.push((d.id, d.reaction.code()));
        }
        i = i + 1;
    }
    proof {
        assert(docs@.subrange(0, docs@.len() as int) =~= docs@);
    }
    let mut view_times: Vec<(DocumentId, ViewMode, u32)> = Vec::new();
    push_view_rows(&mut view_times, docs, ViewMode::Story);
    push_view_rows(&mut view_times, docs, ViewMode::Reader);
    push_view_rows(&mut view_times, docs, ViewMode::Web);
    proof {
        assert(view_times@ =~= view_rows(docs@, ViewMode::Story) + view_rows(docs@, ViewMode::Reader) + view_rows(docs@, ViewMode::Web));
    }
    MigrationRows { feed, stack, search, reactions, view_times }
}

/// The stacks the database knows: breaking, personalized and trusted news,
/// and exploration.
pub fn existing_stacks() -> (r: Vec<StackId>)
    ensures
        r@ == seq![
            StackId(crate::stack::BREAKING_NEWS_STACK),
            StackId(crate::stack::PERSONALIZED_NEWS_STACK),
            StackId(crate::stack::TRUSTED_NEWS_STACK),
            StackId(crate::stack::EXPLORATION_STACK),
        ],
{
    let mut r: Vec<StackId> = Vec::new();
    r.push(StackId::breaking_news());
    r.push(StackId::personalized_news());
    r.push(StackId::trusted_news());
    r.push(StackId::exploration());
    proof {
        assert(r@ =~= seq![
            StackId(crate::stack::BREAKING_NEWS_STACK),
            StackId(crate::stack::PERSONALIZED_NEWS_STACK),
            StackId(crate::stack::TRUSTED_NEWS_STACK),
            StackId(crate::stack::EXPLORATION_STACK),
        ]);
    }
    r
}

/// What opening the database leads to.
#[derive(Clone, Copy, Debug, PartialEq, Eq, Structural)]
pub enum OpenDecision {
    /// A new database was created.
    NewDbCreated,
    /// The existing database was opened.
    NormalInit,
    /// Opening a new database failed: give up.
    Fail,
    /// Opening the existing database failed: delete its files and open a
    /// new one.
    Recreate,
}

/// The decision after the first attempt to open the database, given
/// whether its file existed before and whether the attempt succeeded.
pub fn open_decision(file_existed: bool, opened: bool) -> (r: OpenDecision)
    ensures
        !file_existed && opened ==> r == OpenDecision::NewDbCreated,
        file_existed && opened ==> r == OpenDecision::NormalInit,
        !file_existed && !opened ==> r == OpenDecision::Fail,
        file_existed && !opened ==> r == OpenDecision::Recreate,
{
    if opened {
        if file_existed { OpenDecision::NormalInit } else { OpenDecision::NewDbCreated }
    } else {
        if file_existed { OpenDecision::Recreate } else { OpenDecision::Fail }
    }
}

/// Like `Result::ok`, but the error moves into `slot` if it is empty.
pub fn extract_first_error<T, E>(result: Result<T, E>, slot: &mut Option<E>) -> (r: Option<T>)
    ensures
        result matches Ok(v) ==> r == Some(v) && *final(slot) == *old(slot),
        result matches Err(e) ==> r is None && *final(slot) == (match *old(slot) {
            Some(x) => Some(x),
            None => Some(e),
        }),
{
    match result {
        Ok(v) => Some(v),
        Err(e) => {
            if slot.is_none() {
                *slot = Some(e);
            }
            None
        },
    }
}

/// Like `Result::ok`, but the error is pushed to `errors`.
pub fn extract_error<T, E>(result: Result<T, E>, errors: &mut Vec<E>) -> (r: Option<T>)
    ensures
        result matches Ok(v) ==> r == Some(v) && final(errors)@ == old(errors)@,
        result matches Err(e) ==> r is None && final(errors)@ == old(errors)@.push(e),
{
    match result {
        Ok(v) => Some(v),
        Err(e) => {
            errors.push(e);
            None
        },
    }
}

/// A message with the errors it sums up.
pub struct CompoundError<E> {
    pub msg: String,
    pub errors: Vec<E>,
}

impl<E> CompoundError<E> {
    /// The compound of `errors` under `msg`.
    pub fn new(msg: String, errors: Vec<E>) -> (r: Self)
        ensures
            r.msg == msg,
            r.errors@ == errors@,
    {
        CompoundError { msg, errors }
    }
}

} // verus!
