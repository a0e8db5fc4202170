//! De-duplication of news items against each other, the history of the user
//! and the documents already in the stacks.

use vstd::prelude::*;

use crate::expression::{compare_strings, lemma_str_order, lemma_str_order_trans, str_order};
use crate::text::{lowercase, to_lowercase, trim, trimmed};

verus! {

/// What de-duplication reads of a news item or stack document.
pub struct DedupKey {
    /// Title of the item.
    pub title: String,
    /// Rank of the item's source (lower is better).
    pub rank: u64,
    /// URL of the item.
    pub url: String,
}

/// What de-duplication reads of a document of the history.
pub struct HistoryKey {
    /// Title of the document.
    pub title: String,
    /// URL of the document.
    pub url: String,
}

/// `text` trimmed and in lowercase.
pub open spec fn normalized(text: Seq<char>) -> Seq<char> {
    lowercase(trimmed(text))
}

/// Normalizes `text` to a trimmed lowercase string.
pub fn normalize(text: &str) -> (r: String)
    ensures
        r@ == normalized(text@),
{
    let t = trim(text);
    to_lowercase(t.as_str())
}

/// Item `i` is the best ranked among the items with its normalized title
/// (the first one among equally ranked ones).
pub open spec fn best_of_title(items: Seq<DedupKey>, i: int) -> bool {
    forall|j: int|
        0 <= j < items.len() && j != i && normalized(#[trigger] items[j].title@) == normalized(items[i].title@)
            ==> items[i].rank < items[j].rank || (items[i].rank == items[j].rank && i < j)
}

/// Item `i` is the first among the best-of-title items with its URL.
pub open spec fn first_of_url(items: Seq<DedupKey>, i: int) -> bool {
    &&& best_of_title(items, i)
    &&& forall|j: int| 0 <= j < i && best_of_title(items, j) ==> (#[trigger] items[j].url@) != items[i].url@
}

/// Item `i` duplicates no history document: not by URL, and its normalized
/// URL is not the normalized title of a history document (the engine
/// compares the item's URL, not its title, with the history titles).
pub open spec fn new_to_history(history: Seq<HistoryKey>, items: Seq<DedupKey>, i: int) -> bool {
    forall|k: int|
        0 <= k < history.len() ==> (#[trigger] history[k].url@) != items[i].url@ && normalized(history[k].title@)
            != normalized(items[i].url@)
}

/// Item `i` duplicates no stack document by URL, and is better ranked than
/// every stack document with its normalized title.
pub open spec fn better_than_stack(stack: Seq<DedupKey>, items: Seq<DedupKey>, i: int) -> bool {
    forall|k: int|
        0 <= k < stack.len() ==> (#[trigger] stack[k].url@) != items[i].url@ && (normalized(stack[k].title@)
            == normalized(items[i].title@) ==> items[i].rank < stack[k].rank)
}

/// Item `i` survives de-duplication.
pub open spec fn kept(history: Seq<HistoryKey>, stack: Seq<DedupKey>, items: Seq<DedupKey>, i: int) -> bool {
    &&& 0 <= i < items.len()
    &&& first_of_url(items, i)
    &&& new_to_history(history, items, i)
    &&& better_than_stack(stack, items, i)
}

/// The indices are in strictly increasing order of the items' URLs.
pub open spec fn sorted_by_url(items: Seq<DedupKey>, idx: Seq<usize>) -> bool {
    &&& forall|k: int| 0 <= k < idx.len() ==> #[trigger] idx[k] < items.len()
    &&& forall|a: int, b: int|
        0 <= a < b < idx.len() ==> str_order(items[#[trigger] idx[a] as int].url@, items[#[trigger] idx[b] as int].url@)
            < 0
}

fn normalized_all(items: &[DedupKey]) -> (r: Vec<String>)
    ensures
        r@.len() == items@.len(),
        forall|i: int| 0 <= i < items@.len() ==> #[trigger] r@[i]@ == normalized(items@[i].title@),
{
    let mut r: Vec<String> = Vec::new();
    let mut i: usize = 0;
    while i < items.len()
        invariant
            i <= items@.len(),
            r@.len() == i,
            forall|k: int| 0 <= k < i ==> #[trigger] r@[k]@ == normalized(items@[k].title@),
        decreases items@.len() - i,
    {
        r.push(normalize(items[i].title.as_str()));
        i = i + 1;
    }
    r
}

fn best_of_title_all(items: &[DedupKey], titles: &Vec<String>) -> (r: Vec<bool>)
    requires
        titles@.len() == items@.len(),
        forall|i: int| 0 <= i < items@.len() ==> #[trigger] titles@[i]@ == normalized(items@[i].title@),
    ensures
        r@.len() == items@.len(),
        forall|i: int| 0 <= i < items@.len() ==> #[trigger] r@[i] == best_of_title(items@, i),
{
    let n = items.len();
    let mut r: Vec<bool> = Vec::new();
    let mut i: usize = 0;
    while i < n
        invariant
            n == items@.len(),
            titles@.len() == n,
            forall|k: int| 0 <= k < n ==> #[trigger] titles@[k]@ == normalized(items@[k].title@),
            i <= n,
            r@.len() == i,
            forall|k: int| 0 <= k < i ==> #[trigger] r@[k] == best_of_title(items@, k),
        decreases n - i,
    {
        let mut best = true;
        let mut j: usize = 0;
        while j < n
            invariant
                n == items@.len(),
                titles@.len() == n,
                forall|k: int| 0 <= k < n ==> #[trigger] titles@[k]@ == normalized(items@[k].title@),
                i < n,
                j <= n,
                best == forall|m: int|
                    0 <= m < j && m != i && normalized(#[trigger] items@[m].title@) == normalized(items@[i as int].title@)
                        ==> items@[i as int].rank < items@[m].rank || (items@[i as int].rank == items@[m].rank && i < m),
            decreases n - j,
        {
            if j != i && titles[j] == titles[i] {
                let better = items[i].rank < items[j].rank || (items[i].rank == items[j].rank && i < j);
                if !better {
                    best = false;
                }
            }
            proof {
                assert(titles@[j as int]@ == normalized(items@[j as int].title@));
                assert(titles@[i as int]@ == normalized(items@[i as int].title@));
            }
            j = j + 1;
        }
        r.push(best);
        i = i + 1;
    }
    r
}

/// Inserts `i` into `idx`, kept in strictly increasing URL order.
fn insert_by_url(items: &[DedupKey], idx: &mut Vec<usize>, i: usize)
    requires
        i < items@.len(),
        sorted_by_url(items@, old(idx)@),
        forall|k: int| 0 <= k < old(idx)@.len() ==> items@[#[trigger] old(idx)@[k] as int].url@ != items@[i as int].url@,
    ensures
        sorted_by_url(items@, final(idx)@),
        final(idx)@.to_set() == old(idx)@.to_set().insert(i),
{
    let ghost iv = items@;
    let mut p: usize = 0;
    let mut stop = false;
    while p < idx.len() && !stop
        invariant
            iv == items@,
            i < iv.len(),
            sorted_by_url(iv, idx@),
            idx@ == old(idx)@,
            forall|k: int| 0 <= k < idx@.len() ==> iv[#[trigger] idx@[k] as int].url@ != iv[i as int].url@,
            p <= idx@.len(),
            forall|k: int| 0 <= k < p ==> str_order(iv[#[trigger] idx@[k] as int].url@, iv[i as int].url@) < 0,
            stop ==> p < idx@.len() && str_order(iv[i as int].url@, iv[idx@[p as int] as int].url@) < 0,
        decreases idx@.len() - p + (if stop { 0int } else { 1int }),
    {
        let c = compare_strings(&items[idx[p]].url, &items[i].url);
        proof {
            lemma_str_order(iv[idx@[p as int] as int].url@, iv[i as int].url@);
        }
        if c < 0 {
            p = p + 1;
        } else {
            stop = true;
        }
    }
    let ghost before = idx@;
    idx.insert(p, i);
    proof {
        let after = idx@;
        assert(after =~= before.insert(p as int, i));
        assert forall|k: int| 0 <= k < after.len() implies #[trigger] after[k] < iv.len() by {
            if k < p {
                assert(after[k] == before[k]);
            } else if k > p {
                assert(after[k] == before[k - 1]);
            }
        }
        assert forall|a: int, b: int| 0 <= a < b < after.len() implies str_order(
            iv[#[trigger] after[a] as int].url@,
            iv[#[trigger] after[b] as int].url@,
        ) < 0 by {
            if a < p && b == p {
                assert(after[a] == before[a]);
            } else if a == p && b > p {
                assert(after[b] == before[b - 1]);
                if b - 1 > p {
                    assert(str_order(iv[before[p as int] as int].url@, iv[before[b - 1] as int].url@) < 0);
                    lemma_str_order_trans(
                        iv[i as int].url@,
                        iv[before[p as int] as int].url@,
                        iv[before[b - 1] as int].url@,
                    );
                }
            } else if a < p && b > p {
                assert(after[a] == before[a]);
                assert(after[b] == before[b - 1]);
            } else if a > p {
                assert(after[a] == before[a - 1]);
                assert(after[b] == before[b - 1]);
            } else {
                assert(after[a] == before[a]);
                assert(after[b] == before[b]);
            }
        }
        assert forall|x: usize| after.contains(x) <==> before.to_set().insert(i).contains(x) by {
            if after.contains(x) {
                let k = choose|k: int| 0 <= k < after.len() && after[k] == x;
                if k < p {
                    assert(before[k] == x);
                } else if k > p {
                    assert(before[k - 1] == x);
                }
            }
            if before.contains(x) {
                let k = choose|k: int| 0 <= k < before.len() && before[k] == x;
                if k < p {
                    assert(after[k] == x);
                } else {
                    assert(after[k + 1] == x);
                }
            }
            if x == i {
                assert(after[p as int] == i);
            }
        }
        assert(after.to_set() =~= before.to_set().insert(i));
    }
}


fn normalized_titles(keys: &[HistoryKey]) -> (r: Vec<String>)
    ensures
        r@.len() == keys@.len(),
        forall|i: int| 0 <= i < keys@.len() ==> #[trigger] r@[i]@ == normalized(keys@[i].title@),
{
    let mut r: Vec<String> = Vec::new();
    let mut i: usize = 0;
    while i < keys.len()
        invariant
            i <= keys@.len(),
            r@.len() == i,
            forall|k: int| 0 <= k < i ==> #[trigger] r@[k]@ == normalized(keys@[k].title@),
        decreases keys@.len() - i,
    {
        r.push(normalize(keys[i].title.as_str()));
        i = i + 1;
    }
    r
}

fn first_among_best(items: &[DedupKey], best: &Vec<bool>, i: usize) -> (r: bool)
    requires
        i < items@.len(),
        best@.len() == items@.len(),
        forall|k: int| 0 <= k < items@.len() ==> #[trigger] best@[k] == best_of_title(items@, k),
    ensures
        r == forall|m: int| 0 <= m < i && best_of_title(items@, m) ==> (#[trigger] items@[m].url@) != items@[i as int].url@,
{
    let mut j: usize = 0;
    while j < i
        invariant
            i < items@.len(),
            best@.len() == items@.len(),
            forall|k: int| 0 <= k < items@.len() ==> #[trigger] best@[k] == best_of_title(items@, k),
            j <= i,
            forall|m: int| 0 <= m < j && best_of_title(items@, m) ==> (#[trigger] items@[m].url@) != items@[i as int].url@,
        decreases i - j,
    {
        if best[j] && items[j].url == items[i].url {
            return false;
        }
        j = j + 1;
    }
    true
}

fn new_to_history_exec(history: &[HistoryKey], hist_titles: &Vec<String>, items: &[DedupKey], i: usize) -> (r: bool)
    requires
        i < items@.len(),
        hist_titles@.len() == history@.len(),
        forall|m: int| 0 <= m < history@.len() ==> #[trigger] hist_titles@[m]@ == normalized(history@[m].title@),
    ensures
        r == new_to_history(history@, items@, i as int),
{
    let norm_url = normalize(items[i].url.as_str());
    let mut k: usize = 0;
    while k < history.len()
        invariant
            i < items@.len(),
            norm_url@ == normalized(items@[i as int].url@),
            hist_titles@.len() == history@.len(),
            forall|m: int| 0 <= m < history@.len() ==> #[trigger] hist_titles@[m]@ == normalized(history@[m].title@),
            k <= history@.len(),
            forall|m: int|
                0 <= m < k ==> (#[trigger] history@[m].url@) != items@[i as int].url@ && normalized(history@[m].title@)
                    != normalized(items@[i as int].url@),
        decreases history@.len() - k,
    {
        proof {
            assert(k < history@.len());
            assert(hist_titles@[k as int]@ == normalized(history@[k as int].title@));
        }
        if history[k].url == items[i].url || hist_titles[k] == norm_url {
            return false;
        }
        proof {
            assert(history@[k as int].url@ != items@[i as int].url@);
            assert(normalized(history@[k as int].title@) != normalized(items@[i as int].url@));
            assert(forall|m: int|
                0 <= m < k + 1 ==> (#[trigger] history@[m].url@) != items@[i as int].url@ && normalized(history@[m].title@)
                    != normalized(items@[i as int].url@));
        }
        k = k + 1;
    }
    true
}

fn better_than_stack_exec(
    stack: &[DedupKey],
    stack_titles: &Vec<String>,
    items: &[DedupKey],
    titles: &Vec<String>,
    i: usize,
) -> (r: bool)
    requires
        i < items@.len(),
        titles@.len() == items@.len(),
        forall|m: int| 0 <= m < items@.len() ==> #[trigger] titles@[m]@ == normalized(items@[m].title@),
        stack_titles@.len() == stack@.len(),
        forall|m: int| 0 <= m < stack@.len() ==> #[trigger] stack_titles@[m]@ == normalized(stack@[m].title@),
    ensures
        r == better_than_stack(stack@, items@, i as int),
{
    let mut k: usize = 0;
    while k < stack.len()
        invariant
            i < items@.len(),
            titles@.len() == items@.len(),
            forall|m: int| 0 <= m < items@.len() ==> #[trigger] titles@[m]@ == normalized(items@[m].title@),
            stack_titles@.len() == stack@.len(),
            forall|m: int| 0 <= m < stack@.len() ==> #[trigger] stack_titles@[m]@ == normalized(stack@[m].title@),
            k <= stack@.len(),
            forall|m: int|
                0 <= m < k ==> (#[trigger] stack@[m].url@) != items@[i as int].url@ && (normalized(stack@[m].title@)
                    == normalized(items@[i as int].title@) ==> items@[i as int].rank < stack@[m].rank),
        decreases stack@.len() - k,
    {
        proof {
            assert(stack_titles@[k as int]@ == normalized(stack@[k as int].title@));
            assert(titles@[i as int]@ == normalized(items@[i as int].title@));
        }
        if stack[k].url == items[i].url {
            return false;
        }
        if stack_titles[k] == titles[i] && !(items[i].rank < stack[k].rank) {
            return false;
        }
        proof {
            assert(stack@[k as int].url@ != items@[i as int].url@);
            assert(normalized(stack@[k as int].title@) == normalized(items@[i as int].title@) ==> items@[i as int].rank
                < stack@[k as int].rank);
            assert forall|m: int| 0 <= m < k + 1 implies (#[trigger] stack@[m].url@) != items@[i as int].url@ && (
            normalized(stack@[m].title@) == normalized(items@[i as int].title@) ==> items@[i as int].rank
                < stack@[m].rank) by {
                if m < k {
                } else {
                    assert(m == k);
                }
            }
        }
        k = k + 1;
    }
    true
}

/// The indices of the items that survive de-duplication (see [`kept`]), in
/// increasing order of their URLs.
///
/// Among items with the same normalized title only the best ranked one
/// stays, among the remaining items with the same URL only the first one;
/// then items that duplicate a history document or a stack document are
/// discarded.
pub fn duplicate_filter_indices(history: &[HistoryKey], stack: &[DedupKey], items: &[DedupKey]) -> (r: Vec<usize>)
    ensures
        sorted_by_url(items@, r@),
        r@.no_duplicates(),
        forall|i: usize| i < items@.len() ==> (r@.contains(i) <==> kept(history@, stack@, items@, i as int)),
        forall|k: int| 0 <= k < r@.len() ==> kept(history@, stack@, items@, #[trigger] r@[k] as int),
{
    let n = items.len();
    let titles = normalized_all(items);
    let best = best_of_title_all(items, &titles);
    let hist_titles = normalized_titles(history);
    let stack_titles = normalized_all(stack);
    let mut r: Vec<usize> = Vec::new();
    let mut i: usize = 0;
    while i < n
        invariant
            n == items@.len(),
            titles@.len() == n,
            forall|k: int| 0 <= k < n ==> #[trigger] titles@[k]@ == normalized(items@[k].title@),
            best@.len() == n,
            forall|k: int| 0 <= k < n ==> #[trigger] best@[k] == best_of_title(items@, k),
            hist_titles@.len() == history@.len(),
            forall|k: int| 0 <= k < history@.len() ==> #[trigger] hist_titles@[k]@ == normalized(history@[k].title@),
            stack_titles@.len() == stack@.len(),
            forall|k: int| 0 <= k < stack@.len() ==> #[trigger] stack_titles@[k]@ == normalized(stack@[k].title@),
            i <= n,
            sorted_by_url(items@, r@),
            forall|j: usize| j < n ==> (r@.contains(j) <==> (j < i && kept(history@, stack@, items@, j as int))),
        decreases n - i,
    {
        let keep = best[i] && first_among_best(items, &best, i) && new_to_history_exec(history, &hist_titles, items, i)
            && better_than_stack_exec(stack, &stack_titles, items, &titles, i);
        proof {
            assert(keep == kept(history@, stack@, items@, i as int));
        }
        if keep {
            proof {
                assert forall|m: int| 0 <= m < r@.len() implies items@[#[trigger] r@[m] as int].url@ != items@[i as int].url@ by {
                    let x = r@[m];
                    assert(r@.contains(x));
                    assert(sorted_by_url(items@, r@));
                    assert(x < n);
                    assert(kept(history@, stack@, items@, x as int));
                }
            }
            let ghost before = r@;
            insert_by_url(items, &mut r, i);
            proof {
                assert forall|j: usize| j < n implies (r@.contains(j) <==> (j < i + 1 && kept(
                    history@,
                    stack@,
                    items@,
                    j as int,
                ))) by {
                    assert(r@.to_set().contains(j) == r@.contains(j));
                    assert(before.to_set().contains(j) == before.contains(j));
                }
            }
        }
        i = i + 1;
    }
    proof {
        assert forall|k: int| 0 <= k < r@.len() implies kept(history@, stack@, items@, #[trigger] r@[k] as int) by {
            assert(r@.contains(r@[k]));
        }
        assert forall|a: int, b: int| 0 <= a < r@.len() && 0 <= b < r@.len() && a != b implies r@[a] != r@[b] by {
            if a < b {
                assert(str_order(items@[r@[a] as int].url@, items@[r@[b] as int].url@) < 0);
                lemma_str_order(items@[r@[a] as int].url@, items@[r@[b] as int].url@);
            } else {
                assert(str_order(items@[r@[b] as int].url@, items@[r@[a] as int].url@) < 0);
                lemma_str_order(items@[r@[b] as int].url@, items@[r@[a] as int].url@);
            }
        }
    }
    r
}

/// The items that survive de-duplication, in increasing order of their URLs.
/// `keys[i]` is what de-duplication reads of `documents[i]`.
pub fn apply<T>(history: &[HistoryKey], stack: &[DedupKey], documents: Vec<T>, keys: &[DedupKey]) -> (r: Vec<T>)
    requires
        keys@.len() == documents@.len(),
    ensures
        exists|idx: Seq<usize>|
            {
                &&& sorted_by_url(keys@, idx)
                &&& (forall|i: usize| i < keys@.len() ==> (idx.contains(i) <==> kept(history@, stack@, keys@, i as int)))
                &&& r@ == idx.map_values(|i: usize| documents@[i as int])
            },
{
    let idx = duplicate_filter_indices(history, stack, keys);
    let r = select_by_indices(documents, &idx);
    proof {
        assert(r@ == idx@.map_values(|i: usize| documents@[i as int]));
    }
    r
}

/// The elements of `documents` at the given distinct indices, in the order of the indices.
pub fn select_by_indices<T>(documents: Vec<T>, idx: &Vec<usize>) -> (r: Vec<T>)
    requires
        forall|k: int| 0 <= k < idx@.len() ==> #[trigger] idx@[k] < documents@.len(),
        idx@.no_duplicates(),
    ensures
        r@ == idx@.map_values(|i: usize| documents@[i as int]),
{
    let ghost docs = documents@;
    let n = documents.len();
    // move the documents into optional slots, in reverse order
    let mut rest = documents;
    let mut rev_slots: Vec<Option<T>> = Vec::new();
    while rest.len() > 0
        invariant
            rest@.len() + rev_slots@.len() == n,
            n == docs.len(),
            forall|k: int| 0 <= k < rest@.len() ==> #[trigger] rest@[k] == docs[k],
            forall|k: int| 0 <= k < rev_slots@.len() ==> #[trigger] rev_slots@[k] == Some(docs[n - 1 - k]),
        decreases rest.len(),
    {
        let x = rest.pop().unwrap();
        rev_slots.push(Some(x));
    }
    let mut res: Vec<T> = Vec::new();
    let mut k: usize = 0;
    while k < idx.len()
        invariant
            n == docs.len(),
            rev_slots@.len() == n,
            forall|m: int| 0 <= m < idx@.len() ==> #[trigger] idx@[m] < n,
            idx@.no_duplicates(),
            k <= idx@.len(),
            res@ == idx@.subrange(0, k as int).map_values(|i: usize| docs[i as int]),
            forall|p: int|
                0 <= p < n ==> #[trigger] rev_slots@[p] == (if idx@.subrange(0, k as int).contains((n - 1 - p) as usize) {
                    None
                } else {
                    Some(docs[n - 1 - p])
                }),
        decreases idx@.len() - k,
    {
        let pos = n - (idx[k] + 1);
        let mut slot: Option<T> = None;
        let ghost before = rev_slots@;
        std::mem::swap(&mut slot, &mut rev_slots[pos]);
        proof {
            assert(!idx@.subrange(0, k as int).contains(idx@[k as int])) by {
                if idx@.subrange(0, k as int).contains(idx@[k as int]) {
                    let m = choose|m: int| 0 <= m < k && idx@.subrange(0, k as int)[m] == idx@[k as int];
                    assert(idx@[m] == idx@[k as int]);
                }
            }
            assert(before[pos as int] == Some(docs[idx@[k as int] as int]));
        }
        let x = slot.unwrap();
        res.push(x);
        proof {
            let sub = idx@.subrange(0, k + 1);
            assert(sub =~= idx@.subrange(0, k as int).push(idx@[k as int]));
            assert(res@ =~= sub.map_values(|i: usize| docs[i as int]));
            assert forall|p: int| 0 <= p < n implies #[trigger] rev_slots@[p] == (if sub.contains((n - 1 - p) as usize) {
                None
            } else {
                Some(docs[n - 1 - p])
            }) by {
                if p != pos {
                    assert(rev_slots@[p] == before[p]);
                    if sub.contains((n - 1 - p) as usize) {
                        let m = choose|m: int| 0 <= m < sub.len() && sub[m] == (n - 1 - p) as usize;
                        if m < k {
                            assert(idx@.subrange(0, k as int)[m] == (n - 1 - p) as usize);
                        }
                    }
                    if idx@.subrange(0, k as int).contains((n - 1 - p) as usize) {
                        let m = choose|m: int| 0 <= m < k && idx@.subrange(0, k as int)[m] == (n - 1 - p) as usize;
                        assert(sub[m] == (n - 1 - p) as usize);
                    }
                } else {
                    assert(sub[k as int] == idx@[k as int]);
                }
            }
        }
        k = k + 1;
    }
    proof {
        assert(idx@.subrange(0, idx@.len() as int) =~= idx@);
    }
    res
}


/// The elements of `s` whose flag in `keep` is set, in order.
pub open spec fn masked<T>(s: Seq<T>, keep: Seq<bool>) -> Seq<T>
    decreases s.len(),
{
    if s.len() == 0 || keep.len() == 0 {
        Seq::empty()
    } else {
        let init = masked(s.drop_last(), keep.drop_last());
        if keep.last() { init.push(s.last()) } else { init }
    }
}

/// Keeps the items whose flag is set, in order.
pub fn retain_by_mask<T>(items: Vec<T>, keep: &Vec<bool>) -> (r: Vec<T>)
    requires
        keep@.len() == items@.len(),
    ensures
        r@ == masked(items@, keep@),
{
    let ghost all = items@;
    let n = items.len();
    let mut rest = items;
    let mut rev: Vec<T> = Vec::new();
    proof {
        assert(keep@.subrange(0, n as int) =~= keep@);
        assert(all.subrange(0, n as int) =~= all);
        assert(rev@.reverse() =~= Seq::<T>::empty());
        assert(masked(all, keep@) =~= masked(rest@, keep@.subrange(0, rest@.len() as int)) + rev@.reverse());
    }
    while rest.len() > 0
        invariant
            keep@.len() == n,
            all.len() == n,
            rest@.len() <= n,
            rest@ == all.subrange(0, rest@.len() as int),
            masked(all, keep@) == masked(rest@, keep@.subrange(0, rest@.len() as int)) + rev@.reverse(),
        decreases rest.len(),
    {
        let len = rest.len();
        let ghost before = rest@;
        let x = rest.pop().unwrap();
        proof {
            let kb = keep@.subrange(0, len as int);
            assert(kb.drop_last() =~= keep@.subrange(0, rest@.len() as int));
            assert(before.drop_last() =~= rest@);
            assert(rest@ =~= all.subrange(0, rest@.len() as int));
            assert(kb.last() == keep@[len - 1]);
        }
        if keep[len - 1] {
            let ghost old_rev = rev@;
            rev.push(x);
            proof {
                assert(rev@.reverse() =~= seq![x] + old_rev.reverse());
                assert(masked(all, keep@) =~= masked(rest@, keep@.subrange(0, rest@.len() as int)) + rev@.reverse());
            }
        }
    }
    proof {
        assert(masked(rest@, keep@.subrange(0, 0)) =~= Seq::<T>::empty());
        assert(masked(all, keep@) =~= rev@.reverse());
    }
    let mut res: Vec<T> = Vec::new();
    while rev.len() > 0
        invariant
            masked(all, keep@) == res@ + rev@.reverse(),
        decreases rev.len(),
    {
        let ghost before = rev@;
        let a = rev.pop().unwrap();
        res.push(a);
        proof {
            assert(before.reverse() =~= seq![a] + rev@.reverse());
            assert(masked(all, keep@) =~= res@ + rev@.reverse());
        }
    }
    proof {
        assert(rev@.reverse() =~= Seq::<T>::empty());
        assert(res@ =~= masked(all, keep@));
    }
    res
}

/// An article is well formed when it has a title and a snippet.
pub fn is_well_formed(title: &str, snippet: &str) -> (r: bool)
    ensures
        r == (title@.len() > 0 && snippet@.len() > 0),
{
    title.unicode_len() > 0 && snippet.unicode_len() > 0
}

/// Whether `domain` is none of the excluded sources.
pub fn is_not_excluded(domain: &String, excluded: &[String]) -> (r: bool)
    ensures
        r == forall|k: int| 0 <= k < excluded@.len() ==> (#[trigger] excluded@[k])@ != domain@,
{
    let mut k: usize = 0;
    while k < excluded.len()
        invariant
            k <= excluded@.len(),
            forall|m: int| 0 <= m < k ==> (#[trigger] excluded@[m])@ != domain@,
        decreases excluded@.len() - k,
    {
        if excluded[k] == *domain {
            return false;
        }
        k = k + 1;
    }
    true
}

/// For each domain, whether it is none of the excluded sources.
pub fn not_excluded_mask(domains: &[String], excluded: &[String]) -> (r: Vec<bool>)
    ensures
        r@.len() == domains@.len(),
        forall|i: int| 0 <= i < domains@.len() ==> #[trigger] r@[i] == forall|k: int|
            0 <= k < excluded@.len() ==> (#[trigger] excluded@[k])@ != domains@[i]@,
{
    let mut r: Vec<bool> = Vec::new();
    let mut i: usize = 0;
    while i < domains.len()
        invariant
            i <= domains@.len(),
            r@.len() == i,
            forall|m: int| 0 <= m < i ==> #[trigger] r@[m] == forall|k: int|
                0 <= k < excluded@.len() ==> (#[trigger] excluded@[k])@ != domains@[m]@,
        decreases domains@.len() - i,
    {
        r.push(is_not_excluded(&domains[i], excluded));
        i = i + 1;
    }
    r
}

/// No two items survive de-duplication with the same normalized title or
/// the same URL.
pub proof fn lemma_kept_unique(history: Seq<HistoryKey>, stack: Seq<DedupKey>, items: Seq<DedupKey>, i: int, j: int)
    requires
        kept(history, stack, items, i),
        kept(history, stack, items, j),
        i != j,
    ensures
        normalized(items[i].title@) != normalized(items[j].title@),
        items[i].url@ != items[j].url@,
{
    if normalized(items[i].title@) == normalized(items[j].title@) {
        assert(normalized(items[j].title@) == normalized(items[i].title@));
    }
    if i < j {
        assert(best_of_title(items, i));
    } else {
        assert(best_of_title(items, j));
    }
}

} // verus!
