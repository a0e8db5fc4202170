//! The decisions the engine takes between its calls to providers, models
//! and storage: when to ask for new documents, how the answers of the
//! stacks are gathered, where a reaction goes and when a search is refused.

use vstd::prelude::*;
use crate::stack::{StackId, EXPLORATION_STACK};
use crate::dedup::{
    best_of_title, duplicate_filter_indices, first_of_url, kept, lemma_kept_unique, masked, new_to_history,
    normalized, retain_by_mask, select_by_indices, sorted_by_url, DedupKey,
    HistoryKey,
};
use crate::content::ok_values;
use crate::document::{Paging, UserReaction};
use crate::filter::Market;
use crate::clean_query::{clean_query, cleaned_query};
use crate::text::{str_equal, trim, trimmed};

verus! {

/// Counts the feed batches to decide how many new documents the stacks ask
/// for.
pub struct RequestSchedule {
    counter: usize,
}

impl RequestSchedule {
    /// The number of feed batches since the schedule was last reset, modulo
    /// the configured period.
    pub closed spec fn count(&self) -> usize {
        self.counter
    }

    /// A schedule that has counted nothing.
    pub fn new() -> (r: RequestSchedule)
        ensures
            r.count() == 0,
    {
        RequestSchedule { counter: 0 }
    }

    /// Starts counting anew.
    pub fn reset(&mut self)
        ensures
            final(self).count() == 0,
    {
        self.counter = 0;
    }

    /// The limit below which a stack asks for new documents for the next
    /// feed batch: `request_new` while fewer than `request_after` batches
    /// were counted, else no limit. Counts the batch.
    pub fn next_request_new(&mut self, request_after: usize, request_new: usize) -> (r: usize)
        requires
            request_after > 0,
            old(self).count() < usize::MAX,
        ensures
            r == (if old(self).count() < request_after { request_new } else { usize::MAX }),
            final(self).count() == (old(self).count() + 1) % (request_after as int),
    {
        let r = if self.counter < request_after { request_new } else { usize::MAX };
        self.counter = (self.counter + 1) % request_after;
        r
    }
}

/// For each stack, whether it asks for new documents: it holds no more than
/// `request_new` of them.
pub fn needy_stacks(lens: &[usize], request_new: usize) -> (r: Vec<bool>)
    ensures
        r@.len() == lens@.len(),
        forall|i: int| 0 <= i < lens@.len() ==> #[trigger] r@[i] == (lens@[i] <= request_new),
{
    let mut r: Vec<bool> = Vec::new();
    let mut i: usize = 0;
    while i < lens.len()
        invariant
            i <= lens@.len(),
            r@.len() == i,
            forall|k: int| 0 <= k < i ==> #[trigger] r@[k] == (lens@[k] <= request_new),
        decreases lens@.len() - i,
    {
        r.push(lens[i] <= request_new);
        i = i + 1;
    }
    r
}

/// What a stack answered when asked for new documents for one market.
pub enum FetchResult<D, E> {
    /// New documents.
    Fetched(Vec<D>),
    /// The stack is not ready to ask for documents.
    NotReady,
    /// The request failed.
    Failed(E),
}

/// The answers of the stacks, gathered.
pub struct FetchCollection<D, E> {
    /// All new documents, in the order of the answers.
    pub documents: Vec<D>,
    /// The stacks that were not ready, each once.
    pub not_ready: Vec<StackId>,
    /// The stacks with a failed request, each once.
    pub failed: Vec<StackId>,
    /// The errors of the failed requests, in the order of the answers.
    pub errors: Vec<E>,
}

/// The documents of the answers, in order.
pub open spec fn fetched_documents<D, E>(s: Seq<(StackId, FetchResult<D, E>)>) -> Seq<D>
    decreases s.len(),
{
    if s.len() == 0 {
        Seq::empty()
    } else {
        let init = fetched_documents(s.drop_last());
        match s.last().1 {
            FetchResult::Fetched(v) => init + v@,
            _ => init,
        }
    }
}

/// The errors of the answers, in order.
pub open spec fn fetch_errors<D, E>(s: Seq<(StackId, FetchResult<D, E>)>) -> Seq<E>
    decreases s.len(),
{
    if s.len() == 0 {
        Seq::empty()
    } else {
        let init = fetch_errors(s.drop_last());
        match s.last().1 {
            FetchResult::Failed(e) => init.push(e),
            _ => init,
        }
    }
}

/// The stacks that answered that they are not ready.
pub open spec fn not_ready_stacks<D, E>(s: Seq<(StackId, FetchResult<D, E>)>) -> Set<StackId> {
    Set::new(|id: StackId| exists|i: int| 0 <= i < s.len() && (#[trigger] s[i]).0 == id && s[i].1 is NotReady)
}

/// The stacks with a failed request.
pub open spec fn failed_stacks<D, E>(s: Seq<(StackId, FetchResult<D, E>)>) -> Set<StackId> {
    Set::new(|id: StackId| exists|i: int| 0 <= i < s.len() && (#[trigger] s[i]).0 == id && s[i].1 is Failed)
}

/// Adds `id` to a list of distinct ids.
fn push_unique(v: &mut Vec<StackId>, id: StackId)
    requires
        old(v)@.no_duplicates(),
    ensures
        final(v)@.no_duplicates(),
        final(v)@.to_set() == old(v)@.to_set().insert(id),
{
    let mut i: usize = 0;
    while i < v.len()
        invariant
            i <= v@.len(),
            v@ == old(v)@,
            v@.no_duplicates(),
            forall|k: int| 0 <= k < i ==> (#[trigger] v@[k]) != id,
        decreases v@.len() - i,
    {
        if v[i].0 == id.0 {
            proof {
                assert(v@.to_set().insert(id) =~= v@.to_set());
            }
            return;
        }
        i = i + 1;
    }
    let ghost before = v@;
    v.push(id);
    proof {
        assert forall|a: int, b: int| 0 <= a < v@.len() && 0 <= b < v@.len() && a != b implies v@[a] != v@[b] by {
            if a == before.len() as int {
                assert(v@[b] == before[b]);
            } else if b == before.len() as int {
                assert(v@[a] == before[a]);
            }
        }
        assert forall|x: StackId| v@.to_set().contains(x) <==> before.to_set().insert(id).contains(x) by {
            if v@.contains(x) && x != id {
                let k = choose|k: int| 0 <= k < v@.len() && v@[k] == x;
                assert(before[k] == x);
            }
            if before.contains(x) {
                let k = choose|k: int| 0 <= k < before.len() && before[k] == x;
                assert(v@[k] == x);
            }
            if x == id {
                assert(v@[before.len() as int] == x);
            }
        }
        assert(v@.to_set() =~= before.to_set().insert(id));
    }
}

/// The items of `v` in reverse order.
fn reversed<T>(v: Vec<T>) -> (r: Vec<T>)
    ensures
        r@ == v@.reverse(),
{
    let ghost all = v@;
    let mut rest = v;
    let mut r: Vec<T> = Vec::new();
    while rest.len() > 0
        invariant
            rest@.len() <= all.len(),
            rest@ == all.subrange(0, rest@.len() as int),
            r@ == all.subrange(rest@.len() as int, all.len() as int).reverse(),
        decreases rest.len(),
    {
        let ghost before = rest@;
        let x = rest.pop().unwrap();
        r.push(x);
        proof {
            assert(rest@ =~= all.subrange(0, rest@.len() as int));
            assert(r@ =~= all.subrange(rest@.len() as int, all.len() as int).reverse());
        }
    }
    proof {
        assert(all.subrange(0, all.len() as int) =~= all);
    }
    r
}

/// Gathers the answers of the stacks: the new documents and the errors in
/// order, and which stacks were not ready or failed.
pub fn collect_fetches<D, E>(results: Vec<(StackId, FetchResult<D, E>)>) -> (r: FetchCollection<D, E>)
    ensures
        r.documents@ == fetched_documents(results@),
        r.errors@ == fetch_errors(results@),
        r.not_ready@.no_duplicates(),
        r.not_ready@.to_set() == not_ready_stacks(results@),
        r.failed@.no_duplicates(),
        r.failed@.to_set() == failed_stacks(results@),
{
    let ghost all = results@;
    let n = results.len();
    let mut rev = reversed(results);
    let mut c = FetchCollection {
        documents: Vec::new(),
        not_ready: Vec::new(),
        failed: Vec::new(),
        errors: Vec::new(),
    };
    let mut k: usize = 0;
    proof {
        assert(all.subrange(0, 0) =~= Seq::<(StackId, FetchResult<D, E>)>::empty());
        assert(c.not_ready@.to_set() =~= not_ready_stacks(all.subrange(0, 0)));
        assert(c.failed@.to_set() =~= failed_stacks(all.subrange(0, 0)));
        assert(all.subrange(0, n as int).reverse() =~= rev@);
    }
    while k < n
        invariant
            n == all.len(),
            k <= n,
            rev@ == all.subrange(k as int, n as int).reverse(),
            c.documents@ == fetched_documents(all.subrange(0, k as int)),
            c.errors@ == fetch_errors(all.subrange(0, k as int)),
            c.not_ready@.no_duplicates(),
            c.not_ready@.to_set() == not_ready_stacks(all.subrange(0, k as int)),
            c.failed@.no_duplicates(),
            c.failed@.to_set() == failed_stacks(all.subrange(0, k as int)),
        decreases n - k,
    {
        let ghost before = rev@;
        let (id, res) = rev.pop().unwrap();
        let ghost pre = all.subrange(0, k as int);
        let ghost post = all.subrange(0, k + 1);
        proof {
            assert(before.last() == all[k as int]);
            assert(rev@ =~= all.subrange(k + 1, n as int).reverse());
            assert(post.drop_last() =~= pre);
            assert(post.last() == all[k as int]);
        }
        let ghost nr = c.not_ready@.to_set();
        let ghost fl = c.failed@.to_set();
        match res {
            FetchResult::Fetched(docs) => {
                let mut docs = docs;
                c.documents.append(&mut docs);
                proof {
                    assert(not_ready_stacks(post) =~= nr) by {
                        assert forall|x: StackId| #[trigger] not_ready_stacks(post).contains(x) implies nr.contains(x) by {
                            let i = choose|i: int| 0 <= i < post.len() && (#[trigger] post[i]).0 == x && post[i].1 is NotReady;
                            assert(pre[i] == post[i]);
                        }
                        assert forall|x: StackId| #[trigger] nr.contains(x) implies not_ready_stacks(post).contains(x) by {
                            let i = choose|i: int| 0 <= i < pre.len() && (#[trigger] pre[i]).0 == x && pre[i].1 is NotReady;
                            assert(pre[i] == post[i]);
                        }
                    }
                    assert(failed_stacks(post) =~= fl) by {
                        assert forall|x: StackId| #[trigger] failed_stacks(post).contains(x) implies fl.contains(x) by {
                            let i = choose|i: int| 0 <= i < post.len() && (#[trigger] post[i]).0 == x && post[i].1 is Failed;
                            assert(pre[i] == post[i]);
                        }
                        assert forall|x: StackId| #[trigger] fl.contains(x) implies failed_stacks(post).contains(x) by {
                            let i = choose|i: int| 0 <= i < pre.len() && (#[trigger] pre[i]).0 == x && pre[i].1 is Failed;
                            assert(pre[i] == post[i]);
                        }
                    }
                }
            },
            FetchResult::NotReady => {
                push_unique(&mut c.not_ready, id);
                proof {
                    assert(not_ready_stacks(post) =~= nr.insert(id)) by {
                        assert forall|x: StackId| #[trigger] not_ready_stacks(post).contains(x) implies nr.insert(id).contains(x) by {
                            let i = choose|i: int| 0 <= i < post.len() && (#[trigger] post[i]).0 == x && post[i].1 is NotReady;
                            if i < k {
                                assert(pre[i] == post[i]);
                            }
                        }
                        assert forall|x: StackId| #[trigger] nr.insert(id).contains(x) implies not_ready_stacks(post).contains(x) by {
                            if x == id {
                                assert(post[k as int].0 == x);
                            } else {
                                let i = choose|i: int| 0 <= i < pre.len() && (#[trigger] pre[i]).0 == x && pre[i].1 is NotReady;
                                assert(pre[i] == post[i]);
                            }
                        }
                    }
                    assert(failed_stacks(post) =~= fl) by {
                        assert forall|x: StackId| #[trigger] failed_stacks(post).contains(x) implies fl.contains(x) by {
                            let i = choose|i: int| 0 <= i < post.len() && (#[trigger] post[i]).0 == x && post[i].1 is Failed;
                            assert(pre[i] == post[i]);
                        }
                        assert forall|x: StackId| #[trigger] fl.contains(x) implies failed_stacks(post).contains(x) by {
                            let i = choose|i: int| 0 <= i < pre.len() && (#[trigger] pre[i]).0 == x && pre[i].1 is Failed;
                            assert(pre[i] == post[i]);
                        }
                    }
                }
            },
            FetchResult::Failed(e) => {
                push_unique(&mut c.failed, id);
                c.errors.push(e);
                proof {
                    assert(failed_stacks(post) =~= fl.insert(id)) by {
                        assert forall|x: StackId| #[trigger] failed_stacks(post).contains(x) implies fl.insert(id).contains(x) by {
                            let i = choose|i: int| 0 <= i < post.len() && (#[trigger] post[i]).0 == x && post[i].1 is Failed;
                            if i < k {
                                assert(pre[i] == post[i]);
                            }
                        }
                        assert forall|x: StackId| #[trigger] fl.insert(id).contains(x) implies failed_stacks(post).contains(x) by {
                            if x == id {
                                assert(post[k as int].0 == x);
                            } else {
                                let i = choose|i: int| 0 <= i < pre.len() && (#[trigger] pre[i]).0 == x && pre[i].1 is Failed;
                                assert(pre[i] == post[i]);
                            }
                        }
                    }
                    assert(not_ready_stacks(post) =~= nr) by {
                        assert forall|x: StackId| #[trigger] not_ready_stacks(post).contains(x) implies nr.contains(x) by {
                            let i = choose|i: int| 0 <= i < post.len() && (#[trigger] post[i]).0 == x && post[i].1 is NotReady;
                            assert(pre[i] == post[i]);
                        }
                        assert forall|x: StackId| #[trigger] nr.contains(x) implies not_ready_stacks(post).contains(x) by {
                            let i = choose|i: int| 0 <= i < pre.len() && (#[trigger] pre[i]).0 == x && pre[i].1 is NotReady;
                            assert(pre[i] == post[i]);
                        }
                    }
                }
            },
        }
        k = k + 1;
    }
    proof {
        assert(all.subrange(0, n as int) =~= all);
    }
    c
}

/// The flags of `m`, each negated.
pub open spec fn negated(m: Seq<bool>) -> Seq<bool> {
    m.map_values(|b: bool| !b)
}

/// For each document, whether it belongs to the stack `id`.
pub open spec fn stack_mask(ids: Seq<StackId>, id: StackId) -> Seq<bool> {
    ids.map_values(|x: StackId| x == id)
}

proof fn lemma_masked_step<T>(s: Seq<T>, m: Seq<bool>, k: int)
    requires
        0 <= k < s.len(),
        s.len() == m.len(),
    ensures
        masked(s.subrange(0, k + 1), m.subrange(0, k + 1)) == (if m[k] {
            masked(s.subrange(0, k), m.subrange(0, k)).push(s[k])
        } else {
            masked(s.subrange(0, k), m.subrange(0, k))
        }),
{
    assert(s.subrange(0, k + 1).drop_last() =~= s.subrange(0, k));
    assert(m.subrange(0, k + 1).drop_last() =~= m.subrange(0, k));
}

proof fn lemma_masked_none<T>(s: Seq<T>, m: Seq<bool>)
    requires
        s.len() == m.len(),
        forall|i: int| 0 <= i < m.len() ==> !#[trigger] m[i],
    ensures
        masked(s, m) == Seq::<T>::empty(),
    decreases s.len(),
{
    if s.len() > 0 {
        lemma_masked_none(s.drop_last(), m.drop_last());
    }
}

/// Splits the items in those whose flag is set and the others, each in
/// order.
pub fn partition_by_mask<T>(items: Vec<T>, mask: &[bool]) -> (r: (Vec<T>, Vec<T>))
    requires
        mask@.len() == items@.len(),
    ensures
        r.0@ == masked(items@, mask@),
        r.1@ == masked(items@, negated(mask@)),
{
    let ghost all = items@;
    let ghost neg = negated(mask@);
    let n = items.len();
    let mut rev = reversed(items);
    let mut yes: Vec<T> = Vec::new();
    let mut no: Vec<T> = Vec::new();
    let mut k: usize = 0;
    proof {
        assert(all.subrange(0, n as int).reverse() =~= rev@);
        assert(masked(all.subrange(0, 0), mask@.subrange(0, 0)) =~= Seq::<T>::empty());
        assert(masked(all.subrange(0, 0), neg.subrange(0, 0)) =~= Seq::<T>::empty());
    }
    while k < n
        invariant
            n == all.len(),
            n == mask@.len(),
            neg == negated(mask@),
            k <= n,
            rev@ == all.subrange(k as int, n as int).reverse(),
            yes@ == masked(all.subrange(0, k as int), mask@.subrange(0, k as int)),
            no@ == masked(all.subrange(0, k as int), neg.subrange(0, k as int)),
        decreases n - k,
    {
        let ghost before = rev@;
        let x = rev.pop().unwrap();
        proof {
            assert(before.last() == all[k as int]);
            assert(rev@ =~= all.subrange(k + 1, n as int).reverse());
            lemma_masked_step(all, mask@, k as int);
            lemma_masked_step(all, neg, k as int);
        }
        if mask[k] {
            yes.push(x);
        } else {
            no.push(x);
        }
        k = k + 1;
    }
    proof {
        assert(all.subrange(0, n as int) =~= all);
        assert(mask@.subrange(0, n as int) =~= mask@);
        assert(neg.subrange(0, n as int) =~= neg);
    }
    (yes, no)
}

/// Whether some group is the one of stack `id`.
pub open spec fn has_group<D>(groups: Seq<(StackId, Vec<D>)>, id: StackId) -> bool {
    exists|j: int| 0 <= j < groups.len() && (#[trigger] groups[j]).0 == id
}

/// Groups the documents by the stack they belong to (`ids` holds the stack
/// of each document): one group per stack, in the order the stacks first
/// appear, each holding the documents of its stack in order.
pub fn group_by_stack<D>(documents: Vec<D>, ids: &[StackId]) -> (r: Vec<(StackId, Vec<D>)>)
    requires
        ids@.len() == documents@.len(),
    ensures
        forall|a: int, b: int| 0 <= a < r@.len() && 0 <= b < r@.len() && a != b ==> r@[a].0 != r@[b].0,
        forall|j: int| 0 <= j < r@.len() ==> (#[trigger] r@[j]).1@ == masked(documents@, stack_mask(ids@, r@[j].0)),
        forall|i: int| 0 <= i < ids@.len() ==> has_group(r@, #[trigger] ids@[i]),
        forall|j: int| 0 <= j < r@.len() ==> ids@.contains((#[trigger] r@[j]).0),
{
    let ghost all = documents@;
    let n = documents.len();
    let mut rev = reversed(documents);
    let mut groups: Vec<(StackId, Vec<D>)> = Vec::new();
    let mut k: usize = 0;
    proof {
        assert(all.subrange(0, n as int).reverse() =~= rev@);
    }
    while k < n
        invariant
            n == all.len(),
            n == ids@.len(),
            k <= n,
            rev@ == all.subrange(k as int, n as int).reverse(),
            forall|a: int, b: int| 0 <= a < groups@.len() && 0 <= b < groups@.len() && a != b ==> groups@[a].0 != groups@[b].0,
            forall|j: int| 0 <= j < groups@.len() ==> (#[trigger] groups@[j]).1@
                == masked(all.subrange(0, k as int), stack_mask(ids@, groups@[j].0).subrange(0, k as int)),
            forall|i: int| 0 <= i < k ==> has_group(groups@, #[trigger] ids@[i]),
            forall|j: int| 0 <= j < groups@.len() ==> ids@.subrange(0, k as int).contains((#[trigger] groups@[j]).0),
        decreases n - k,
    {
        let ghost before = rev@;
        let x = rev.pop().unwrap();
        let id = ids[k];
        proof {
            assert(before.last() == all[k as int]);
            assert(rev@ =~= all.subrange(k + 1, n as int).reverse());
            assert forall|j: int| 0 <= j < groups@.len() implies masked(all.subrange(0, k + 1), stack_mask(ids@, groups@[j].0).subrange(0, k + 1)) == (if groups@[j].0 == id {
                masked(all.subrange(0, k as int), stack_mask(ids@, groups@[j].0).subrange(0, k as int)).push(all[k as int])
            } else {
                masked(all.subrange(0, k as int), stack_mask(ids@, groups@[j].0).subrange(0, k as int))
            }) by {
                lemma_masked_step(all, stack_mask(ids@, groups@[j].0), k as int);
            }
        }
        let mut j: usize = 0;
        while j < groups.len() && groups[j].0.0 != id.0
            invariant
                j <= groups@.len(),
                forall|m: int| 0 <= m < j ==> (#[trigger] groups@[m]).0 != id,
            decreases groups@.len() - j,
        {
            j = j + 1;
        }
        let ghost old_groups = groups@;
        proof {
            if j < groups@.len() {
                assert(groups@[j as int].0 == id);
            }
        }
        if j < groups.len() {
            let (gid, mut gdocs) = groups.remove(j);
            gdocs.push(x);
            groups.insert(j, (gid, gdocs));
            proof {
                assert forall|m: int| 0 <= m < groups@.len() implies (#[trigger] groups@[m]).0 == old_groups[m].0 by {}
                assert forall|m: int| 0 <= m < groups@.len() && m != j implies (#[trigger] groups@[m]).1 == old_groups[m].1 by {}
                assert(groups@[j as int].1@ == old_groups[j as int].1@.push(x));
                assert forall|m: int| 0 <= m < groups@.len() implies (#[trigger] groups@[m]).1@
                    == masked(all.subrange(0, k + 1), stack_mask(ids@, groups@[m].0).subrange(0, k + 1)) by {
                    if m != j {
                        assert(old_groups[m].0 != old_groups[j as int].0);
                    }
                }
                assert forall|i: int| 0 <= i < k + 1 implies has_group(groups@, #[trigger] ids@[i]) by {
                    if i == k {
                        assert(groups@[j as int].0 == ids@[i]);
                    } else {
                        let m = choose|m: int| 0 <= m < old_groups.len() && old_groups[m].0 == ids@[i];
                        assert(groups@[m].0 == ids@[i]);
                    }
                }
                assert forall|m: int| 0 <= m < groups@.len() implies ids@.subrange(0, k + 1).contains((#[trigger] groups@[m]).0) by {
                    let i = choose|i: int| 0 <= i < k && ids@.subrange(0, k as int)[i] == old_groups[m].0;
                    assert(ids@.subrange(0, k + 1)[i] == groups@[m].0);
                }
            }
        } else {
            let mut g: Vec<D> = Vec::new();
            g.push(x);
            groups.push((id, g));
            proof {
                let m_new = stack_mask(ids@, id);
                assert forall|i: int| 0 <= i < k implies !#[trigger] m_new.subrange(0, k as int)[i] by {
                    if m_new.subrange(0, k as int)[i] {
                        assert(has_group(old_groups, ids@[i]));
                        let m = choose|m: int| 0 <= m < old_groups.len() && (#[trigger] old_groups[m]).0 == ids@[i];
                        assert(old_groups[m].0 == id);
                    }
                }
                lemma_masked_none(all.subrange(0, k as int), m_new.subrange(0, k as int));
                lemma_masked_step(all, m_new, k as int);
                assert(groups@[old_groups.len() as int].1@ =~= seq![x]);
                assert forall|m: int| 0 <= m < groups@.len() implies (#[trigger] groups@[m]).1@
                    == masked(all.subrange(0, k + 1), stack_mask(ids@, groups@[m].0).subrange(0, k + 1)) by {
                    if m < old_groups.len() {
                        assert(groups@[m] == old_groups[m]);
                        assert(old_groups[m].0 != id);
                    } else {
                        assert(masked(all.subrange(0, k as int), m_new.subrange(0, k as int)).push(all[k as int]) =~= seq![x]);
                    }
                }
                assert forall|i: int| 0 <= i < k + 1 implies has_group(groups@, #[trigger] ids@[i]) by {
                    if i == k {
                        assert(groups@[old_groups.len() as int].0 == ids@[i]);
                    } else {
                        let m = choose|m: int| 0 <= m < old_groups.len() && old_groups[m].0 == ids@[i];
                        assert(groups@[m].0 == ids@[i]);
                    }
                }
                assert forall|m: int| 0 <= m < groups@.len() implies ids@.subrange(0, k + 1).contains((#[trigger] groups@[m]).0) by {
                    if m == old_groups.len() {
                        assert(ids@.subrange(0, k + 1)[k as int] == groups@[m].0);
                    } else {
                        let i = choose|i: int| 0 <= i < k && ids@.subrange(0, k as int)[i] == old_groups[m].0;
                        assert(ids@.subrange(0, k + 1)[i] == groups@[m].0);
                    }
                }
            }
        }
        k = k + 1;
    }
    proof {
        assert(all.subrange(0, n as int) =~= all);
        assert forall|j: int| 0 <= j < groups@.len() implies stack_mask(ids@, groups@[j].0).subrange(0, n as int) == stack_mask(ids@, groups@[j].0) by {
            assert(stack_mask(ids@, groups@[j].0).subrange(0, n as int) =~= stack_mask(ids@, groups@[j].0));
        }
        assert(ids@.subrange(0, n as int) =~= ids@);
    }
    groups
}

/// Whether the update gives up after the requests: no new document came
/// and every needy stack that was ready failed.
pub open spec fn fetching_failed(documents: nat, failed: nat, needy: nat, not_ready: nat) -> bool {
    documents == 0 && failed > 0 && failed + not_ready >= needy
}

/// The update of the stacks gives up only when every needy stack that was
/// ready failed: it goes on when a document came, when no request failed,
/// or when the failed and the not ready stacks together are fewer than the
/// needy ones; and it gives up when no document came, some request failed,
/// and every needy stack failed or was not ready.
pub proof fn lemma_gives_up_only_when_every_ready_needy_stack_failed(documents: nat, failed: nat, needy: nat, not_ready: nat)
    ensures
        documents > 0 ==> !fetching_failed(documents, failed, needy, not_ready),
        failed == 0 ==> !fetching_failed(documents, failed, needy, not_ready),
        failed + not_ready < needy ==> !fetching_failed(documents, failed, needy, not_ready),
        documents == 0 && failed > 0 && failed + not_ready >= needy ==> fetching_failed(documents, failed, needy, not_ready),
{
}

/// Whether the update of the stacks gives up after the requests of `needy`
/// stacks were gathered in `c`.
pub fn needy_stacks_failed<D, E>(c: &FetchCollection<D, E>, needy: usize) -> (r: bool)
    requires
        c.not_ready@.len() <= needy,
    ensures
        r == fetching_failed(c.documents@.len(), c.failed@.len(), needy as nat, c.not_ready@.len()),
{
    c.documents.len() == 0 && c.failed.len() > 0 && c.failed.len() >= needy - c.not_ready.len()
}

/// A document of a stack as the update of the stacks reads it: the stack it
/// belongs to and what de-duplication reads of it.
pub struct StackedDocument<D> {
    /// The stack the document belongs to.
    pub stack_id: StackId,
    /// What de-duplication reads of the document.
    pub key: DedupKey,
    /// The document.
    pub document: D,
}

/// The documents of the stacks, one stack after the other.
pub open spec fn flattened<D>(stacks: Seq<(StackId, Vec<StackedDocument<D>>)>) -> Seq<StackedDocument<D>>
    decreases stacks.len(),
{
    if stacks.len() == 0 {
        Seq::empty()
    } else {
        flattened(stacks.drop_last()) + stacks.last().1@
    }
}

/// What de-duplication reads of each document.
pub open spec fn keys_of<D>(docs: Seq<StackedDocument<D>>) -> Seq<DedupKey> {
    docs.map_values(|d: StackedDocument<D>| d.key)
}

/// The stack of each document.
pub open spec fn stack_ids_of<D>(docs: Seq<StackedDocument<D>>) -> Seq<StackId> {
    docs.map_values(|d: StackedDocument<D>| d.stack_id)
}

/// For each document, whether it belongs to the exploration stack.
pub open spec fn exploration_mask<D>(docs: Seq<StackedDocument<D>>) -> Seq<bool> {
    docs.map_values(|d: StackedDocument<D>| d.stack_id.0 == EXPLORATION_STACK)
}

/// The groups hold the documents of `docs` by stack: one group per stack,
/// each with the documents of its stack in order, and a group for every
/// stack of a document.
pub open spec fn grouped<D>(groups: Seq<(StackId, Vec<StackedDocument<D>>)>, docs: Seq<StackedDocument<D>>) -> bool {
    &&& forall|a: int, b: int| 0 <= a < groups.len() && 0 <= b < groups.len() && a != b ==> groups[a].0 != groups[b].0
    &&& forall|j: int| 0 <= j < groups.len() ==> (#[trigger] groups[j]).1@ == masked(docs, stack_mask(stack_ids_of(docs), groups[j].0))
    &&& forall|i: int| 0 <= i < docs.len() ==> has_group(groups, #[trigger] stack_ids_of(docs)[i])
    &&& forall|j: int| 0 <= j < groups.len() ==> stack_ids_of(docs).contains((#[trigger] groups[j]).0)
}

/// The outcome of merging the documents `all`: the kept ones are those at
/// `idx` (see [`kept`], with no stack documents to compare with), in
/// increasing order of their URLs; `expl` holds those of the exploration
/// stack and `groups` the others, grouped by stack.
pub open spec fn merged_outcome<D>(
    history: Seq<HistoryKey>,
    all: Seq<StackedDocument<D>>,
    idx: Seq<usize>,
    groups: Seq<(StackId, Vec<StackedDocument<D>>)>,
    expl: Seq<StackedDocument<D>>,
) -> bool {
    let kept_docs = idx.map_values(|i: usize| all[i as int]);
    &&& sorted_by_url(keys_of(all), idx)
    &&& forall|i: usize| i < all.len() ==> (idx.contains(i) <==> kept(history, Seq::empty(), keys_of(all), i as int))
    &&& expl == masked(kept_docs, exploration_mask(kept_docs))
    &&& grouped(groups, masked(kept_docs, negated(exploration_mask(kept_docs))))
}

/// After the requests of the `needy` stacks, gathered in `fetched`, gives up
/// with their errors when [`fetching_failed`], leaving the stacks as they
/// are. Otherwise takes all documents out of the stacks and the exploration
/// stack, de-duplicates the new documents together with them (against each
/// other and the history; see [`kept`]), and hands back the kept documents
/// of the exploration stack and those of the other stacks grouped by stack.
pub fn merge_fetched<D, E>(
    fetched: FetchCollection<StackedDocument<D>, E>,
    needy: usize,
    stacks: &mut Vec<(StackId, Vec<StackedDocument<D>>)>,
    exploration: &mut Vec<StackedDocument<D>>,
    history: &[HistoryKey],
) -> (r: Result<(Vec<(StackId, Vec<StackedDocument<D>>)>, Vec<StackedDocument<D>>), Vec<E>>)
    requires
        fetched.not_ready@.len() <= needy,
        fetched.documents@.len() + flattened(old(stacks)@).len() + old(exploration)@.len() <= usize::MAX,
    ensures
        r is Err <==> fetching_failed(fetched.documents@.len(), fetched.failed@.len(), needy as nat, fetched.not_ready@.len()),
        r matches Err(e) ==> e@ == fetched.errors@ && *final(stacks) == *old(stacks) && *final(exploration) == *old(exploration),
        r is Ok ==> final(exploration)@.len() == 0 && final(stacks)@.len() == old(stacks)@.len()
            && forall|j: int| 0 <= j < old(stacks)@.len() ==> (#[trigger] final(stacks)@[j]).0 == old(stacks)@[j].0
                && final(stacks)@[j].1@.len() == 0,
        r matches Ok((groups, expl)) ==> exists|idx: Seq<usize>| #[trigger] merged_outcome(
            history@,
            fetched.documents@ + flattened(old(stacks)@) + old(exploration)@,
            idx,
            groups@,
            expl@,
        ),
{
    let ghost fd = fetched.documents@;
    if needy_stacks_failed(&fetched, needy) {
        return Err(fetched.errors);
    }
    let ghost old_stacks = stacks@;
    let ghost old_expl = exploration@;
    let mut all = fetched.documents;
    let ghost new_docs = all@;

    // take the documents out of the stacks, one stack after the other
    let mut taken: Vec<(StackId, Vec<StackedDocument<D>>)> = Vec::new();
    std::mem::swap(&mut taken, stacks);
    let mut emptied: Vec<(StackId, Vec<StackedDocument<D>>)> = Vec::new();
    let n = taken.len();
    let mut k: usize = 0;
    proof {
        assert(old_stacks.subrange(0, 0) =~= Seq::<(StackId, Vec<StackedDocument<D>>)>::empty());
        assert(new_docs + flattened(old_stacks.subrange(0, 0)) =~= new_docs);
        assert(taken@ =~= old_stacks.subrange(0, n as int));
    }
    while k < n
        invariant
            n == old_stacks.len(),
            k <= n,
            taken@ == old_stacks.subrange(k as int, n as int),
            all@ == new_docs + flattened(old_stacks.subrange(0, k as int)),
            new_docs.len() + flattened(old_stacks).len() + old_expl.len() <= usize::MAX,
            emptied@.len() == k,
            forall|j: int| 0 <= j < k ==> (#[trigger] emptied@[j]).0 == old_stacks[j].0 && emptied@[j].1@.len() == 0,
        decreases n - k,
    {
        let ghost before = taken@;
        let (id, mut docs) = taken.remove(0);
        proof {
            assert(before[0] == old_stacks[k as int]);
            assert(taken@ =~= old_stacks.subrange(k + 1, n as int));
            assert(old_stacks.subrange(0, k + 1).drop_last() =~= old_stacks.subrange(0, k as int));
            lemma_flattened_prefix_len(old_stacks, (k + 1) as nat);
        }
        let ghost prev = all@;
        all.append(&mut docs);
        proof {
            assert(all@ =~= new_docs + flattened(old_stacks.subrange(0, k + 1)));
        }
        emptied.push((id, Vec::new()));
        k = k + 1;
    }
    *stacks = emptied;
    proof {
        assert(old_stacks.subrange(0, n as int) =~= old_stacks);
    }
    let mut expl_docs: Vec<StackedDocument<D>> = Vec::new();
    std::mem::swap(&mut expl_docs, exploration);
    all.append(&mut expl_docs);
    let ghost merged = all@;
    proof {
        assert(merged =~= new_docs + flattened(old_stacks) + old_expl);
    }

    // de-duplicate all of them
    let mut keys: Vec<DedupKey> = Vec::new();
    let mut i: usize = 0;
    while i < all.len()
        invariant
            all@ == merged,
            i <= merged.len(),
            keys@.len() == i,
            forall|m: int| 0 <= m < i ==> #[trigger] keys@[m] == merged[m].key,
        decreases merged.len() - i,
    {
        let key = DedupKey { title: all[i].key.title.clone(), rank: all[i].key.rank, url: all[i].key.url.clone() };
        keys.push(key);
        i = i + 1;
    }
    proof {
        assert(keys@ =~= keys_of(merged));
    }
    let no_stack: Vec<DedupKey> = Vec::new();
    let idx = duplicate_filter_indices(history, no_stack.as_slice(), keys.as_slice());
    proof {
        assert(no_stack@ =~= Seq::<DedupKey>::empty());
    }
    let kept_docs = select_by_indices(all, &idx);
    let ghost kd = kept_docs@;

    // split off the exploration stack and group the others by stack
    let mut mask: Vec<bool> = Vec::new();
    let mut j: usize = 0;
    while j < kept_docs.len()
        invariant
            kept_docs@ == kd,
            j <= kd.len(),
            mask@.len() == j,
            forall|m: int| 0 <= m < j ==> #[trigger] mask@[m] == (kd[m].stack_id.0 == EXPLORATION_STACK),
        decreases kd.len() - j,
    {
        mask.push(kept_docs[j].stack_id.0 == EXPLORATION_STACK);
        j = j + 1;
    }
    proof {
        assert(mask@ =~= exploration_mask(kd));
    }
    let (expl, others) = partition_by_mask(kept_docs, mask.as_slice());
    let ghost od = others@;
    let mut ids: Vec<StackId> = Vec::new();
    let mut m: usize = 0;
    while m < others.len()
        invariant
            others@ == od,
            m <= od.len(),
            ids@.len() == m,
            forall|x: int| 0 <= x < m ==> #[trigger] ids@[x] == od[x].stack_id,
        decreases od.len() - m,
    {
        ids.push(others[m].stack_id);
        m = m + 1;
    }
    proof {
        assert(ids@ =~= stack_ids_of(od));
    }
    let groups = group_by_stack(others, ids.as_slice());
    proof {
        let all_s = merged;
        assert(kd == idx@.map_values(|i: usize| all_s[i as int]));
        assert(grouped(groups@, od));
        assert(merged_outcome(history@, merged, idx@, groups@, expl@));
        assert(fd == new_docs);
        assert(merged == fd + flattened(old(stacks)@) + old(exploration)@);
        assert(merged_outcome(history@, fd + flattened(old(stacks)@) + old(exploration)@, idx@, groups@, expl@));
    }
    let r = Ok((groups, expl));
    proof {
        assert(r matches Ok((g, e)) ==> merged_outcome(history@, fd + flattened(old(stacks)@) + old(exploration)@, idx@, g@, e@));
    }
    r
}

/// After the stacks are merged, no two kept documents, whichever stacks
/// they go to, share a URL or a normalized title, and none shares its URL
/// with a history document.
pub proof fn lemma_merged_unique<D>(
    history: Seq<HistoryKey>,
    all: Seq<StackedDocument<D>>,
    idx: Seq<usize>,
    groups: Seq<(StackId, Vec<StackedDocument<D>>)>,
    expl: Seq<StackedDocument<D>>,
    a: int,
    b: int,
)
    requires
        merged_outcome(history, all, idx, groups, expl),
        0 <= a < idx.len(),
        0 <= b < idx.len(),
        a != b,
    ensures
        all[idx[a] as int].key.url@ != all[idx[b] as int].key.url@,
        normalized(all[idx[a] as int].key.title@) != normalized(all[idx[b] as int].key.title@),
        forall|k: int| 0 <= k < history.len() ==> (#[trigger] history[k].url@) != all[idx[a] as int].key.url@,
{
    let keys = keys_of(all);
    let i = idx[a];
    let j = idx[b];
    assert(i < all.len() && j < all.len());
    assert(idx.contains(i));
    assert(idx.contains(j));
    assert(i != j) by {
        if a < b {
            crate::expression::lemma_str_order(keys[i as int].url@, keys[j as int].url@);
        } else {
            crate::expression::lemma_str_order(keys[j as int].url@, keys[i as int].url@);
        }
    }
    lemma_kept_unique(history, Seq::empty(), keys, i as int, j as int);
    assert(keys[i as int] == all[i as int].key);
    assert(keys[j as int] == all[j as int].key);
}

/// Documents that share no URL and no normalized title with each other,
/// and are new to the history.
pub open spec fn distinct_and_new<D>(history: Seq<HistoryKey>, held: Seq<StackedDocument<D>>) -> bool {
    &&& forall|a: int, b: int| 0 <= a < held.len() && 0 <= b < held.len() && a != b
        ==> (#[trigger] held[a]).key.url@ != (#[trigger] held[b]).key.url@
            && normalized(held[a].key.title@) != normalized(held[b].key.title@)
    &&& forall|i: int| 0 <= i < held.len() ==> new_to_history(history, keys_of(held), i)
}

/// Fetching again a document that the stacks already hold adds none: when
/// the stacks hold documents that are distinct and new to the history, and
/// the one fetched document has the URL and the normalized title of one of
/// them, the merged stacks hold as many documents as before (the fetched
/// one or the held one, whichever is better ranked, the fetched one on a
/// tie).
pub proof fn lemma_refetch_adds_nothing<D>(
    history: Seq<HistoryKey>,
    fetched: StackedDocument<D>,
    held: Seq<StackedDocument<D>>,
    m: int,
    idx: Seq<usize>,
    groups: Seq<(StackId, Vec<StackedDocument<D>>)>,
    expl: Seq<StackedDocument<D>>,
)
    requires
        distinct_and_new(history, held),
        0 <= m < held.len(),
        held.len() < usize::MAX,
        fetched.key.url@ == held[m].key.url@,
        normalized(fetched.key.title@) == normalized(held[m].key.title@),
        merged_outcome(history, seq![fetched] + held, idx, groups, expl),
    ensures
        idx.len() == held.len(),
{
    let all = seq![fetched] + held;
    let keys = keys_of(all);
    let n = all.len();
    assert(n == held.len() + 1);
    let mm = m + 1;
    assert(all[mm] == held[m]);
    assert(all[0] == fetched);
    let loser: int = if fetched.key.rank <= held[m].key.rank { mm } else { 0 };
    // which items are kept
    assert forall|i: int| 0 <= i < n implies (kept(history, Seq::empty(), keys, i) <==> i != loser) by {
        assert(keys[i] == all[i].key);
        assert(keys[0] == fetched.key);
        assert(keys[mm] == held[m].key);
        if i == 0 || i == mm {
            let other = if i == 0 { mm } else { 0 };
            assert(keys[other] == all[other].key);
            if i == loser {
                assert(!best_of_title(keys, i));
            } else {
                assert forall|j: int| 0 <= j < keys.len() && j != i && normalized(#[trigger] keys[j].title@) == normalized(keys[i].title@)
                    implies keys[i].rank < keys[j].rank || (keys[i].rank == keys[j].rank && i < j) by {
                    if j != other {
                        assert(keys[j] == all[j].key);
                        assert(all[j] == held[j - 1]);
                        assert(held[j - 1] != held[m] || j - 1 == m);
                        if j - 1 != m {
                            assert(normalized(held[j - 1].key.title@) != normalized(held[m].key.title@));
                        }
                    }
                }
                assert(best_of_title(keys, i));
                assert forall|j: int| 0 <= j < i && best_of_title(keys, j) implies (#[trigger] keys[j].url@) != keys[i].url@ by {
                    if j == other {
                        assert(!best_of_title(keys, other));
                    } else {
                        assert(keys[j] == all[j].key);
                        assert(all[j] == held[j - 1]);
                        assert(held[j - 1].key.url@ != held[m].key.url@);
                    }
                }
                assert(first_of_url(keys, i));
                assert(new_to_history(history, keys, i)) by {
                    assert(new_to_history(history, keys_of(held), m));
                    assert(keys_of(held)[m] == held[m].key);
                }
            }
        } else {
            let a = i - 1;
            assert(all[i] == held[a]);
            assert forall|j: int| 0 <= j < keys.len() && j != i && normalized(#[trigger] keys[j].title@) == normalized(keys[i].title@)
                implies keys[i].rank < keys[j].rank || (keys[i].rank == keys[j].rank && i < j) by {
                assert(keys[j] == all[j].key);
                if j == 0 {
                    assert(normalized(held[m].key.title@) != normalized(held[a].key.title@));
                } else {
                    assert(all[j] == held[j - 1]);
                    assert(normalized(held[j - 1].key.title@) != normalized(held[a].key.title@));
                }
            }
            assert forall|j: int| 0 <= j < i && best_of_title(keys, j) implies (#[trigger] keys[j].url@) != keys[i].url@ by {
                assert(keys[j] == all[j].key);
                if j == 0 {
                    assert(held[m].key.url@ != held[a].key.url@);
                } else {
                    assert(all[j] == held[j - 1]);
                    assert(held[j - 1].key.url@ != held[a].key.url@);
                }
            }
            assert(new_to_history(history, keys, i)) by {
                assert(new_to_history(history, keys_of(held), a));
                assert(keys_of(held)[a] == held[a].key);
            }
        }
    }
    // the kept indices are those below `n` but the loser's
    assert(idx.no_duplicates()) by {
        assert forall|a: int, b: int| 0 <= a < idx.len() && 0 <= b < idx.len() && a != b implies idx[a] != idx[b] by {
            if a < b {
                crate::expression::lemma_str_order(keys[idx[a] as int].url@, keys[idx[b] as int].url@);
            } else {
                crate::expression::lemma_str_order(keys[idx[b] as int].url@, keys[idx[a] as int].url@);
            }
        }
    }
    let others = Seq::new((n - 1) as nat, |k: int| (if k < loser { k } else { k + 1 }) as usize);
    assert forall|k: int| 0 <= k < others.len() implies (#[trigger] others[k]) as int == (if k < loser { k } else { k + 1 }) by {}
    assert(others.no_duplicates()) by {
        assert forall|a: int, b: int| 0 <= a < others.len() && 0 <= b < others.len() && a != b implies others[a] != others[b] by {
            assert(others[a] as int == (if a < loser { a } else { a + 1 }));
            assert(others[b] as int == (if b < loser { b } else { b + 1 }));
        }
    }
    assert(idx.to_set() =~= others.to_set()) by {
        assert forall|x: usize| idx.to_set().contains(x) <==> others.to_set().contains(x) by {
            if idx.contains(x) {
                let k = choose|k: int| 0 <= k < idx.len() && idx[k] == x;
                assert(x < n);
                assert(x != loser);
                let p: int = if (x as int) < loser { x as int } else { x as int - 1 };
                assert(others[p] == x);
            }
            if others.contains(x) {
                let p = choose|p: int| 0 <= p < others.len() && others[p] == x;
                assert(x as int == (if p < loser { p } else { p + 1 }));
                assert(x < n && x != loser);
                assert(kept(history, Seq::empty(), keys, x as int));
            }
        }
    }
    idx.unique_seq_to_set();
    others.unique_seq_to_set();
}

/// The documents kept by a merge are distinct and new to the history, so
/// that a later merge that fetches one of them again adds nothing (see
/// [`lemma_refetch_adds_nothing`]).
pub proof fn lemma_merged_distinct_and_new<D>(
    history: Seq<HistoryKey>,
    all: Seq<StackedDocument<D>>,
    idx: Seq<usize>,
    groups: Seq<(StackId, Vec<StackedDocument<D>>)>,
    expl: Seq<StackedDocument<D>>,
)
    requires
        merged_outcome(history, all, idx, groups, expl),
    ensures
        distinct_and_new(history, idx.map_values(|i: usize| all[i as int])),
{
    let kd = idx.map_values(|i: usize| all[i as int]);
    assert forall|a: int, b: int| 0 <= a < kd.len() && 0 <= b < kd.len() && a != b
        implies (#[trigger] kd[a]).key.url@ != (#[trigger] kd[b]).key.url@
            && normalized(kd[a].key.title@) != normalized(kd[b].key.title@) by {
        lemma_merged_unique(history, all, idx, groups, expl, a, b);
    }
    assert forall|i: int| 0 <= i < kd.len() implies new_to_history(history, keys_of(kd), i) by {
        let x = idx[i];
        assert(idx.contains(x));
        assert(x < all.len());
        assert(kept(history, Seq::empty(), keys_of(all), x as int));
        assert(keys_of(kd)[i] == keys_of(all)[x as int]);
    }
}

/// The documents of the first `k` stacks are as many as their lengths add
/// up to, and no more than those of all stacks.
proof fn lemma_flattened_prefix_len<D>(stacks: Seq<(StackId, Vec<StackedDocument<D>>)>, k: nat)
    requires
        k <= stacks.len(),
    ensures
        flattened(stacks.subrange(0, k as int)).len() <= flattened(stacks).len(),
    decreases stacks.len(),
{
    if k < stacks.len() {
        lemma_flattened_prefix_len(stacks.drop_last(), k);
        assert(stacks.drop_last().subrange(0, k as int) =~= stacks.subrange(0, k as int));
    } else {
        assert(stacks.subrange(0, k as int) =~= stacks);
    }
}

/// Whether the update of the stacks failed as a whole: every stack and the
/// exploration stack failed.
pub fn all_stacks_failed(failed: usize, stacks: usize) -> (r: bool)
    ensures
        r == (failed >= stacks + 1),
{
    failed > stacks
}

/// Whether the key phrases of the user are needed: some needy stack works
/// with them.
pub fn key_phrases_needed(needy: &[bool], uses_key_phrases: &[bool]) -> (r: bool)
    requires
        needy@.len() == uses_key_phrases@.len(),
    ensures
        r == exists|i: int| 0 <= i < needy@.len() && #[trigger] needy@[i] && uses_key_phrases@[i],
{
    let mut i: usize = 0;
    while i < needy.len()
        invariant
            i <= needy@.len(),
            needy@.len() == uses_key_phrases@.len(),
            forall|k: int| 0 <= k < i ==> !(#[trigger] needy@[k] && uses_key_phrases@[k]),
        decreases needy@.len() - i,
    {
        if needy[i] && uses_key_phrases[i] {
            return true;
        }
        i = i + 1;
    }
    false
}

/// Where the relevance update of a reaction goes.
#[derive(Clone, Copy, Debug, PartialEq, Eq, Structural)]
pub enum RelevanceTarget {
    /// The stack with this id.
    Stack(StackId),
    /// The exploration stack.
    Exploration,
}

/// A document names a stack the engine does not have.
#[derive(Clone, Copy, Debug, PartialEq, Eq, Structural)]
pub struct InvalidStackId(pub StackId);

/// Where the relevance update for a reaction to a document of the stack
/// `document_stack` goes: nowhere for documents of no stack, to the stack
/// among `stacks` that has the id, else to the exploration stack if it is
/// its id; any other id is refused.
pub fn relevance_target(document_stack: StackId, stacks: &[StackId]) -> (r: Result<Option<RelevanceTarget>, InvalidStackId>)
    ensures
        document_stack.0 == 0 ==> r == Ok::<Option<RelevanceTarget>, InvalidStackId>(None),
        document_stack.0 != 0 && stacks@.contains(document_stack)
            ==> r == Ok::<Option<RelevanceTarget>, InvalidStackId>(Some(RelevanceTarget::Stack(document_stack))),
        document_stack.0 != 0 && !stacks@.contains(document_stack) && document_stack.0 == crate::stack::EXPLORATION_STACK
            ==> r == Ok::<Option<RelevanceTarget>, InvalidStackId>(Some(RelevanceTarget::Exploration)),
        document_stack.0 != 0 && !stacks@.contains(document_stack) && document_stack.0 != crate::stack::EXPLORATION_STACK
            ==> r == Err::<Option<RelevanceTarget>, InvalidStackId>(InvalidStackId(document_stack)),
{
    if document_stack.is_nil() {
        return Ok(None);
    }
    let mut i: usize = 0;
    while i < stacks.len()
        invariant
            i <= stacks@.len(),
            document_stack.0 != 0,
            forall|k: int| 0 <= k < i ==> (#[trigger] stacks@[k]) != document_stack,
        decreases stacks@.len() - i,
    {
        if stacks[i].0 == document_stack.0 {
            proof {
                assert(stacks@[i as int] == document_stack);
            }
            return Ok(Some(RelevanceTarget::Stack(document_stack)));
        }
        i = i + 1;
    }
    if document_stack.0 == crate::stack::EXPLORATION_STACK {
        Ok(Some(RelevanceTarget::Exploration))
    } else {
        Err(InvalidStackId(document_stack))
    }
}

/// The reaction to the source of a document that a reaction to the document
/// makes: liked, disliked, or none for a neutral reaction.
pub fn source_reaction_of(reaction: UserReaction) -> (r: Option<bool>)
    ensures
        r == (match reaction {
            UserReaction::Positive => Some(true),
            UserReaction::Negative => Some(false),
            UserReaction::Neutral => None::<bool>,
        }),
{
    match reaction {
        UserReaction::Positive => Some(true),
        UserReaction::Negative => Some(false),
        UserReaction::Neutral => None,
    }
}

/// Whether a reaction makes the engine update its stacks at once.
pub fn reaction_updates_stacks(reaction: UserReaction) -> (r: bool)
    ensures
        r == (reaction == UserReaction::Positive),
{
    match reaction {
        UserReaction::Positive => true,
        _ => false,
    }
}

/// What a reaction to a source does to the stored reaction of that source.
#[derive(Clone, Copy, Debug, PartialEq, Eq, Structural)]
pub enum SourceReactionStep {
    /// Store a new reaction with this weight.
    Create { weight: i32, liked: bool },
    /// The same reaction again: the weight of a liked source grows by one.
    Reinforce,
    /// The opposite reaction: forget the stored one.
    Remove,
}

/// The step for a reaction `liked` to a source whose stored reaction is
/// `stored`.
pub fn source_reaction_step(stored: Option<bool>, liked: bool) -> (r: SourceReactionStep)
    ensures
        stored is None ==> r == (SourceReactionStep::Create { weight: if liked { 1i32 } else { -1i32 }, liked }),
        stored == Some(liked) ==> r == SourceReactionStep::Reinforce,
        stored == Some(!liked) ==> r == SourceReactionStep::Remove,
{
    match stored {
        None => SourceReactionStep::Create { weight: if liked { 1 } else { -1 }, liked },
        Some(reaction) => {
            if reaction == liked {
                SourceReactionStep::Reinforce
            } else {
                SourceReactionStep::Remove
            }
        },
    }
}

/// Why a search term is refused.
#[derive(Debug)]
pub enum SearchTermError {
    /// Nothing is left of the term once it is cleaned.
    InvalidTerm,
    /// A pattern of the cleaning did not compile.
    Pattern(regex::Error),
}

/// The term a search by query searches for: the query cleaned from symbols
/// and extra spaces, refused when nothing is left of it.
pub fn search_query_term(query: &str) -> (r: Result<String, SearchTermError>)
    ensures
        match cleaned_query(query@) {
            Some(c) => if trimmed(c).len() > 0 {
                r matches Ok(t) && t@ == c
            } else {
                r matches Err(SearchTermError::InvalidTerm)
            },
            None => r matches Err(SearchTermError::Pattern(_)),
        },
{
    match clean_query(query) {
        Ok(cleaned) => {
            let t = trim(cleaned.as_str());
            if t.unicode_len() == 0 {
                Err(SearchTermError::InvalidTerm)
            } else {
                Ok(cleaned)
            }
        },
        Err(e) => Err(SearchTermError::Pattern(e)),
    }
}

/// Whether a topic can be searched for: something is left of it once it is
/// trimmed.
pub fn topic_is_valid(topic: &str) -> (r: bool)
    ensures
        r == (trimmed(topic@).len() > 0),
{
    trim(topic).unicode_len() > 0
}

/// The page size asked of each market so that all markets together fill a
/// page of `page_size` documents.
pub fn scaled_page_size(page_size: usize, markets: usize) -> (r: usize)
    requires
        markets > 0,
        page_size / markets < usize::MAX,
    ensures
        r == page_size / markets + 1,
{
    page_size / markets + 1
}

/// The answer of a search: its errors if no document came and something
/// failed, else at most `page_size` of its documents.
pub fn search_outcome<D, E>(documents: Vec<D>, errors: Vec<E>, page_size: usize) -> (r: Result<Vec<D>, Vec<E>>)
    ensures
        documents@.len() == 0 && errors@.len() > 0 ==> (r matches Err(e) && e@ == errors@),
        !(documents@.len() == 0 && errors@.len() > 0) ==> (r matches Ok(d) && d@ == documents@.take(
            if documents@.len() < page_size { documents@.len() as int } else { page_size as int },
        )),
{
    if documents.len() == 0 && errors.len() > 0 {
        Err(errors)
    } else {
        let ghost all = documents@;
        let mut documents = documents;
        documents.truncate(page_size);
        proof {
            assert(documents@ =~= all.take(
                if all.len() < page_size { all.len() as int } else { page_size as int },
            ));
        }
        Ok(documents)
    }
}

/// The answer of a batch of requests: its errors if no item came and
/// something failed, else its items.
pub fn batch_outcome<D, E>(items: Vec<D>, errors: Vec<E>) -> (r: Result<Vec<D>, Vec<E>>)
    ensures
        items@.len() == 0 && errors@.len() > 0 ==> (r matches Err(e) && e@ == errors@),
        !(items@.len() == 0 && errors@.len() > 0) ==> (r matches Ok(d) && d@ == items@),
{
    if items.len() == 0 && errors.len() > 0 {
        Err(errors)
    } else {
        Ok(items)
    }
}

/// The number of the page a search fetches next.
pub fn next_page_number(paging: &Paging) -> (r: u32)
    requires
        paging.next_page < u32::MAX,
    ensures
        r == paging.next_page + 1,
{
    paging.next_page + 1
}

/// Whether two markets are the same.
pub open spec fn same_market(a: Market, b: Market) -> bool {
    a.lang_code@ == b.lang_code@ && a.country_code@ == b.country_code@
}

/// Whether `m` is among `markets`.
pub fn has_market(markets: &[Market], m: &Market) -> (r: bool)
    ensures
        r == exists|i: int| 0 <= i < markets@.len() && same_market(#[trigger] markets@[i], *m),
{
    let mut i: usize = 0;
    while i < markets.len()
        invariant
            i <= markets@.len(),
            forall|k: int| 0 <= k < i ==> !same_market(#[trigger] markets@[k], *m),
        decreases markets@.len() - i,
    {
        if str_equal(markets[i].lang_code.as_str(), m.lang_code.as_str())
            && str_equal(markets[i].country_code.as_str(), m.country_code.as_str()) {
            return true;
        }
        i = i + 1;
    }
    false
}

/// For each old market, whether it is no longer among the new ones.
pub open spec fn dropped_mask(old_markets: Seq<Market>, new_markets: Seq<Market>) -> Seq<bool> {
    old_markets.map_values(|m: Market| !exists|i: int| 0 <= i < new_markets.len() && same_market(#[trigger] new_markets[i], m))
}

/// The old markets that are not among the new ones, in order.
pub fn dropped_markets(old_markets: Vec<Market>, new_markets: &[Market]) -> (r: Vec<Market>)
    ensures
        r@ == masked(old_markets@, dropped_mask(old_markets@, new_markets@)),
{
    let mut keep: Vec<bool> = Vec::new();
    let mut i: usize = 0;
    while i < old_markets.len()
        invariant
            i <= old_markets@.len(),
            keep@.len() == i,
            forall|k: int| 0 <= k < i ==> #[trigger] keep@[k] == dropped_mask(old_markets@, new_markets@)[k],
        decreases old_markets@.len() - i,
    {
        let gone = !has_market(new_markets, &old_markets[i]);
        keep.push(gone);
        i = i + 1;
    }
    proof {
        assert(keep@ =~= dropped_mask(old_markets@, new_markets@));
    }
    retain_by_mask(old_markets, &keep)
}

/// Whether the view time of a document counts towards the user's positive
/// interests: unless the user's last reaction to it was negative.
pub fn logs_view_time(last_reaction: Option<UserReaction>) -> (r: bool)
    ensures
        r == (last_reaction != Some(UserReaction::Negative)),
{
    match last_reaction {
        Some(UserReaction::Negative) => false,
        _ => true,
    }
}

/// The errors of the results, in order.
pub open spec fn err_values<A, E>(s: Seq<Result<A, E>>) -> Seq<E>
    decreases s.len(),
{
    if s.len() == 0 {
        Seq::empty()
    } else {
        match s.last() {
            Ok(_) => err_values(s.drop_last()),
            Err(e) => err_values(s.drop_last()).push(e),
        }
    }
}

/// Splits results into the values and the errors, each in order.
pub fn partition_results<A, E>(results: Vec<Result<A, E>>) -> (r: (Vec<A>, Vec<E>))
    ensures
        r.0@ == ok_values(results@),
        r.1@ == err_values(results@),
{
    let ghost all = results@;
    let n = results.len();
    let mut rev = reversed(results);
    let mut oks: Vec<A> = Vec::new();
    let mut errs: Vec<E> = Vec::new();
    let mut k: usize = 0;
    proof {
        assert(all.subrange(0, n as int).reverse() =~= rev@);
        assert(all.subrange(0, 0) =~= Seq::<Result<A, E>>::empty());
    }
    while k < n
        invariant
            n == all.len(),
            k <= n,
            rev@ == all.subrange(k as int, n as int).reverse(),
            oks@ == ok_values(all.subrange(0, k as int)),
            errs@ == err_values(all.subrange(0, k as int)),
        decreases n - k,
    {
        let ghost before = rev@;
        let x = rev.pop().unwrap();
        proof {
            assert(before.last() == all[k as int]);
            assert(rev@ =~= all.subrange(k + 1, n as int).reverse());
            assert(all.subrange(0, k + 1).drop_last() =~= all.subrange(0, k as int));
            assert(all.subrange(0, k + 1).last() == all[k as int]);
        }
        match x {
            Ok(a) => oks.push(a),
            Err(e) => errs.push(e),
        }
        k = k + 1;
    }
    proof {
        assert(all.subrange(0, n as int) =~= all);
    }
    (oks, errs)
}

/// Whether the request for stack `s` and market `m` is among `jobs`.
pub open spec fn has_job(jobs: Seq<(usize, usize)>, s: int, m: int) -> bool {
    jobs.contains((s as usize, m as usize))
}

/// The requests of an update: one for each needy stack and each market,
/// stack by stack, as pairs of the stack's and the market's index.
pub fn fetch_jobs(needy: &[bool], markets: usize) -> (r: Vec<(usize, usize)>)
    ensures
        forall|k: int| 0 <= k < r@.len() ==> needy@[(#[trigger] r@[k]).0 as int] && r@[k].0 < needy@.len() && r@[k].1 < markets,
        forall|s: int, m: int| 0 <= s < needy@.len() && 0 <= m < markets && needy@[s]
            ==> #[trigger] has_job(r@, s, m),
        forall|a: int, b: int| 0 <= a < b < r@.len() ==> (r@[a].0 < r@[b].0 || (r@[a].0 == r@[b].0 && r@[a].1 < r@[b].1)),
{
    let mut r: Vec<(usize, usize)> = Vec::new();
    let mut s: usize = 0;
    while s < needy.len()
        invariant
            s <= needy@.len(),
            forall|k: int| 0 <= k < r@.len() ==> needy@[(#[trigger] r@[k]).0 as int] && r@[k].0 < s && r@[k].1 < markets,
            forall|t: int, m: int| 0 <= t < s && 0 <= m < markets && needy@[t]
                ==> #[trigger] has_job(r@, t, m),
            forall|a: int, b: int| 0 <= a < b < r@.len() ==> (r@[a].0 < r@[b].0 || (r@[a].0 == r@[b].0 && r@[a].1 < r@[b].1)),
        decreases needy@.len() - s,
    {
        if needy[s] {
            let ghost start = r@;
            let mut m: usize = 0;
            while m < markets
                invariant
                    s < needy@.len(),
                    needy@[s as int],
                    m <= markets,
                    r@.len() == start.len() + m,
                    forall|k: int| 0 <= k < start.len() ==> r@[k] == start[k],
                    forall|k: int| 0 <= k < start.len() ==> (#[trigger] start[k]).0 < s,
                    forall|k: int| start.len() <= k < r@.len() ==> (#[trigger] r@[k]) == (s, (k - start.len()) as usize),
                    forall|k: int| 0 <= k < r@.len() ==> needy@[(#[trigger] r@[k]).0 as int] && r@[k].0 <= s && r@[k].1 < markets,
                    forall|a: int, b: int| 0 <= a < b < r@.len() ==> (r@[a].0 < r@[b].0 || (r@[a].0 == r@[b].0 && r@[a].1 < r@[b].1)),
                decreases markets - m,
            {
                let ghost before = r@;
                r.push((s, m));
                proof {
                    assert forall|a: int, b: int| 0 <= a < b < r@.len() implies (r@[a].0 < r@[b].0 || (r@[a].0 == r@[b].0 && r@[a].1 < r@[b].1)) by {
                        if b == before.len() {
                            if a < start.len() {
                                assert(r@[a] == start[a]);
                            } else {
                                assert(r@[a] == (s, (a - start.len()) as usize));
                            }
                        }
                    }
                }
                m = m + 1;
            }
            proof {
                assert forall|t: int, mm: int| 0 <= t < s + 1 && 0 <= mm < markets && needy@[t]
                    implies #[trigger] has_job(r@, t, mm) by {
                    if t < s {
                        assert(has_job(start, t, mm));
                        let k = choose|k: int| 0 <= k < start.len() && start[k] == (t as usize, mm as usize);
                        assert(r@[k] == start[k]);
                    } else {
                        assert(r@[start.len() + mm] == (s, mm as usize));
                    }
                }
            }
        }
        s = s + 1;
    }
    r
}

} // verus!
