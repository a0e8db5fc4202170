//! Selecting documents: from the stacks of the feed by sampled relevance,
//! and for the exploration stack by randomization with a threshold.
//!
//! Scores are single precision floats computed outside this library; they
//! come in as their IEEE 754 bit patterns, and are compared here through an
//! order key of their bits.

use vstd::prelude::*;
use rand::seq::SliceRandom;
use crate::dedup::{masked, retain_by_mask};

verus! {

/// The bits of `bits` below the sign: exponent and mantissa.
pub open spec fn magnitude(bits: u32) -> u32 {
    (bits % 0x8000_0000) as u32
}

/// Whether the float with these bits is a NaN: all exponent bits set and a
/// nonzero mantissa.
pub open spec fn is_nan_bits(bits: u32) -> bool {
    magnitude(bits) > 0x7f80_0000
}

/// The order key of the float with these bits: keys compare as the floats
/// do (IEEE 754), the two zeros get the same key, and every NaN gets the
/// lowest key, 0.
pub open spec fn order_key(bits: u32) -> u32 {
    if is_nan_bits(bits) {
        0
    } else if bits < 0x8000_0000 {
        (0x8000_0000 + bits) as u32
    } else {
        (0x8000_0000 - magnitude(bits)) as u32
    }
}

/// Whether `a >= b` holds of the floats with these bits (false when either
/// is a NaN).
pub open spec fn float_at_least(a: u32, b: u32) -> bool {
    !is_nan_bits(a) && !is_nan_bits(b) && order_key(a) >= order_key(b)
}

/// The order key of the float with bits `bits`.
pub fn sample_order_key(bits: u32) -> (r: u32)
    ensures
        r == order_key(bits),
        r == 0 <==> is_nan_bits(bits),
{
    let magnitude = bits % 0x8000_0000;
    if magnitude > 0x7f80_0000 {
        0
    } else if bits < 0x8000_0000 {
        0x8000_0000 + bits
    } else {
        0x8000_0000 - magnitude
    }
}

/// Whether `a >= b` holds of the floats with these bits.
pub fn at_least(a: u32, b: u32) -> (r: bool)
    ensures
        r == float_at_least(a, b),
{
    let ka = sample_order_key(a);
    let kb = sample_order_key(b);
    ka != 0 && kb != 0 && ka >= kb
}

/// The bucket to pull from: among the buckets with a sample (the non-empty
/// ones), the first with the greatest sample key.
pub open spec fn is_pulled(keys: Seq<Option<u32>>, j: int) -> bool {
    &&& 0 <= j < keys.len()
    &&& keys[j] is Some
    &&& forall|i: int| 0 <= i < keys.len() && (#[trigger] keys[i]) is Some ==> keys[i].unwrap() <= keys[j].unwrap()
    &&& forall|i: int| 0 <= i < j && (#[trigger] keys[i]) is Some ==> keys[i].unwrap() < keys[j].unwrap()
}

/// Samples the next bucket: `keys` holds the order key of the sample of
/// each non-empty bucket and `None` for the empty ones.
pub fn pull_arms(keys: &[Option<u32>]) -> (r: Option<usize>)
    ensures
        r is None <==> forall|i: int| 0 <= i < keys@.len() ==> (#[trigger] keys@[i]) is None,
        r matches Some(j) ==> is_pulled(keys@, j as int),
{
    let mut best: Option<usize> = None;
    let mut i: usize = 0;
    while i < keys.len()
        invariant
            i <= keys@.len(),
            best is None <==> forall|k: int| 0 <= k < i ==> (#[trigger] keys@[k]) is None,
            best matches Some(j) ==> j < i && is_pulled(keys@.subrange(0, i as int), j as int),
        decreases keys@.len() - i,
    {
        let ghost pre = keys@.subrange(0, i as int);
        let ghost post = keys@.subrange(0, i + 1);
        proof {
            assert forall|k: int| 0 <= k < i implies pre[k] == post[k] && post[k] == keys@[k] by {}
            assert(post[i as int] == keys@[i as int]);
        }
        match keys[i] {
            Some(key) => match best {
                None => {
                    best = Some(i);
                    proof {
                        assert forall|k: int| 0 <= k < post.len() && (#[trigger] post[k]) is Some implies post[k].unwrap() <= post[i as int].unwrap() by {
                            if k < i {
                                assert(keys@[k] is None);
                            }
                        }
                    }
                },
                Some(j) => {
                    let current = keys[j].unwrap();
                    if key > current {
                        best = Some(i);
                        proof {
                            assert(pre[j as int] == keys@[j as int]);
                            assert forall|k: int| 0 <= k < post.len() && (#[trigger] post[k]) is Some implies post[k].unwrap() <= post[i as int].unwrap() by {
                                if k < i {
                                    assert(pre[k] is Some);
                                }
                            }
                            assert forall|k: int| 0 <= k < i && (#[trigger] post[k]) is Some implies post[k].unwrap() < post[i as int].unwrap() by {
                                assert(pre[k] is Some);
                            }
                        }
                    } else {
                        proof {
                            assert(pre[j as int] == keys@[j as int]);
                            assert forall|k: int| 0 <= k < post.len() && (#[trigger] post[k]) is Some implies post[k].unwrap() <= post[j as int].unwrap() by {
                                if k < i {
                                    assert(pre[k] is Some);
                                }
                            }
                            assert forall|k: int| 0 <= k < j && (#[trigger] post[k]) is Some implies post[k].unwrap() < post[j as int].unwrap() by {
                                assert(pre[k] is Some);
                            }
                        }
                    }
                },
            },
            None => {
                proof {
                    if let Some(j) = best {
                        assert(pre[j as int] == post[j as int]);
                        assert forall|k: int| 0 <= k < post.len() && (#[trigger] post[k]) is Some implies post[k].unwrap() <= post[j as int].unwrap() by {
                            if k < i {
                                assert(pre[k] is Some);
                            }
                        }
                        assert forall|k: int| 0 <= k < j && (#[trigger] post[k]) is Some implies post[k].unwrap() < post[j as int].unwrap() by {
                            assert(pre[k] is Some);
                        }
                    }
                }
            },
        }
        i = i + 1;
    }
    proof {
        assert(keys@.subrange(0, keys@.len() as int) =~= keys@);
    }
    best
}

/// Selects documents from buckets: each step pulls the bucket with the best
/// sample and takes its last (best) document.
pub struct SelectionIter<T> {
    buckets: Vec<Vec<T>>,
}

/// The sample key of each bucket: the given key for a non-empty bucket,
/// none for an empty one.
pub open spec fn bucket_keys<T>(buckets: Seq<Seq<T>>, samples: Seq<u32>) -> Seq<Option<u32>> {
    Seq::new(buckets.len(), |i: int| if buckets[i].len() > 0 { Some(samples[i]) } else { None })
}

impl<T> SelectionIter<T> {
    /// The documents of each bucket, best last.
    pub closed spec fn buckets(&self) -> Seq<Seq<T>> {
        self.buckets@.map_values(|b: Vec<T>| b@)
    }

    /// Creates a selection over these buckets.
    pub fn new(buckets: Vec<Vec<T>>) -> (r: Self)
        ensures
            r.buckets() == buckets@.map_values(|b: Vec<T>| b@),
    {
        SelectionIter { buckets }
    }

    /// For each bucket, whether it has documents left (and so needs a
    /// sample).
    pub fn non_empty(&self) -> (r: Vec<bool>)
        ensures
            r@.len() == self.buckets().len(),
            forall|i: int| 0 <= i < r@.len() ==> #[trigger] r@[i] == (self.buckets()[i].len() > 0),
    {
        let mut r: Vec<bool> = Vec::new();
        let mut i: usize = 0;
        while i < self.buckets.len()
            invariant
                i <= self.buckets@.len(),
                r@.len() == i,
                forall|k: int| 0 <= k < i ==> #[trigger] r@[k] == (self.buckets()[k].len() > 0),
            decreases self.buckets@.len() - i,
        {
            r.push(self.buckets[i].len() > 0);
            i = i + 1;
        }
        r
    }

    /// Takes the next document: `samples` holds the order key of a sample
    /// for each bucket (those of empty buckets are ignored). `None` once all
    /// buckets are empty.
    pub fn next_with_samples(&mut self, samples: &[u32]) -> (r: Option<T>)
        requires
            samples@.len() == old(self).buckets().len(),
        ensures
            ({
                let keys = bucket_keys(old(self).buckets(), samples@);
                &&& (forall|i: int| 0 <= i < keys.len() ==> (#[trigger] keys[i]) is None) ==> r is None && final(self).buckets() == old(self).buckets()
                &&& (exists|i: int| 0 <= i < keys.len() && (#[trigger] keys[i]) is Some) ==> exists|j: int| is_pulled(keys, j)
                    && r == Some(old(self).buckets()[j].last())
                    && final(self).buckets() == old(self).buckets().update(j, old(self).buckets()[j].drop_last())
            }),
    {
        let ghost before = self.buckets();
        let mut keys: Vec<Option<u32>> = Vec::new();
        let mut i: usize = 0;
        while i < self.buckets.len()
            invariant
                i <= self.buckets@.len(),
                self.buckets() == before,
                samples@.len() == before.len(),
                keys@.len() == i,
                forall|k: int| 0 <= k < i ==> #[trigger] keys@[k] == bucket_keys(before, samples@)[k],
            decreases self.buckets@.len() - i,
        {
            if self.buckets[i].len() > 0 {
                keys.push(Some(samples[i]));
            } else {
                keys.push(None);
            }
            i = i + 1;
        }
        proof {
            assert(keys@ =~= bucket_keys(before, samples@));
        }
        match pull_arms(keys.as_slice()) {
            None => None,
            Some(j) => {
                let mut bucket = self.buckets.remove(j);
                let doc = bucket.pop();
                self.buckets.insert(j, bucket);
                proof {
                    assert(self.buckets() =~= before.update(j as int, before[j as int].drop_last()));
                }
                doc
            },
        }
    }
}

/// Whether `idx` lists each index below `n` once, sorted by the keys, equal
/// keys in the order of their indices.
pub open spec fn sorts_by_keys(keys: Seq<u32>, idx: Seq<usize>) -> bool {
    &&& idx.len() == keys.len()
    &&& idx.no_duplicates()
    &&& forall|k: int| 0 <= k < idx.len() ==> (#[trigger] idx[k]) < keys.len()
    &&& forall|a: int, b: int| 0 <= a < b < idx.len() ==> keys[idx[a] as int] <= keys[idx[b] as int]
    &&& forall|a: int, b: int| 0 <= a < b < idx.len() && keys[idx[a] as int] == keys[idx[b] as int] ==> idx[a] < idx[b]
}

/// The indices that sort `keys` in increasing order; equal keys keep the
/// order of their indices.
pub fn argsort(keys: &[u32]) -> (r: Vec<usize>)
    ensures
        sorts_by_keys(keys@, r@),
{
    let mut r: Vec<usize> = Vec::new();
    let mut i: usize = 0;
    while i < keys.len()
        invariant
            i <= keys@.len(),
            r@.len() == i,
            r@.no_duplicates(),
            forall|k: int| 0 <= k < r@.len() ==> (#[trigger] r@[k]) < i,
            forall|a: int, b: int| 0 <= a < b < r@.len() ==> keys@[r@[a] as int] <= keys@[r@[b] as int],
            forall|a: int, b: int| 0 <= a < b < r@.len() && keys@[r@[a] as int] == keys@[r@[b] as int] ==> r@[a] < r@[b],
        decreases keys@.len() - i,
    {
        let key = keys[i];
        let mut p: usize = 0;
        while p < r.len() && keys[r[p]] <= key
            invariant
                p <= r@.len(),
                forall|k: int| 0 <= k < r@.len() ==> (#[trigger] r@[k]) < i,
                i < keys@.len(),
                key == keys@[i as int],
                forall|k: int| 0 <= k < p ==> keys@[(#[trigger] r@[k]) as int] <= key,
            decreases r@.len() - p,
        {
            p = p + 1;
        }
        let ghost before = r@;
        r.insert(p, i);
        proof {
            assert forall|k: int| 0 <= k < r@.len() implies #[trigger] r@[k] == (if k < p { before[k] } else if k == p { i } else { before[k - 1] }) by {}
            assert forall|a: int, b: int| 0 <= a < b < r@.len() implies keys@[r@[a] as int] <= keys@[r@[b] as int] by {
                if b == p {
                    assert(keys@[before[a] as int] <= key);
                } else if a == p {
                    assert(keys@[before[p as int] as int] > key);
                    assert(keys@[before[p as int] as int] <= keys@[before[b - 1] as int] || p == b - 1);
                }
            }
            assert forall|a: int, b: int| 0 <= a < b < r@.len() && keys@[r@[a] as int] == keys@[r@[b] as int] implies r@[a] < r@[b] by {
                if b == p {
                    assert(before[a] < i);
                } else if a == p {
                    assert(keys@[before[p as int] as int] > key);
                    assert(keys@[before[p as int] as int] <= keys@[before[b - 1] as int] || p == b - 1);
                } else if a < p && b > p {
                    assert(r@[a] == before[a] && r@[b] == before[b - 1]);
                } else if b < p {
                    assert(r@[a] == before[a] && r@[b] == before[b]);
                } else {
                    assert(r@[a] == before[a - 1] && r@[b] == before[b - 1]);
                }
            }
            assert forall|a: int, b: int| 0 <= a < r@.len() && 0 <= b < r@.len() && a != b implies r@[a] != r@[b] by {
                if a == p {
                    assert(before[if b < p { b } else { b - 1 }] < i);
                } else if b == p {
                    assert(before[if a < p { a } else { a - 1 }] < i);
                }
            }
        }
        i = i + 1;
    }
    r
}

/// The initial candidates of the exploration stack and the threshold: with
/// `n` the smaller of `number` and the number of documents, the first `n`
/// documents when sorted by key (equal keys in the order of their indices),
/// in increasing order of index, and `Some(t)` with `t` the last of them in
/// that order; no threshold and no candidate when `n` is 0.
pub open spec fn candidates_spec(keys: Seq<u32>, number: nat, threshold: Option<usize>, candidates: Seq<usize>) -> bool {
    let n = if number < keys.len() { number } else { keys.len() };
    &&& candidates.len() == n
    &&& (n == 0 <==> threshold is None)
    &&& forall|a: int, b: int| 0 <= a < b < candidates.len() ==> candidates[a] < candidates[b]
    &&& forall|k: int| 0 <= k < candidates.len() ==> (#[trigger] candidates[k]) < keys.len()
    &&& threshold matches Some(t) ==> candidates.contains(t)
        && (forall|k: int| 0 <= k < candidates.len() ==> keys[(#[trigger] candidates[k]) as int] <= keys[t as int])
        && (forall|d: int| 0 <= d < keys.len() && !candidates.contains(d as usize) ==> keys[t as int] <= #[trigger] keys[d])
        && (forall|k: int| 0 <= k < candidates.len() && keys[(#[trigger] candidates[k]) as int] == keys[t as int] ==> candidates[k] <= t)
        && (forall|k: int, d: int| 0 <= k < candidates.len() && 0 <= d < keys.len() && !candidates.contains(d as usize)
            && keys[(#[trigger] candidates[k]) as int] == #[trigger] keys[d] ==> candidates[k] < d)
}

/// The indices in increasing order.
fn sorted_indices(idx: &[usize]) -> (r: Vec<usize>)
    requires
        idx@.no_duplicates(),
    ensures
        r@.len() == idx@.len(),
        forall|a: int, b: int| 0 <= a < b < r@.len() ==> r@[a] < r@[b],
        forall|x: usize| r@.contains(x) <==> idx@.contains(x),
{
    let mut r: Vec<usize> = Vec::new();
    let mut i: usize = 0;
    while i < idx.len()
        invariant
            i <= idx@.len(),
            idx@.no_duplicates(),
            r@.len() == i,
            forall|a: int, b: int| 0 <= a < b < r@.len() ==> r@[a] < r@[b],
            forall|x: usize| r@.contains(x) <==> idx@.subrange(0, i as int).contains(x),
        decreases idx@.len() - i,
    {
        let v = idx[i];
        let mut p: usize = 0;
        while p < r.len() && r[p] < v
            invariant
                p <= r@.len(),
                forall|k: int| 0 <= k < p ==> (#[trigger] r@[k]) < v,
            decreases r@.len() - p,
        {
            p = p + 1;
        }
        let ghost before = r@;
        proof {
            if p < before.len() {
                assert(before[p as int] != v) by {
                    assert(before.contains(before[p as int]));
                    assert(idx@.subrange(0, i as int).contains(before[p as int]));
                    let k = choose|k: int| 0 <= k < i && idx@.subrange(0, i as int)[k] == before[p as int];
                    assert(idx@[k] == before[p as int]);
                }
            }
        }
        r.insert(p, v);
        proof {
            assert forall|k: int| 0 <= k < r@.len() implies #[trigger] r@[k] == (if k < p { before[k] } else if k == p { v } else { before[k - 1] }) by {}
            assert forall|a: int, b: int| 0 <= a < b < r@.len() implies r@[a] < r@[b] by {
                if a == p && b > p {
                    assert(before[p as int] > v);
                    assert(before[p as int] <= before[b - 1]);
                }
            }
            let post = idx@.subrange(0, i + 1);
            let pre = idx@.subrange(0, i as int);
            assert forall|x: usize| r@.contains(x) <==> post.contains(x) by {
                if r@.contains(x) {
                    let k = choose|k: int| 0 <= k < r@.len() && r@[k] == x;
                    if k != p {
                        let k0 = if k < p { k } else { k - 1 };
                        assert(before[k0] == x);
                        assert(before.contains(x));
                        let m = choose|m: int| 0 <= m < pre.len() && pre[m] == x;
                        assert(post[m] == x);
                    } else {
                        assert(post[i as int] == x);
                    }
                }
                if post.contains(x) {
                    let m = choose|m: int| 0 <= m < post.len() && post[m] == x;
                    if m < i {
                        assert(pre[m] == x);
                        assert(before.contains(x));
                        let k = choose|k: int| 0 <= k < before.len() && before[k] == x;
                        let k1 = if k < p { k } else { k + 1 };
                        assert(r@[k1] == x);
                    } else {
                        assert(r@[p as int] == x);
                    }
                }
            }
        }
        i = i + 1;
    }
    proof {
        assert(idx@.subrange(0, idx@.len() as int) =~= idx@);
    }
    r
}

/// Determines the threshold and the initial candidates from the nearest
/// similarity of each document to the user's interests (as float bits).
pub fn select_initial_candidates(nearest: &[u32], number: usize) -> (r: (Option<usize>, Vec<usize>))
    ensures
        candidates_spec(nearest@.map_values(|b: u32| order_key(b)), number as nat, r.0, r.1@),
{
    let ghost keys_spec = nearest@.map_values(|b: u32| order_key(b));
    let n = if number < nearest.len() { number } else { nearest.len() };
    if n == 0 {
        return (None, Vec::new());
    }
    let mut keys: Vec<u32> = Vec::new();
    let mut i: usize = 0;
    while i < nearest.len()
        invariant
            i <= nearest@.len(),
            keys@.len() == i,
            forall|k: int| 0 <= k < i ==> #[trigger] keys@[k] == order_key(nearest@[k]),
        decreases nearest@.len() - i,
    {
        keys.push(sample_order_key(nearest[i]));
        i = i + 1;
    }
    proof {
        assert(keys@ =~= keys_spec);
    }
    let order = argsort(keys.as_slice());
    let threshold = order[n - 1];
    let mut first: Vec<usize> = Vec::new();
    let mut k: usize = 0;
    while k < n
        invariant
            k <= n,
            n <= order@.len(),
            first@ == order@.subrange(0, k as int),
        decreases n - k,
    {
        first.push(order[k]);
        proof {
            assert(first@ =~= order@.subrange(0, k + 1));
        }
        k = k + 1;
    }
    proof {
        let taken = order@.subrange(0, n as int);
        assert(taken.no_duplicates()) by {
            assert forall|a: int, b: int| 0 <= a < taken.len() && 0 <= b < taken.len() && a != b implies taken[a] != taken[b] by {
                assert(order@[a] != order@[b]);
            }
        }
    }
    let candidates = sorted_indices(first.as_slice());
    proof {
        let taken = order@.subrange(0, n as int);
        assert(taken[n - 1] == threshold);
        assert(candidates@.contains(threshold)) by {
            assert(taken.contains(threshold));
        }
        assert forall|c: int| 0 <= c < candidates@.len() implies (#[trigger] candidates@[c]) < keys_spec.len() by {
            assert(taken.contains(candidates@[c]));
            let m = choose|m: int| 0 <= m < taken.len() && taken[m] == candidates@[c];
            assert(order@[m] == candidates@[c]);
        }
        assert forall|c: int| 0 <= c < candidates@.len() implies keys_spec[(#[trigger] candidates@[c]) as int] <= keys_spec[threshold as int] by {
            assert(taken.contains(candidates@[c]));
            let m = choose|m: int| 0 <= m < taken.len() && taken[m] == candidates@[c];
            assert(order@[m] == candidates@[c]);
            if m < n - 1 {
                assert(keys@[order@[m] as int] <= keys@[order@[n - 1] as int]);
            }
        }
        assert forall|d: int| 0 <= d < keys_spec.len() && !candidates@.contains(d as usize) implies keys_spec[threshold as int] <= #[trigger] keys_spec[d] by {
            // every index appears in the order; outside the first n it sorts after the threshold
            assert(order@.len() == keys@.len());
            assert(keys@.len() <= usize::MAX);
            assert(order@.contains(d as usize)) by {
                lemma_permutation_contains(order@, keys@.len() as nat, d as usize);
            }
            let m = choose|m: int| 0 <= m < order@.len() && order@[m] == d as usize;
            if m < n {
                assert(taken[m] == d as usize);
                assert(taken.contains(d as usize));
                assert(first@.contains(d as usize));
            } else {
                assert(keys@[order@[n - 1] as int] <= keys@[order@[m] as int]);
            }
        }
        assert forall|c: int| 0 <= c < candidates@.len() && keys_spec[(#[trigger] candidates@[c]) as int] == keys_spec[threshold as int]
            implies candidates@[c] <= threshold by {
            assert(taken.contains(candidates@[c]));
            let m = choose|m: int| 0 <= m < taken.len() && taken[m] == candidates@[c];
            assert(order@[m] == candidates@[c]);
            if m < n - 1 {
                assert(keys@[order@[m] as int] == keys@[order@[n - 1] as int]);
            }
        }
        assert forall|c: int, d: int| 0 <= c < candidates@.len() && 0 <= d < keys_spec.len() && !candidates@.contains(d as usize)
            && keys_spec[(#[trigger] candidates@[c]) as int] == #[trigger] keys_spec[d] implies candidates@[c] < d by {
            assert(taken.contains(candidates@[c]));
            let mc = choose|m: int| 0 <= m < taken.len() && taken[m] == candidates@[c];
            assert(order@[mc] == candidates@[c]);
            assert(order@.contains(d as usize)) by {
                lemma_permutation_contains(order@, keys@.len() as nat, d as usize);
            }
            let md = choose|m: int| 0 <= m < order@.len() && order@[m] == d as usize;
            if md < n {
                assert(taken[md] == d as usize);
                assert(taken.contains(d as usize));
                assert(first@.contains(d as usize));
            } else {
                assert(mc < md);
                assert(keys@[order@[mc] as int] == keys@[order@[md] as int]);
            }
        }
    }
    (Some(threshold), candidates)
}

/// A list of `n` distinct indices below `n` holds every index below `n`.
proof fn lemma_permutation_contains(s: Seq<usize>, n: nat, x: usize)
    requires
        n <= usize::MAX,
        s.len() == n,
        s.no_duplicates(),
        forall|k: int| 0 <= k < s.len() ==> (#[trigger] s[k]) < n,
        x < n,
    ensures
        s.contains(x),
{
    if !s.contains(x) {
        // the n values of s lie in the n - 1 values below n other than x
        let ss = s.to_set();
        s.unique_seq_to_set();
        let others = Set::new(|v: usize| v < n && v != x);
        assert(ss.subset_of(others));
        lemma_bounded_set_len(n, x);
        vstd::set_lib::lemma_len_subset(ss, others);
    }
}

/// The indices below `n` other than `x` are `n - 1`.
proof fn lemma_bounded_set_len(n: nat, x: usize)
    requires
        n <= usize::MAX,
        x < n,
    ensures
        Set::new(|v: usize| v < n && v != x).finite(),
        Set::new(|v: usize| v < n && v != x).len() == n - 1,
    decreases n,
{
    let s = Set::new(|v: usize| v < n && v != x);
    if n == 1 {
        assert(s =~= Set::<usize>::empty());
    } else if x == n - 1 {
        lemma_range_len((n - 1) as nat);
        assert(s =~= Set::new(|v: usize| (v as int) < n - 1));
    } else {
        lemma_bounded_set_len((n - 1) as nat, x);
        let top = (n - 1) as usize;
        assert(top as int == n - 1);
        let smaller = Set::new(|v: usize| v < n - 1 && v != x);
        assert(s =~= smaller.insert(top));
    }
}

/// The indices below `n` are `n`.
proof fn lemma_range_len(n: nat)
    requires
        n <= usize::MAX,
    ensures
        Set::new(|v: usize| (v as int) < n).finite(),
        Set::new(|v: usize| (v as int) < n).len() == n,
    decreases n,
{
    let s = Set::new(|v: usize| (v as int) < n);
    if n == 0 {
        assert(s =~= Set::<usize>::empty());
    } else {
        lemma_range_len((n - 1) as nat);
        let top = (n - 1) as usize;
        assert(top as int == n - 1);
        let smaller = Set::new(|v: usize| (v as int) < n - 1);
        assert(s =~= smaller.insert(top));
    }
}

#[verifier::external_type_specification]
#[verifier::external_body]
pub struct ExStdRng(rand::rngs::StdRng);

/// Calls `SliceRandom::choose` of `rand` on the candidates, which picks one
/// of them uniformly at random. The contract claims only that the pick is
/// one of the candidates.
#[verifier::external_body]
fn choose_candidate(candidates: &[usize], rng: &mut rand::rngs::StdRng) -> (r: usize)
    requires
        candidates@.len() > 0,
    ensures
        candidates@.contains(r),
{
    *candidates.choose(rng).unwrap()
}

/// Whether `similarity` is a square matrix of float bits over `n` documents.
pub open spec fn square(similarity: Seq<Vec<u32>>) -> bool {
    forall|i: int| 0 <= i < similarity.len() ==> (#[trigger] similarity[i])@.len() == similarity.len()
}

/// Whether document `b` is at least as similar to document `a` as the
/// threshold.
pub open spec fn too_similar(similarity: Seq<Vec<u32>>, threshold: u32, a: usize, b: usize) -> bool {
    float_at_least(similarity[a as int]@[b as int], threshold)
}

/// What holds of every selection from the candidates: at most `max`
/// distinct candidates, none too similar to one selected before it, and,
/// unless `max` was reached, every candidate is selected or too similar to
/// a selected one.
pub open spec fn selection_spec(similarity: Seq<Vec<u32>>, threshold: u32, candidates: Seq<usize>, max: nat, selected: Seq<usize>) -> bool {
    &&& selected.len() <= max
    &&& selected.no_duplicates()
    &&& forall|k: int| 0 <= k < selected.len() ==> candidates.contains(#[trigger] selected[k])
    &&& forall|a: int, b: int| 0 <= a < b < selected.len() ==> !too_similar(similarity, threshold, selected[a], selected[b])
    &&& selected.len() < max ==> forall|c: usize| candidates.contains(c) ==> selected.contains(c)
        || exists|a: int| 0 <= a < selected.len() && too_similar(similarity, threshold, #[trigger] selected[a], c)
}

/// Selects documents at random among the candidates: picks one, drops the
/// candidates at least as similar to it as the threshold, and goes on until
/// no candidate is left or `max_selected` documents are selected. A picked
/// document leaves the candidates even when it is not similar enough to
/// itself. Returns the selected documents in the order they were picked.
pub fn select_by_randomization_with_threshold(
    similarity: &Vec<Vec<u32>>,
    threshold: u32,
    candidates: Vec<usize>,
    max_selected: usize,
    rng: &mut rand::rngs::StdRng,
) -> (r: Vec<usize>)
    requires
        square(similarity@),
        candidates@.no_duplicates(),
        forall|k: int| 0 <= k < candidates@.len() ==> (#[trigger] candidates@[k]) < similarity@.len(),
    ensures
        selection_spec(similarity@, threshold, candidates@, max_selected as nat, r@),
{
    let ghost initial = candidates@;
    let mut remaining = candidates;
    let mut selected: Vec<usize> = Vec::new();
    while remaining.len() > 0 && selected.len() < max_selected
        invariant
            square(similarity@),
            selected@.len() <= max_selected,
            selected@.no_duplicates(),
            remaining@.no_duplicates(),
            forall|k: int| 0 <= k < remaining@.len() ==> initial.contains(#[trigger] remaining@[k]),
            forall|k: int| 0 <= k < remaining@.len() ==> (#[trigger] remaining@[k]) < similarity@.len(),
            forall|k: int| 0 <= k < selected@.len() ==> initial.contains(#[trigger] selected@[k]),
            forall|k: int| 0 <= k < selected@.len() ==> (#[trigger] selected@[k]) < similarity@.len(),
            forall|a: int, b: int| 0 <= a < b < selected@.len() ==> !too_similar(similarity@, threshold, selected@[a], selected@[b]),
            forall|k: int| 0 <= k < remaining@.len() ==> !selected@.contains(#[trigger] remaining@[k]),
            forall|k: int, a: int| 0 <= k < remaining@.len() && 0 <= a < selected@.len()
                ==> !too_similar(similarity@, threshold, #[trigger] selected@[a], #[trigger] remaining@[k]),
            forall|c: usize| initial.contains(c) ==> remaining@.contains(c) || selected@.contains(c)
                || exists|a: int| 0 <= a < selected@.len() && too_similar(similarity@, threshold, #[trigger] selected@[a], c),
        decreases remaining@.len(),
    {
        let chosen = choose_candidate(remaining.as_slice(), rng);
        let row = &similarity[chosen];
        let mut next: Vec<usize> = Vec::new();
        let mut k: usize = 0;
        proof {
            assert(remaining@.contains(chosen));
            let m = choose|m: int| 0 <= m < remaining@.len() && remaining@[m] == chosen;
            assert(chosen < similarity@.len());
        }
        while k < remaining.len()
            invariant
                k <= remaining@.len(),
                row@.len() == similarity@.len(),
                *row == similarity@[chosen as int],
                remaining@.no_duplicates(),
                remaining@.contains(chosen),
                forall|m: int| 0 <= m < remaining@.len() ==> (#[trigger] remaining@[m]) < similarity@.len(),
                next@.no_duplicates(),
                forall|m: int| 0 <= m < next@.len() ==> remaining@.contains(#[trigger] next@[m]),
                forall|m: int| 0 <= m < next@.len() ==> (#[trigger] next@[m]) != chosen
                    && !too_similar(similarity@, threshold, chosen, next@[m]),
                forall|m: int| 0 <= m < k ==> (#[trigger] remaining@[m]) == chosen
                    || too_similar(similarity@, threshold, chosen, remaining@[m])
                    || next@.contains(remaining@[m]),
                forall|m: int| 0 <= m < next@.len() ==> exists|j: int| 0 <= j < k && (#[trigger] next@[m]) == remaining@[j],
            decreases remaining@.len() - k,
        {
            let c = remaining[k];
            if c != chosen && !at_least(row[c], threshold) {
                let ghost before = next@;
                proof {
                    assert forall|m: int| 0 <= m < before.len() implies before[m] != c by {
                        let j = choose|j: int| 0 <= j < k && before[m] == remaining@[j];
                        assert(remaining@[j] != remaining@[k as int]);
                    }
                }
                next.push(c);
                proof {
                    assert forall|a: int, b: int| 0 <= a < next@.len() && 0 <= b < next@.len() && a != b implies next@[a] != next@[b] by {
                        if a < before.len() && b < before.len() {
                            assert(before[a] != before[b]);
                        }
                    }
                    assert(next@[before.len() as int] == c);
                    assert(next@.contains(c));
                    assert forall|m: int| 0 <= m < next@.len() implies exists|j: int| 0 <= j < k + 1 && (#[trigger] next@[m]) == remaining@[j] by {
                        if m < before.len() {
                            let j = choose|j: int| 0 <= j < k && before[m] == remaining@[j];
                            assert(next@[m] == remaining@[j]);
                        } else {
                            assert(next@[m] == remaining@[k as int]);
                        }
                    }
                    assert forall|m: int| 0 <= m < k + 1 implies (#[trigger] remaining@[m]) == chosen
                        || too_similar(similarity@, threshold, chosen, remaining@[m])
                        || next@.contains(remaining@[m]) by {
                        if m < k && before.contains(remaining@[m]) {
                            let q = choose|q: int| 0 <= q < before.len() && before[q] == remaining@[m];
                            assert(next@[q] == remaining@[m]);
                        }
                    }
                }
            }
            k = k + 1;
        }
        let ghost old_selected = selected@;
        let ghost old_remaining = remaining@;
        selected.push(chosen);
        remaining = next;
        proof {
            assert(old_remaining.contains(chosen));
            let mc = choose|m: int| 0 <= m < old_remaining.len() && old_remaining[m] == chosen;
            assert(initial.contains(chosen));
            assert(!old_selected.contains(chosen));
            assert forall|a: int, b: int| 0 <= a < selected@.len() && 0 <= b < selected@.len() && a != b implies selected@[a] != selected@[b] by {
                if a == old_selected.len() {
                    assert(old_selected[b] != chosen) by {
                        if old_selected[b] == chosen {
                            assert(old_selected.contains(chosen));
                        }
                    }
                } else if b == old_selected.len() {
                    assert(old_selected[a] != chosen) by {
                        if old_selected[a] == chosen {
                            assert(old_selected.contains(chosen));
                        }
                    }
                }
            }
            assert forall|a: int, b: int| 0 <= a < b < selected@.len() implies !too_similar(similarity@, threshold, selected@[a], selected@[b]) by {
                if b == old_selected.len() {
                    assert(selected@[a] == old_selected[a]);
                    assert(!too_similar(similarity@, threshold, old_selected[a], old_remaining[mc]));
                }
            }
            assert forall|m: int| 0 <= m < remaining@.len() implies initial.contains(#[trigger] remaining@[m]) by {
                assert(old_remaining.contains(remaining@[m]));
                let j = choose|j: int| 0 <= j < old_remaining.len() && old_remaining[j] == remaining@[m];
                assert(initial.contains(old_remaining[j]));
            }
            assert forall|m: int| 0 <= m < remaining@.len() implies (#[trigger] remaining@[m]) < similarity@.len() by {
                assert(old_remaining.contains(remaining@[m]));
                let j = choose|j: int| 0 <= j < old_remaining.len() && old_remaining[j] == remaining@[m];
            }
            assert forall|m: int| 0 <= m < remaining@.len() implies !selected@.contains(#[trigger] remaining@[m]) by {
                assert(old_remaining.contains(remaining@[m]));
                let j = choose|j: int| 0 <= j < old_remaining.len() && old_remaining[j] == remaining@[m];
                assert(!old_selected.contains(old_remaining[j]));
                if selected@.contains(remaining@[m]) {
                    let q = choose|q: int| 0 <= q < selected@.len() && selected@[q] == remaining@[m];
                    if q < old_selected.len() {
                        assert(old_selected[q] == remaining@[m]);
                    }
                }
            }
            assert forall|m: int, a: int| 0 <= m < remaining@.len() && 0 <= a < selected@.len()
                implies !too_similar(similarity@, threshold, #[trigger] selected@[a], #[trigger] remaining@[m]) by {
                assert(old_remaining.contains(remaining@[m]));
                let j = choose|j: int| 0 <= j < old_remaining.len() && old_remaining[j] == remaining@[m];
                if a < old_selected.len() {
                    assert(!too_similar(similarity@, threshold, old_selected[a], old_remaining[j]));
                }
            }
            assert forall|c: usize| initial.contains(c) implies remaining@.contains(c) || selected@.contains(c)
                || exists|a: int| 0 <= a < selected@.len() && too_similar(similarity@, threshold, #[trigger] selected@[a], c) by {
                if old_selected.contains(c) {
                    let q = choose|q: int| 0 <= q < old_selected.len() && old_selected[q] == c;
                    assert(selected@[q] == c);
                } else if exists|a: int| 0 <= a < old_selected.len() && too_similar(similarity@, threshold, #[trigger] old_selected[a], c) {
                    let a = choose|a: int| 0 <= a < old_selected.len() && too_similar(similarity@, threshold, #[trigger] old_selected[a], c);
                    assert(selected@[a] == old_selected[a]);
                } else {
                    assert(old_remaining.contains(c));
                    let j = choose|j: int| 0 <= j < old_remaining.len() && old_remaining[j] == c;
                    if c == chosen {
                        assert(selected@[old_selected.len() as int] == c);
                    } else if too_similar(similarity@, threshold, chosen, c) {
                        assert(selected@[old_selected.len() as int] == chosen);
                    }
                }
            }
            assert(remaining@.len() < old_remaining.len()) by {
                // the chosen candidate is not kept, and the kept ones are distinct candidates
                assert(!remaining@.contains(chosen));
                let kept = remaining@.to_set();
                let all = old_remaining.to_set();
                remaining@.unique_seq_to_set();
                old_remaining.unique_seq_to_set();
                assert(kept.subset_of(all.remove(chosen))) by {
                    assert forall|x: usize| kept.contains(x) implies all.remove(chosen).contains(x) by {
                        assert(remaining@.contains(x));
                        let q = choose|q: int| 0 <= q < remaining@.len() && remaining@[q] == x;
                        assert(old_remaining.contains(remaining@[q]));
                    }
                }
                vstd::set_lib::lemma_len_subset(kept, all.remove(chosen));
            }
        }
    }
    selected
}

/// For each of `n` documents, whether its index is selected.
pub open spec fn index_mask(selected: Seq<usize>, n: nat) -> Seq<bool> {
    Seq::new(n, |i: int| selected.contains(i as usize))
}

/// Keeps the selected documents, in their order.
pub fn retain_documents_by_indices<T>(selected: &[usize], documents: Vec<T>) -> (r: Vec<T>)
    ensures
        r@ == masked(documents@, index_mask(selected@, documents@.len())),
{
    let mut keep: Vec<bool> = Vec::new();
    let mut i: usize = 0;
    while i < documents.len()
        invariant
            i <= documents@.len(),
            keep@.len() == i,
            forall|k: int| 0 <= k < i ==> #[trigger] keep@[k] == selected@.contains(k as usize),
        decreases documents@.len() - i,
    {
        let mut found = false;
        let mut j: usize = 0;
        while j < selected.len()
            invariant
                j <= selected@.len(),
                found == exists|m: int| 0 <= m < j && selected@[m] == i,
            decreases selected@.len() - j,
        {
            if selected[j] == i {
                found = true;
            }
            j = j + 1;
        }
        keep.push(found);
        i = i + 1;
    }
    proof {
        assert(keep@ =~= index_mask(selected@, documents@.len()));
    }
    retain_by_mask(documents, &keep)
}

/// Why no documents could be selected.
#[derive(Clone, Copy, Debug, PartialEq, Eq, Structural)]
pub enum SelectionError {
    /// The user has no centers of interest yet.
    NotEnoughCois,
}

/// The threshold: the nearest similarity of the threshold document, or 0
/// without one.
pub open spec fn threshold_bits(nearest: Seq<u32>, t: Option<usize>) -> u32 {
    match t {
        Some(i) => nearest[i as int],
        None => 0u32,
    }
}

/// Whether `kept` is what the exploration selection can keep of `documents`
/// with threshold document `t`, initial candidates `cands` and selection
/// `sel`.
pub open spec fn exploration_outcome<T>(
    nearest: Seq<u32>,
    similarity: Seq<Vec<u32>>,
    documents: Seq<T>,
    number: nat,
    max: nat,
    t: Option<usize>,
    cands: Seq<usize>,
    sel: Seq<usize>,
    kept: Seq<T>,
) -> bool {
    &&& candidates_spec(nearest.map_values(|b: u32| order_key(b)), number, t, cands)
    &&& selection_spec(similarity, threshold_bits(nearest, t), cands, max, sel)
    &&& kept == masked(documents, index_mask(sel, documents.len()))
}

/// Selects the documents of the exploration stack: refused while the user
/// has no centers of interest, else the documents picked at random among the
/// ones least similar to the user's interests (`nearest`, as float bits),
/// dropping those too similar to a picked one (`similarity`, as float bits).
pub fn document_selection<T>(
    cois: usize,
    nearest: &[u32],
    similarity: &Vec<Vec<u32>>,
    documents: Vec<T>,
    number_of_candidates: usize,
    max_selected_docs: usize,
    rng: &mut rand::rngs::StdRng,
) -> (r: Result<Vec<T>, SelectionError>)
    requires
        nearest@.len() == documents@.len(),
        similarity@.len() == documents@.len(),
        square(similarity@),
    ensures
        cois == 0 <==> r is Err,
        r matches Ok(v) ==> exists|t: Option<usize>, cands: Seq<usize>, sel: Seq<usize>|
            #[trigger] exploration_outcome(nearest@, similarity@, documents@, number_of_candidates as nat,
                max_selected_docs as nat, t, cands, sel, v@),
{
    if cois == 0 {
        return Err(SelectionError::NotEnoughCois);
    }
    let (threshold_index, candidates) = select_initial_candidates(nearest, number_of_candidates);
    let threshold = match threshold_index {
        Some(t) => nearest[t],
        None => 0,
    };
    let ghost cands = candidates@;
    let ghost all_docs = documents@;
    proof {
        assert(candidates@.no_duplicates()) by {
            assert forall|a: int, b: int| 0 <= a < candidates@.len() && 0 <= b < candidates@.len() && a != b implies candidates@[a] != candidates@[b] by {
                if a < b {
                    assert(candidates@[a] < candidates@[b]);
                } else {
                    assert(candidates@[b] < candidates@[a]);
                }
            }
        }
    }
    let selected = select_by_randomization_with_threshold(similarity, threshold, candidates, max_selected_docs, rng);
    let r = retain_documents_by_indices(selected.as_slice(), documents);
    proof {
        assert(exploration_outcome(nearest@, similarity@, all_docs, number_of_candidates as nat,
            max_selected_docs as nat, threshold_index, cands, selected@, r@));
        assert(exists|t: Option<usize>, c: Seq<usize>, sel: Seq<usize>|
            #[trigger] exploration_outcome(nearest@, similarity@, all_docs, number_of_candidates as nat,
                max_selected_docs as nat, t, c, sel, r@));
    }
    let result: Result<Vec<T>, SelectionError> = Ok(r);
    proof {
        assert(result matches Ok(v) && v@ == r@);
    }
    result
}

/// Whether `a > b` holds of the floats with these bits (false when either
/// is a NaN).
pub open spec fn float_above(a: u32, b: u32) -> bool {
    !is_nan_bits(a) && !is_nan_bits(b) && order_key(a) > order_key(b)
}

/// The documents of a deep search, best first: the indices of the
/// similarities (as float bits) above the minimum, in decreasing order of
/// similarity; equal similarities keep the order of their indices.
pub fn rank_by_similarity(similarities: &[u32], min: u32) -> (r: Vec<usize>)
    ensures
        r@.no_duplicates(),
        forall|k: int| 0 <= k < r@.len() ==> (#[trigger] r@[k]) < similarities@.len(),
        forall|i: int| 0 <= i < similarities@.len() ==> (r@.contains(i as usize) <==> float_above(#[trigger] similarities@[i], min)),
        forall|a: int, b: int| 0 <= a < b < r@.len()
            ==> order_key(similarities@[r@[a] as int]) >= order_key(similarities@[r@[b] as int]),
{
    let m = sample_order_key(min);
    let mut r: Vec<usize> = Vec::new();
    let mut i: usize = 0;
    while i < similarities.len()
        invariant
            i <= similarities@.len(),
            m == order_key(min),
            r@.no_duplicates(),
            forall|k: int| 0 <= k < r@.len() ==> (#[trigger] r@[k]) < i,
            forall|j: int| 0 <= j < i ==> (r@.contains(j as usize) <==> float_above(#[trigger] similarities@[j], min)),
            forall|a: int, b: int| 0 <= a < b < r@.len()
                ==> order_key(similarities@[r@[a] as int]) >= order_key(similarities@[r@[b] as int]),
        decreases similarities@.len() - i,
    {
        let key = sample_order_key(similarities[i]);
        let ghost before = r@;
        if key != 0 && m != 0 && key > m {
            let mut p: usize = 0;
            while p < r.len() && sample_order_key(similarities[r[p]]) >= key
                invariant
                    p <= r@.len(),
                    forall|k: int| 0 <= k < r@.len() ==> (#[trigger] r@[k]) < i,
                    i < similarities@.len(),
                    key == order_key(similarities@[i as int]),
                    forall|k: int| 0 <= k < p ==> order_key(similarities@[(#[trigger] r@[k]) as int]) >= key,
                decreases r@.len() - p,
            {
                p = p + 1;
            }
            r.insert(p, i);
            proof {
                assert forall|k: int| 0 <= k < r@.len() implies #[trigger] r@[k] == (if k < p { before[k] } else if k == p { i } else { before[k - 1] }) by {}
                assert forall|a: int, b: int| 0 <= a < b < r@.len() implies order_key(similarities@[r@[a] as int]) >= order_key(similarities@[r@[b] as int]) by {
                    if a == p && b > p {
                        assert(order_key(similarities@[before[p as int] as int]) < key);
                        assert(order_key(similarities@[before[p as int] as int]) >= order_key(similarities@[before[b - 1] as int]) || p == b - 1);
                    }
                }
                assert forall|a: int, b: int| 0 <= a < r@.len() && 0 <= b < r@.len() && a != b implies r@[a] != r@[b] by {
                    if a == p {
                        assert(before[if b < p { b } else { b - 1 }] < i);
                    } else if b == p {
                        assert(before[if a < p { a } else { a - 1 }] < i);
                    }
                }
                assert forall|j: int| 0 <= j < i + 1 implies (r@.contains(j as usize) <==> float_above(#[trigger] similarities@[j], min)) by {
                    if j < i {
                        if before.contains(j as usize) {
                            let q = choose|q: int| 0 <= q < before.len() && before[q] == j as usize;
                            let q1 = if q < p { q } else { q + 1 };
                            assert(r@[q1] == j as usize);
                        }
                        if r@.contains(j as usize) {
                            let q = choose|q: int| 0 <= q < r@.len() && r@[q] == j as usize;
                            assert(q != p);
                            let q0 = if q < p { q } else { q - 1 };
                            assert(before[q0] == j as usize);
                        }
                    } else {
                        assert(r@[p as int] == i);
                    }
                }
            }
        } else {
            proof {
                assert forall|j: int| 0 <= j < i + 1 implies (r@.contains(j as usize) <==> float_above(#[trigger] similarities@[j], min)) by {
                    if j == i && r@.contains(j as usize) {
                        let q = choose|q: int| 0 <= q < r@.len() && r@[q] == j as usize;
                        assert(r@[q] < i);
                    }
                }
            }
        }
        i = i + 1;
    }
    r
}

} // verus!
