//! Cluster bookkeeping of the semantic filter: the merge steps of a
//! dendrogram, cluster labels and the pairs of a condensed distance matrix.

use vstd::prelude::*;
use crate::selection::{is_nan_bits, order_key, sample_order_key};

verus! {

/// The pairs `(row, column)` with `start <= row < column < size`, row by row.
pub open spec fn pairs_from(start: nat, size: nat) -> Seq<(usize, usize)>
    decreases size - start,
{
    if start >= size {
        Seq::empty()
    } else {
        Seq::new((size - start - 1) as nat, |k: int| (start as usize, (start + 1 + k) as usize)) + pairs_from(
            start + 1,
            size,
        )
    }
}

/// The indices of the upper triangle of a `size` x `size` matrix, row by row.
pub fn triangular_indices(size: usize) -> (r: Vec<(usize, usize)>)
    ensures
        r@ == pairs_from(0, size as nat),
{
    let mut r: Vec<(usize, usize)> = Vec::new();
    let mut row: usize = 0;
    while row < size
        invariant
            row <= size,
            r@ + pairs_from(row as nat, size as nat) == pairs_from(0, size as nat),
        decreases size - row,
    {
        let ghost before = r@;
        let mut column = row + 1;
        while column < size
            invariant
                row < size,
                row + 1 <= column <= size,
                r@ == before + Seq::new((column - row - 1) as nat, |k: int| (row as usize, (row + 1 + k) as usize)),
            decreases size - column,
        {
            let ghost pre = r@;
            r.push((row, column));
            proof {
                assert(r@ =~= before + Seq::new((column + 1 - row - 1) as nat, |k: int| (row as usize, (row + 1 + k) as usize)));
            }
            column = column + 1;
        }
        proof {
            assert(r@ + pairs_from(row as nat + 1, size as nat) =~= before + pairs_from(row as nat, size as nat));
        }
        row = row + 1;
    }
    proof {
        assert(r@ =~= pairs_from(0, size as nat));
    }
    r
}

/// A cluster: its id and its samples.
pub type Cluster = (usize, Seq<usize>);

/// The label of `sample`: the position of the last cluster that holds it,
/// or `0` if none does.
pub open spec fn label_of(clusters: Seq<Seq<usize>>, sample: usize) -> usize
    decreases clusters.len(),
{
    if clusters.len() == 0 {
        0
    } else if clusters.last().contains(sample) {
        (clusters.len() - 1) as usize
    } else {
        label_of(clusters.drop_last(), sample)
    }
}

/// The views of clusters given as vectors.
pub open spec fn clusters_view(v: Seq<Vec<usize>>) -> Seq<Seq<usize>> {
    v.map_values(|c: Vec<usize>| c@)
}

/// Assigns the labels `0, 1, ...` to the clusters in their order: each
/// sample gets the label of its cluster.
pub fn assign_labels(clusters: &Vec<Vec<usize>>, len: usize) -> (r: Vec<usize>)
    requires
        forall|c: int, k: int| 0 <= c < clusters@.len() && 0 <= k < clusters@[c]@.len() ==> #[trigger] clusters@[c]@[k] < len,
    ensures
        r@.len() == len,
        forall|s: int| 0 <= s < len ==> #[trigger] r@[s] == label_of(clusters_view(clusters@), s as usize),
{
    let mut labels: Vec<usize> = Vec::new();
    let mut i: usize = 0;
    while i < len
        invariant
            i <= len,
            labels@.len() == i,
            forall|s: int| 0 <= s < i ==> #[trigger] labels@[s] == 0,
        decreases len - i,
    {
        labels.push(0);
        i = i + 1;
    }
    let ghost cv = clusters_view(clusters@);
    let mut label: usize = 0;
    proof {
        assert(cv.subrange(0, 0) =~= Seq::<Seq<usize>>::empty());
    }
    while label < clusters.len()
        invariant
            cv == clusters_view(clusters@),
            cv.len() == clusters@.len(),
            forall|c: int, k: int| 0 <= c < clusters@.len() && 0 <= k < clusters@[c]@.len() ==> #[trigger] clusters@[c]@[k] < len,
            label <= clusters@.len(),
            labels@.len() == len,
            forall|s: int| 0 <= s < len ==> #[trigger] labels@[s] == label_of(cv.subrange(0, label as int), s as usize),
        decreases clusters@.len() - label,
    {
        let cluster = &clusters[label];
        let ghost before = labels@;
        let mut k: usize = 0;
        while k < cluster.len()
            invariant
                label < clusters@.len(),
                cluster == clusters@[label as int],
                forall|m: int| 0 <= m < cluster@.len() ==> #[trigger] cluster@[m] < len,
                k <= cluster@.len(),
                labels@.len() == len,
                forall|s: int| 0 <= s < len ==> #[trigger] labels@[s] == (if cluster@.subrange(0, k as int).contains(s as usize) {
                    label
                } else {
                    before[s]
                }),
            decreases cluster@.len() - k,
        {
            let sample = cluster[k];
            labels.set(sample, label);
            proof {
                assert forall|s: int| 0 <= s < len implies #[trigger] labels@[s] == (if cluster@.subrange(0, k + 1).contains(s as usize) {
                    label
                } else {
                    before[s]
                }) by {
                    let pre = cluster@.subrange(0, k as int);
                    let post = cluster@.subrange(0, k + 1);
                    if pre.contains(s as usize) {
                        let m = choose|m: int| 0 <= m < pre.len() && #[trigger] pre[m] == s as usize;
                        assert(post[m] == s as usize);
                    }
                    if post.contains(s as usize) && s != sample {
                        let m = choose|m: int| 0 <= m < post.len() && #[trigger] post[m] == s as usize;
                        assert(m != k);
                        assert(pre[m] == s as usize);
                    }
                    if s == sample {
                        assert(cluster@.subrange(0, k + 1)[k as int] == sample);
                    }
                }
            }
            k = k + 1;
        }
        proof {
            let next = cv.subrange(0, label + 1);
            assert(next.drop_last() =~= cv.subrange(0, label as int));
            assert(next.last() == cluster@);
            assert(cluster@.subrange(0, cluster@.len() as int) =~= cluster@);
        }
        label = label + 1;
    }
    proof {
        assert(cv.subrange(0, clusters@.len() as int) =~= cv);
    }
    labels
}


/// Every sample in its own cluster, the cluster id being the sample.
pub open spec fn initial_clusters(observations: nat) -> Seq<Cluster> {
    Seq::new(observations, |i: int| (i as usize, seq![i as usize]))
}

/// Some cluster has the id `id`.
pub open spec fn has_id(clusters: Seq<Cluster>, id: usize) -> bool {
    exists|i: int| 0 <= i < clusters.len() && (#[trigger] clusters[i]).0 == id
}

/// The position of the cluster with the id `id`.
pub open spec fn index_of_id(clusters: Seq<Cluster>, id: usize) -> int {
    choose|i: int| 0 <= i < clusters.len() && (#[trigger] clusters[i]).0 == id
}

/// Merging the clusters `a` and `b` into a new last cluster `new_id`
/// holding the samples of `a` followed by those of `b`.
pub open spec fn merge_step(clusters: Seq<Cluster>, a: usize, b: usize, new_id: usize) -> Seq<Cluster> {
    let ia = index_of_id(clusters, a);
    let rest = clusters.remove(ia);
    let ib = index_of_id(rest, b);
    rest.remove(ib).push((new_id, clusters[ia].1 + rest[ib].1))
}

/// A merge step names two distinct existing clusters.
pub open spec fn step_valid(clusters: Seq<Cluster>, a: usize, b: usize) -> bool {
    has_id(clusters, a) && has_id(clusters, b) && a != b
}

/// The clusters after the first `k` merge steps of a dendrogram over
/// `observations` samples; the cluster made by step `j` has the id
/// `observations + j`.
pub open spec fn clusters_after(observations: nat, steps: Seq<(usize, usize)>, k: nat) -> Seq<Cluster>
    decreases k,
{
    if k == 0 || k > steps.len() {
        initial_clusters(observations)
    } else {
        merge_step(
            clusters_after(observations, steps, (k - 1) as nat),
            steps[k - 1].0,
            steps[k - 1].1,
            (observations + k - 1) as usize,
        )
    }
}

/// The first `k` steps only merge distinct existing clusters.
pub open spec fn steps_valid(observations: nat, steps: Seq<(usize, usize)>, k: nat) -> bool {
    &&& k <= steps.len()
    &&& forall|j: nat| j < k ==> step_valid(#[trigger] clusters_after(observations, steps, j), steps[j as int].0, steps[j as int].1)
}

/// The cluster ids are strictly increasing.
pub open spec fn ids_increasing(clusters: Seq<Cluster>) -> bool {
    forall|i: int, j: int| 0 <= i < j < clusters.len() ==> (#[trigger] clusters[i]).0 < (#[trigger] clusters[j]).0
}

proof fn lemma_index_of_id(clusters: Seq<Cluster>, i: int)
    requires
        ids_increasing(clusters),
        0 <= i < clusters.len(),
    ensures
        has_id(clusters, clusters[i].0),
        index_of_id(clusters, clusters[i].0) == i,
{
    let id = clusters[i].0;
    assert(has_id(clusters, id));
    let j = index_of_id(clusters, id);
    if j < i {
        assert(clusters[j].0 < clusters[i].0);
    } else if j > i {
        assert(clusters[i].0 < clusters[j].0);
    }
}

/// After valid steps the ids are increasing and below `observations + k`,
/// every sample is below `observations`, and `k` clusters fewer remain.
pub proof fn lemma_clusters_after(observations: nat, steps: Seq<(usize, usize)>, k: nat)
    requires
        steps_valid(observations, steps, k),
        observations + k <= usize::MAX + 1,
    ensures
        ids_increasing(clusters_after(observations, steps, k)),
        forall|i: int| 0 <= i < clusters_after(observations, steps, k).len() ==> (#[trigger] clusters_after(observations, steps, k)[i]).0 < observations + k,
        forall|i: int, m: int| 0 <= i < clusters_after(observations, steps, k).len() && 0 <= m < clusters_after(observations, steps, k)[i].1.len()
            ==> #[trigger] clusters_after(observations, steps, k)[i].1[m] < observations,
        clusters_after(observations, steps, k).len() + k == observations,
    decreases k,
{
    if k == 0 {
    } else {
        let j = (k - 1) as nat;
        assert(steps_valid(observations, steps, j)) by {
            assert forall|x: nat| x < j implies step_valid(#[trigger] clusters_after(observations, steps, x), steps[x as int].0, steps[x as int].1) by {
                assert(x < k);
            }
        }
        lemma_clusters_after(observations, steps, j);
        let cs = clusters_after(observations, steps, j);
        assert(step_valid(cs, steps[j as int].0, steps[j as int].1));
        let a = steps[j as int].0;
        let b = steps[j as int].1;
        let ia = index_of_id(cs, a);
        let rest = cs.remove(ia);
        assert(ids_increasing(rest)) by {
            assert forall|x: int, y: int| 0 <= x < y < rest.len() implies (#[trigger] rest[x]).0 < (#[trigger] rest[y]).0 by {
                let x2 = if x < ia { x } else { x + 1 };
                let y2 = if y < ia { y } else { y + 1 };
                assert(rest[x] == cs[x2]);
                assert(rest[y] == cs[y2]);
            }
        }
        assert(has_id(rest, b)) by {
            let ib0 = choose|i: int| 0 <= i < cs.len() && (#[trigger] cs[i]).0 == b;
            assert(ib0 != ia);
            if ib0 < ia {
                assert(rest[ib0].0 == b);
            } else {
                assert(rest[ib0 - 1].0 == b);
            }
        }
        let ib = index_of_id(rest, b);
        let rest2 = rest.remove(ib);
        let merged = cs[ia].1 + rest[ib].1;
        let next = rest2.push(((observations + k - 1) as usize, merged));
        assert(clusters_after(observations, steps, k) == next);
        assert(forall|i: int| 0 <= i < rest.len() ==> (#[trigger] rest[i]) == cs[if i < ia { i } else { i + 1 }]);
        assert(forall|i: int| 0 <= i < rest2.len() ==> (#[trigger] rest2[i]) == rest[if i < ib { i } else { i + 1 }]);
        assert forall|x: int, y: int| 0 <= x < y < next.len() implies (#[trigger] next[x]).0 < (#[trigger] next[y]).0 by {
            if y < rest2.len() {
                let x2 = if x < ib { x } else { x + 1 };
                let y2 = if y < ib { y } else { y + 1 };
                assert(rest2[x] == rest[x2]);
                assert(rest2[y] == rest[y2]);
            } else {
                let x2 = if x < ib { x } else { x + 1 };
                let x3 = if x2 < ia { x2 } else { x2 + 1 };
                assert(next[x] == cs[x3]);
            }
        }
        assert forall|i: int| 0 <= i < next.len() implies (#[trigger] next[i]).0 < observations + k by {
            if i < rest2.len() {
                let i2 = if i < ib { i } else { i + 1 };
                let i3 = if i2 < ia { i2 } else { i2 + 1 };
                assert(next[i] == cs[i3]);
            }
        }
        assert forall|i: int, m: int| 0 <= i < next.len() && 0 <= m < next[i].1.len() implies #[trigger] next[i].1[m] < observations by {
            if i < rest2.len() {
                let i2 = if i < ib { i } else { i + 1 };
                let i3 = if i2 < ia { i2 } else { i2 + 1 };
                assert(next[i] == cs[i3]);
                assert(cs[i3].1[m] < observations);
            } else {
                let ib2 = if ib < ia { ib } else { ib + 1 };
                assert(rest[ib] == cs[ib2]);
                if m < cs[ia].1.len() {
                    assert(merged[m] == cs[ia].1[m]);
                    assert(cs[ia].1[m] < observations);
                } else {
                    assert(merged[m] == cs[ib2].1[m - cs[ia].1.len()]);
                    assert(cs[ib2].1[m - cs[ia].1.len()] < observations);
                }
            }
        }
    }
}


/// The views of clusters given as vectors.
pub open spec fn cluster_vecs_view(v: Seq<(usize, Vec<usize>)>) -> Seq<Cluster> {
    v.map_values(|c: (usize, Vec<usize>)| (c.0, c.1@))
}

/// The position of the cluster with the id `id`, if there is one.
fn position_of_id(clusters: &Vec<(usize, Vec<usize>)>, id: usize) -> (r: Option<usize>)
    ensures
        match r {
            Some(i) => i < clusters@.len() && clusters@[i as int].0 == id,
            None => !has_id(cluster_vecs_view(clusters@), id),
        },
{
    let ghost cv = cluster_vecs_view(clusters@);
    let mut i: usize = 0;
    while i < clusters.len()
        invariant
            cv == cluster_vecs_view(clusters@),
            i <= clusters@.len(),
            forall|k: int| 0 <= k < i ==> (#[trigger] clusters@[k]).0 != id,
        decreases clusters@.len() - i,
    {
        if clusters[i].0 == id {
            return Some(i);
        }
        i = i + 1;
    }
    proof {
        if has_id(cv, id) {
            let w = choose|k: int| 0 <= k < cv.len() && (#[trigger] cv[k]).0 == id;
            assert(clusters@[w].0 == cv[w].0);
        }
    }
    None
}

/// Every sample in its own cluster (see [`initial_clusters`]).
fn initial_cluster_vec(observations: usize) -> (r: Vec<(usize, Vec<usize>)>)
    ensures
        cluster_vecs_view(r@) == initial_clusters(observations as nat),
{
    let mut clusters: Vec<(usize, Vec<usize>)> = Vec::new();
    let mut s: usize = 0;
    while s < observations
        invariant
            s <= observations,
            cluster_vecs_view(clusters@) == initial_clusters(observations as nat).subrange(0, s as int),
        decreases observations - s,
    {
        let mut one: Vec<usize> = Vec::new();
        one.push(s);
        proof {
            assert(one@ =~= seq![s]);
        }
        let ghost before = clusters@;
        clusters.push((s, one));
        proof {
            assert(initial_clusters(observations as nat)[s as int] == (s, seq![s]));
            assert(cluster_vecs_view(clusters@) =~= cluster_vecs_view(before).push((s, seq![s])));
            assert(cluster_vecs_view(clusters@) =~= initial_clusters(observations as nat).subrange(0, s + 1));
        }
        s = s + 1;
    }
    proof {
        assert(initial_clusters(observations as nat).subrange(0, observations as int) =~= initial_clusters(observations as nat));
    }
    clusters
}

/// Merges the clusters `a` and `b` into the new cluster `new_id` where the
/// step is valid; says whether it was (and then leaves the clusters
/// otherwise unspecified).
fn apply_merge_step(clusters: &mut Vec<(usize, Vec<usize>)>, a: usize, b: usize, new_id: usize) -> (valid: bool)
    requires
        ids_increasing(cluster_vecs_view(old(clusters)@)),
    ensures
        valid == step_valid(cluster_vecs_view(old(clusters)@), a, b),
        valid ==> cluster_vecs_view(final(clusters)@) == merge_step(cluster_vecs_view(old(clusters)@), a, b, new_id),
{
    let ghost cs = cluster_vecs_view(clusters@);
    if a == b {
        return false;
    }
    let ia = match position_of_id(clusters, a) {
        Some(i) => i,
        None => {
            return false;
        },
    };
    proof {
        lemma_index_of_id(cs, ia as int);
    }
    let (_, mut first) = clusters.remove(ia);
    let ghost rest = cs.remove(ia as int);
    proof {
        assert(cluster_vecs_view(clusters@) =~= rest);
        assert(ids_increasing(rest)) by {
            assert forall|x: int, y: int| 0 <= x < y < rest.len() implies (#[trigger] rest[x]).0 < (#[trigger] rest[y]).0 by {
                let x2 = if x < ia { x } else { x + 1 };
                let y2 = if y < ia { y } else { y + 1 };
                assert(rest[x] == cs[x2]);
                assert(rest[y] == cs[y2]);
            }
        }
        assert(has_id(rest, b) == has_id(cs, b)) by {
            if has_id(cs, b) {
                let ib0 = choose|i: int| 0 <= i < cs.len() && (#[trigger] cs[i]).0 == b;
                assert(ib0 != ia);
                if ib0 < ia {
                    assert(rest[ib0].0 == b);
                } else {
                    assert(rest[ib0 - 1].0 == b);
                }
            }
            if has_id(rest, b) {
                let ib0 = choose|i: int| 0 <= i < rest.len() && (#[trigger] rest[i]).0 == b;
                if ib0 < ia {
                    assert(cs[ib0].0 == b);
                } else {
                    assert(cs[ib0 + 1].0 == b);
                }
            }
        }
    }
    let ib = match position_of_id(clusters, b) {
        Some(i) => i,
        None => {
            return false;
        },
    };
    proof {
        lemma_index_of_id(rest, ib as int);
    }
    let (_, mut second) = clusters.remove(ib);
    first.append(&mut second);
    clusters.push((new_id, first));
    proof {
        assert(cluster_vecs_view(clusters@) =~= merge_step(cs, a, b, new_id));
    }
    true
}

/// Valid steps stay valid when fewer of them are taken.
proof fn lemma_steps_valid_prefix(observations: nat, steps: Seq<(usize, usize)>, k: nat, m: nat)
    requires
        steps_valid(observations, steps, k),
        m <= k,
    ensures
        steps_valid(observations, steps, m),
{
    assert forall|x: nat| x < m implies step_valid(#[trigger] clusters_after(observations, steps, x), steps[x as int].0, steps[x as int].1) by {
        assert(x < k);
    }
}

/// The clusters after the first `count` merge steps (see [`clusters_after`]).
pub fn merge_clusters(observations: usize, steps: &[(usize, usize)], count: usize) -> (r: Vec<(usize, Vec<usize>)>)
    requires
        steps_valid(observations as nat, steps@, count as nat),
        observations + count <= usize::MAX,
    ensures
        cluster_vecs_view(r@) == clusters_after(observations as nat, steps@, count as nat),
{
    let mut clusters = initial_cluster_vec(observations);
    let mut k: usize = 0;
    while k < count
        invariant
            steps_valid(observations as nat, steps@, count as nat),
            observations + count <= usize::MAX,
            k <= count,
            cluster_vecs_view(clusters@) == clusters_after(observations as nat, steps@, k as nat),
        decreases count - k,
    {
        proof {
            lemma_steps_valid_prefix(observations as nat, steps@, count as nat, k as nat);
            lemma_clusters_after(observations as nat, steps@, k as nat);
            assert(step_valid(clusters_after(observations as nat, steps@, k as nat), steps@[k as int].0, steps@[k as int].1));
        }
        let valid = apply_merge_step(&mut clusters, steps[k].0, steps[k].1, observations + k);
        assert(valid);
        k = k + 1;
    }
    clusters
}

/// Whether every merge step of a dendrogram over `observations` samples
/// merges two distinct existing clusters, as the clustering functions ask.
pub fn is_valid_dendrogram(observations: usize, steps: &[(usize, usize)]) -> (r: bool)
    requires
        observations + steps@.len() <= usize::MAX,
    ensures
        r == steps_valid(observations as nat, steps@, steps@.len()),
{
    let mut clusters = initial_cluster_vec(observations);
    let mut k: usize = 0;
    while k < steps.len()
        invariant
            observations + steps@.len() <= usize::MAX,
            k <= steps@.len(),
            steps_valid(observations as nat, steps@, k as nat),
            cluster_vecs_view(clusters@) == clusters_after(observations as nat, steps@, k as nat),
        decreases steps@.len() - k,
    {
        let ghost cs = clusters_after(observations as nat, steps@, k as nat);
        proof {
            lemma_clusters_after(observations as nat, steps@, k as nat);
        }
        let valid = apply_merge_step(&mut clusters, steps[k].0, steps[k].1, observations + k);
        if !valid {
            proof {
                if steps_valid(observations as nat, steps@, steps@.len()) {
                    assert(step_valid(clusters_after(observations as nat, steps@, k as nat), steps@[k as int].0, steps@[k as int].1));
                }
            }
            return false;
        }
        proof {
            assert forall|x: nat| x < k + 1 implies step_valid(#[trigger] clusters_after(observations as nat, steps@, x), steps@[x as int].0, steps@[x as int].1) by {
                if x < k {
                } else {
                    assert(x == k);
                }
            }
        }
        k = k + 1;
    }
    true
}

/// The samples of the clusters, in the order of the clusters.
fn cluster_members(clusters: Vec<(usize, Vec<usize>)>) -> (r: Vec<Vec<usize>>)
    ensures
        clusters_view(r@) == cluster_vecs_view(clusters@).map_values(|c: Cluster| c.1),
{
    let ghost all = cluster_vecs_view(clusters@);
    let mut rest = clusters;
    let mut rev: Vec<Vec<usize>> = Vec::new();
    while rest.len() > 0
        invariant
            all.map_values(|c: Cluster| c.1) == cluster_vecs_view(rest@).map_values(|c: Cluster| c.1) + clusters_view(rev@).reverse(),
        decreases rest.len(),
    {
        let ghost before = rest@;
        let (_, c) = rest.pop().unwrap();
        let ghost old_rev = rev@;
        rev.push(c);
        proof {
            assert(cluster_vecs_view(before).map_values(|c: Cluster| c.1) =~= cluster_vecs_view(rest@).map_values(|c: Cluster| c.1).push(c@));
            assert(clusters_view(rev@).reverse() =~= seq![c@] + clusters_view(old_rev).reverse());
            assert(all.map_values(|c: Cluster| c.1) =~= cluster_vecs_view(rest@).map_values(|c: Cluster| c.1) + clusters_view(rev@).reverse());
        }
    }
    let mut res: Vec<Vec<usize>> = Vec::new();
    proof {
        assert(all.map_values(|c: Cluster| c.1) =~= clusters_view(res@) + clusters_view(rev@).reverse());
    }
    while rev.len() > 0
        invariant
            all.map_values(|c: Cluster| c.1) == clusters_view(res@) + clusters_view(rev@).reverse(),
        decreases rev.len(),
    {
        let ghost before = rev@;
        let c = rev.pop().unwrap();
        let ghost old_res = res@;
        res.push(c);
        proof {
            assert(clusters_view(before).reverse() =~= seq![c@] + clusters_view(rev@).reverse());
            assert(clusters_view(res@) =~= clusters_view(old_res).push(c@));
            assert(all.map_values(|c: Cluster| c.1) =~= clusters_view(res@) + clusters_view(rev@).reverse());
        }
    }
    proof {
        assert(clusters_view(res@) =~= all.map_values(|c: Cluster| c.1));
    }
    res
}

/// The labels after the first `count` merge steps: the clusters are
/// numbered in the order of their ids.
pub fn labels_after(observations: usize, steps: &[(usize, usize)], count: usize) -> (r: Vec<usize>)
    requires
        steps_valid(observations as nat, steps@, count as nat),
        observations + count <= usize::MAX,
    ensures
        r@.len() == observations,
        forall|s: int| 0 <= s < observations ==> #[trigger] r@[s] == label_of(
            clusters_after(observations as nat, steps@, count as nat).map_values(|c: Cluster| c.1),
            s as usize,
        ),
{
    proof {
        lemma_clusters_after(observations as nat, steps@, count as nat);
    }
    let clusters = merge_clusters(observations, steps, count);
    let members = cluster_members(clusters);
    proof {
        let cs = clusters_after(observations as nat, steps@, count as nat);
        assert forall|c: int, k: int| 0 <= c < members@.len() && 0 <= k < members@[c]@.len() implies #[trigger] members@[c]@[k] < observations by {
            assert(clusters_view(members@).len() == members@.len());
            assert(clusters_view(members@) == cluster_vecs_view(clusters@).map_values(|c: Cluster| c.1));
            assert(cluster_vecs_view(clusters@) == cs);
            assert(cs.map_values(|c: Cluster| c.1).len() == cs.len());
            assert(clusters_view(members@)[c] == members@[c]@);
            assert(cs.map_values(|c: Cluster| c.1)[c] == cs[c].1);
            assert(cs[c].1[k] < observations);
        }
    }
    assign_labels(&members, observations)
}

/// The number of merge steps of [`find_n_clusters`]: merging stops when at
/// most `n_clusters` clusters are left or the steps run out.
pub open spec fn n_clusters_steps(observations: nat, n_steps: nat, n_clusters: nat) -> nat {
    if observations <= n_clusters {
        0
    } else if n_steps < observations - n_clusters {
        n_steps
    } else {
        (observations - n_clusters) as nat
    }
}

/// Merges clusters along the dendrogram steps until at most `n_clusters`
/// are left, and labels the samples.
pub fn find_n_clusters(observations: usize, steps: &[(usize, usize)], n_clusters: usize) -> (r: Vec<usize>)
    requires
        steps_valid(observations as nat, steps@, n_clusters_steps(observations as nat, steps@.len(), n_clusters as nat)),
        observations + n_clusters_steps(observations as nat, steps@.len(), n_clusters as nat) <= usize::MAX,
    ensures
        r@.len() == observations,
        forall|s: int| 0 <= s < observations ==> #[trigger] r@[s] == label_of(
            clusters_after(
                observations as nat,
                steps@,
                n_clusters_steps(observations as nat, steps@.len(), n_clusters as nat),
            ).map_values(|c: Cluster| c.1),
            s as usize,
        ),
{
    let count = if observations <= n_clusters {
        0
    } else if steps.len() < observations - n_clusters {
        steps.len()
    } else {
        observations - n_clusters
    };
    labels_after(observations, steps, count)
}

/// Merges clusters along the first `below_threshold` dendrogram steps (the
/// steps whose dissimilarity is below the cut-off, which the caller counts)
/// and labels the samples.
pub fn cut_tree(observations: usize, steps: &[(usize, usize)], below_threshold: usize) -> (r: Vec<usize>)
    requires
        steps_valid(observations as nat, steps@, below_threshold as nat),
        observations + below_threshold <= usize::MAX,
    ensures
        r@.len() == observations,
        forall|s: int| 0 <= s < observations ==> #[trigger] r@[s] == label_of(
            clusters_after(observations as nat, steps@, below_threshold as nat).map_values(|c: Cluster| c.1),
            s as usize,
        ),
{
    labels_after(observations, steps, below_threshold)
}


/// A source domain with an associated weight.
pub struct WeightedSource {
    /// Source domain.
    pub source: String,
    /// Weight of the source in terms of user reactions.
    pub weight: i32,
}

/// The weight of the first source named `domain`, `0` if there is none.
pub open spec fn weight_of(sources: Seq<WeightedSource>, domain: Seq<char>) -> i32
    decreases sources.len(),
{
    if sources.len() == 0 {
        0
    } else if sources[0].source@ == domain {
        sources[0].weight
    } else {
        weight_of(sources.subrange(1, sources.len() as int), domain)
    }
}

/// The weight of the source `domain` (see [`weight_of`]).
pub fn source_weight(domain: &String, sources: &[WeightedSource]) -> (r: i32)
    ensures
        r == weight_of(sources@, domain@),
{
    let mut k: usize = 0;
    proof {
        assert(sources@.subrange(0, sources@.len() as int) =~= sources@);
    }
    while k < sources.len()
        invariant
            k <= sources@.len(),
            weight_of(sources@, domain@) == weight_of(sources@.subrange(k as int, sources@.len() as int), domain@),
        decreases sources@.len() - k,
    {
        let ghost rest = sources@.subrange(k as int, sources@.len() as int);
        assert(rest[0] == sources@[k as int]);
        if sources[k].source == *domain {
            return sources[k].weight;
        }
        proof {
            assert(rest.subrange(1, rest.len() as int) =~= sources@.subrange(k + 1, sources@.len() as int));
        }
        k = k + 1;
    }
    0
}

/// Item `i` is the heaviest of its label (the last one among equally heavy ones).
pub open spec fn heaviest_of_label(labels: Seq<usize>, weights: Seq<i32>, i: int) -> bool {
    &&& 0 <= i < labels.len()
    &&& forall|j: int|
        0 <= j < labels.len() && #[trigger] labels[j] == labels[i] ==> weights[j] < weights[i] || (weights[j]
            == weights[i] && j <= i)
}

/// The heaviest item of each label, in increasing order of the labels.
pub fn heaviest_per_label(labels: &Vec<usize>, weights: &Vec<i32>) -> (r: Vec<usize>)
    requires
        weights@.len() == labels@.len(),
    ensures
        forall|k: int| 0 <= k < r@.len() ==> heaviest_of_label(labels@, weights@, #[trigger] r@[k] as int),
        forall|a: int, b: int| 0 <= a < b < r@.len() ==> labels@[#[trigger] r@[a] as int] < labels@[#[trigger] r@[b] as int],
        forall|i: int| heaviest_of_label(labels@, weights@, i) ==> r@.contains(i as usize),
{
    let n = labels.len();
    let mut max_label: usize = 0;
    let mut i: usize = 0;
    while i < n
        invariant
            n == labels@.len(),
            i <= n,
            forall|j: int| 0 <= j < i ==> #[trigger] labels@[j] <= max_label,
        decreases n - i,
    {
        if labels[i] > max_label {
            max_label = labels[i];
        }
        i = i + 1;
    }
    let mut r: Vec<usize> = Vec::new();
    if n == 0 {
        return r;
    }
    let mut l: usize = 0;
    let mut done = false;
    while !done
        invariant
            n == labels@.len(),
            weights@.len() == n,
            forall|j: int| 0 <= j < n ==> #[trigger] labels@[j] <= max_label,
            l <= max_label,
            done ==> l == max_label,
            forall|k: int| 0 <= k < r@.len() ==> heaviest_of_label(labels@, weights@, #[trigger] r@[k] as int),
            forall|k: int| 0 <= k < r@.len() ==> labels@[#[trigger] r@[k] as int] < l || (done && labels@[r@[k] as int] <= l),
            forall|a: int, b: int| 0 <= a < b < r@.len() ==> labels@[#[trigger] r@[a] as int] < labels@[#[trigger] r@[b] as int],
            forall|i: int| heaviest_of_label(labels@, weights@, i) && (labels@[i] < l || done) ==> r@.contains(i as usize),
        decreases max_label - l + (if done { 0int } else { 1int }),
    {
        let mut best: Option<usize> = None;
        let mut i: usize = 0;
        while i < n
            invariant
                n == labels@.len(),
                weights@.len() == n,
                i <= n,
                match best {
                    Some(b) => b < i && labels@[b as int] == l && forall|j: int|
                        0 <= j < i && #[trigger] labels@[j] == l ==> weights@[j] < weights@[b as int] || (weights@[j]
                            == weights@[b as int] && j <= b),
                    None => forall|j: int| 0 <= j < i ==> #[trigger] labels@[j] != l,
                },
            decreases n - i,
        {
            if labels[i] == l {
                match best {
                    Some(b) => {
                        if weights[i] >= weights[b] {
                            best = Some(i);
                        }
                    },
                    None => {
                        best = Some(i);
                    },
                }
            }
            i = i + 1;
        }
        match best {
            Some(b) => {
                proof {
                    assert(heaviest_of_label(labels@, weights@, b as int));
                }
                let ghost before = r@;
                r.push(b);
                proof {
                    assert forall|x: int| heaviest_of_label(labels@, weights@, x) && (labels@[x] < l + 1 || (done && false)) implies r@.contains(x as usize) by {
                        if labels@[x] < l {
                            assert(before.contains(x as usize));
                            let k = choose|k: int| 0 <= k < before.len() && before[k] == x as usize;
                            assert(r@[k] == x as usize);
                        } else {
                            assert(labels@[x] == l);
                            assert(x == b as int);
                            assert(r@[before.len() as int] == b);
                        }
                    }
                }
            },
            None => {
                proof {
                    assert forall|x: int| heaviest_of_label(labels@, weights@, x) && labels@[x] < l + 1 implies r@.contains(x as usize) by {
                        if labels@[x] == l {
                            assert(labels@[x] != l);
                        }
                    }
                }
            },
        }
        if l == max_label {
            done = true;
            proof {
                assert forall|x: int| heaviest_of_label(labels@, weights@, x) implies r@.contains(x as usize) by {
                    assert(labels@[x] <= max_label);
                }
            }
        } else {
            l = l + 1;
        }
    }
    r
}

/// Whether `a < b` holds of the floats with these bits (false when either
/// is a NaN).
pub open spec fn float_below(a: u32, b: u32) -> bool {
    !is_nan_bits(a) && !is_nan_bits(b) && order_key(a) < order_key(b)
}

/// The number of leading dissimilarities (as float bits) below the
/// threshold: the dendrogram steps a cut at the threshold takes.
pub fn count_below_threshold(dissimilarities: &[u32], threshold: u32) -> (r: usize)
    ensures
        r <= dissimilarities@.len(),
        forall|k: int| 0 <= k < r ==> float_below(#[trigger] dissimilarities@[k], threshold),
        r < dissimilarities@.len() ==> !float_below(dissimilarities@[r as int], threshold),
{
    let t = sample_order_key(threshold);
    let mut i: usize = 0;
    while i < dissimilarities.len()
        invariant
            i <= dissimilarities@.len(),
            t == order_key(threshold),
            forall|k: int| 0 <= k < i ==> float_below(#[trigger] dissimilarities@[k], threshold),
        decreases dissimilarities@.len() - i,
    {
        let d = sample_order_key(dissimilarities[i]);
        if d == 0 || t == 0 || d >= t {
            return i;
        }
        i = i + 1;
    }
    i
}

} // verus!
