//! Reading the clusters out of a partition, largest first.

use super::partition::{
    count_where, has_label, indices_where, lemma_count_bound, lemma_count_positive,
    lemma_indices_counted, members, well_formed, PartitionState,
};
use crate::common::sorting::{
    ascends, lemma_ascending_unique, lemma_ordered_distinct_is_strict, lemma_rearranged,
    sort_ranked, strictly_ordered, Ranked,
};
use std::collections::HashSet;
use vstd::prelude::*;

verus! {

broadcast use vstd::std_specs::hash::group_hash_axioms;

/// The indices of the points that share the label of the point at `i`.
pub open spec fn cluster_of(labels: Seq<nat>, i: int) -> Set<usize> {
    indices_where(labels, has_label(labels[i]))
}

/// `s` is the cluster of some point that has one.
pub open spec fn is_cluster(labels: Seq<nat>, s: Set<usize>) -> bool {
    exists|i: int| 0 <= i < labels.len() && labels[i] != 0 && s == #[trigger] cluster_of(labels, i)
}

/// `a` is listed before `b`: it is the larger of the two, or they are of one
/// size and `a` has the smaller least member.
pub open spec fn cluster_precedes(a: Set<usize>, b: Set<usize>) -> bool {
    a.len() > b.len() || (a.len() == b.len() && exists|m: usize| #[trigger]
        a.contains(m) && forall|x: usize| b.contains(x) ==> m < x)
}

/// `clusters` lists the clusters of the partition: each of them once,
/// nothing else, the larger ones first, and those of one size in ascending
/// order of their least member. Points without a label are in none.
pub open spec fn is_cluster_list(labels: Seq<nat>, clusters: Seq<Set<usize>>) -> bool {
    &&& forall|c: int| 0 <= c < clusters.len() ==> is_cluster(labels, #[trigger] clusters[c])
    &&& forall|i: int|
        0 <= i < labels.len() && labels[i] != 0 ==> clusters.contains(
            #[trigger] cluster_of(labels, i),
        )
    &&& forall|c: int, e: int|
        0 <= c < e < clusters.len() ==> cluster_precedes(#[trigger] clusters[c], #[trigger] clusters[e])
}

/// A partition has one cluster list only: whoever reads the clusters of the
/// same partition gets the same sets in the same order.
pub proof fn lemma_cluster_list_unique(
    labels: Seq<nat>,
    first: Seq<Set<usize>>,
    second: Seq<Set<usize>>,
)
    requires
        is_cluster_list(labels, first),
        is_cluster_list(labels, second),
    ensures
        first == second,
{
    let before = |a: Set<usize>, b: Set<usize>| cluster_precedes(a, b);
    assert forall|a: Set<usize>, b: Set<usize>| #[trigger] before(a, b) implies !before(b, a) by {
        if cluster_precedes(b, a) {
            let m = choose|m: usize| #[trigger]
                a.contains(m) && forall|x: usize| b.contains(x) ==> m < x;
            let w = choose|w: usize| #[trigger]
                b.contains(w) && forall|x: usize| a.contains(x) ==> w < x;
            assert(m < w && w < m);
        }
    }
    assert(ascends(first, before)) by {
        assert forall|i: int, j: int| 0 <= i < j < first.len() implies before(
            #[trigger] first[i],
            #[trigger] first[j],
        ) by {
            assert(cluster_precedes(first[i], first[j]));
        }
    }
    assert(ascends(second, before)) by {
        assert forall|i: int, j: int| 0 <= i < j < second.len() implies before(
            #[trigger] second[i],
            #[trigger] second[j],
        ) by {
            assert(cluster_precedes(second[i], second[j]));
        }
    }
    assert forall|c: int| 0 <= c < first.len() implies second.contains(#[trigger] first[c]) by {
        assert(is_cluster(labels, first[c]));
        let i = choose|i: int|
            0 <= i < labels.len() && labels[i] != 0 && first[c] == #[trigger] cluster_of(labels, i);
        assert(second.contains(cluster_of(labels, i)));
    }
    assert forall|c: int| 0 <= c < second.len() implies first.contains(#[trigger] second[c]) by {
        assert(is_cluster(labels, second[c]));
        let i = choose|i: int|
            0 <= i < labels.len() && labels[i] != 0 && second[c] == #[trigger] cluster_of(
                labels,
                i,
            );
        assert(first.contains(cluster_of(labels, i)));
    }
    lemma_ascending_unique(first, second, before);
}

/// The cluster list of the partition.
pub open spec fn cluster_list(labels: Seq<nat>) -> Seq<Set<usize>> {
    choose|clusters: Seq<Set<usize>>| is_cluster_list(labels, clusters)
}

/// What each of the sets holds.
pub open spec fn set_views(clusters: Seq<HashSet<usize>>) -> Seq<Set<usize>> {
    Seq::new(clusters.len(), |c: int| clusters[c]@)
}

/// The size of a cluster and the least index in it.
#[derive(Clone, Copy)]
pub struct ClusterRank {
    pub size: usize,
    pub first: usize,
}

impl Ranked for ClusterRank {
    /// Larger clusters come first; among clusters of one size, the one with
    /// the smaller least index.
    open spec fn precedes(self, other: Self) -> bool {
        self.size > other.size || (self.size == other.size && self.first < other.first)
    }

    fn comes_before(&self, other: &Self) -> (b: bool) {
        self.size > other.size || (self.size == other.size && self.first < other.first)
    }

    proof fn lemma_strict_total(a: Self, b: Self, c: Self) {
    }
}

/// `i` is the least index that carries the label `l`.
pub open spec fn first_with(labels: Seq<nat>, l: nat, i: int) -> bool {
    &&& 0 <= i < labels.len()
    &&& labels[i] == l
    &&& forall|j: int| 0 <= j < i ==> #[trigger] labels[j] != l
}

/// `r` gives the size and the least index of a cluster of the partition.
pub open spec fn describes(labels: Seq<nat>, r: ClusterRank) -> bool {
    &&& first_with(labels, labels[r.first as int], r.first as int)
    &&& labels[r.first as int] != 0
    &&& r.size == members(labels, labels[r.first as int])
}

/// Some rank of `ranks` stands for the cluster with the label `l`.
pub open spec fn rank_with_label(ranks: Seq<ClusterRank>, labels: Seq<nat>, l: nat) -> bool {
    exists|c: int| 0 <= c < ranks.len() && labels[(#[trigger] ranks[c]).first as int] == l
}

/// Each cluster of the partition has one rank in `ranks`, and every rank
/// stands for a cluster.
pub open spec fn ranks_all(labels: Seq<nat>, ranks: Seq<ClusterRank>) -> bool {
    &&& forall|c: int| 0 <= c < ranks.len() ==> describes(labels, #[trigger] ranks[c])
    &&& forall|i: int|
        0 <= i < labels.len() && labels[i] != 0 ==> rank_with_label(ranks, labels, #[trigger] labels[i])
    &&& ranks.no_duplicates()
}

/// Sets read off ranks in strict order form the cluster list.
proof fn lemma_ranked_clusters(
    labels: Seq<nat>,
    ranks: Seq<ClusterRank>,
    clusters: Seq<Set<usize>>,
)
    requires
        labels.len() <= usize::MAX,
        ranks_all(labels, ranks),
        strictly_ordered(ranks),
        clusters.len() == ranks.len(),
        forall|c: int|
            0 <= c < ranks.len() ==> #[trigger] clusters[c] == cluster_of(
                labels,
                ranks[c].first as int,
            ),
    ensures
        is_cluster_list(labels, clusters),
{
    assert forall|c: int| 0 <= c < clusters.len() implies is_cluster(
        labels,
        #[trigger] clusters[c],
    ) by {
        assert(describes(labels, ranks[c]));
        assert(clusters[c] == cluster_of(labels, ranks[c].first as int));
    }
    assert forall|i: int| 0 <= i < labels.len() && labels[i] != 0 implies clusters.contains(
        #[trigger] cluster_of(labels, i),
    ) by {
        assert(rank_with_label(ranks, labels, labels[i]));
        let c = choose|c: int|
            0 <= c < ranks.len() && labels[(#[trigger] ranks[c]).first as int] == labels[i];
        assert(clusters[c] == cluster_of(labels, ranks[c].first as int));
        assert(clusters[c] == cluster_of(labels, i));
    }
    assert forall|c: int, e: int| 0 <= c < e < clusters.len() implies cluster_precedes(
        #[trigger] clusters[c],
        #[trigger] clusters[e],
    ) by {
        let rc = ranks[c];
        let re = ranks[e];
        assert(describes(labels, rc) && describes(labels, re));
        assert(rc.precedes(re));
        lemma_indices_counted(labels, has_label(labels[rc.first as int]));
        lemma_indices_counted(labels, has_label(labels[re.first as int]));
        assert(clusters[c].len() == rc.size);
        assert(clusters[e].len() == re.size);
        if rc.size == re.size {
            assert(clusters[c].contains(rc.first));
            assert forall|x: usize| clusters[e].contains(x) implies rc.first < x by {
                if x < re.first {
                    assert(labels[x as int] != labels[re.first as int]);
                }
            }
        }
    }
}

/// Counts the members of every cluster and finds the least index of each.
fn cluster_ranks(state: &PartitionState) -> (ranks: Vec<ClusterRank>)
    requires
        state.wf(),
    ensures
        ranks_all(state@.labels, ranks@),
{
    proof {
        state.lemma_wf();
    }
    let ghost labels = state@.labels;
    let n = state.len();
    let next = state.next_label();
    let mut sizes: Vec<usize> = vec![0usize; next];
    let mut firsts: Vec<usize> = vec![0usize; next];
    let mut k: usize = 0;
    while k < n
        invariant
            k <= n,
            n == labels.len(),
            labels == state@.labels,
            well_formed(state@),
            next == state@.next_label,
            sizes.len() == next,
            firsts.len() == next,
            forall|l: int|
                0 <= l < next ==> #[trigger] sizes[l] == count_where(
                    labels.take(k as int),
                    has_label(l as nat),
                ),
            forall|l: int|
                0 <= l < next && sizes[l] > 0 ==> first_with(labels, l as nat, #[trigger] firsts[l] as int)
                    && firsts[l] < k,
        decreases n - k,
    {
        let l = state.label(k);
        assert(labels[k as int] < next);
        proof {
            assert(labels.take(k + 1).drop_last() =~= labels.take(k as int));
            lemma_count_bound(labels.take(k as int), has_label(l as nat));
            if sizes[l as int] == 0 {
                assert forall|j: int| 0 <= j < k implies #[trigger] labels[j] != l as nat by {
                    if labels[j] == l as nat {
                        lemma_count_positive(labels.take(k as int), has_label(l as nat), j);
                    }
                }
            }
        }
        if sizes[l] == 0 {
            firsts[l] = k;
        }
        sizes[l] = sizes[l] + 1;
        k = k + 1;
    }
    assert(labels.take(n as int) =~= labels);
    let mut ranks: Vec<ClusterRank> = Vec::new();
    let mut l: usize = 1;
    while l < next
        invariant
            1 <= l,
            next >= 1,
            l <= next,
            n == labels.len(),
            sizes.len() == next,
            firsts.len() == next,
            forall|x: int| 0 <= x < next ==> #[trigger] sizes[x] == members(labels, x as nat),
            forall|x: int|
                0 <= x < next && sizes[x] > 0 ==> first_with(labels, x as nat, #[trigger] firsts[x] as int),
            forall|c: int|
                0 <= c < ranks.len() ==> describes(labels, #[trigger] ranks[c]) && labels[ranks[c].first as int]
                    < l,
            forall|x: int|
                1 <= x < l && sizes[x] > 0 ==> #[trigger] rank_with_label(ranks@, labels, x as nat),
            ranks@.no_duplicates(),
        decreases next - l,
    {
        let ghost before = ranks@;
        if sizes[l] > 0 {
            let r = ClusterRank { size: sizes[l], first: firsts[l] };
            ranks.push(r);
            proof {
                assert(describes(labels, r));
                assert forall|x: int| 1 <= x < l + 1 && sizes[x] > 0 implies #[trigger] rank_with_label(
                    ranks@,
                    labels,
                    x as nat,
                ) by {
                    if x < l {
                        assert(rank_with_label(before, labels, x as nat));
                        let c = choose|c: int|
                            0 <= c < before.len() && labels[(#[trigger] before[c]).first as int]
                                == x as nat;
                        assert(ranks@[c] == before[c]);
                    } else {
                        assert(ranks@[before.len() as int] == r);
                    }
                }
                assert forall|c: int| 0 <= c < ranks.len() implies describes(
                    labels,
                    #[trigger] ranks[c],
                ) && labels[ranks[c].first as int] < l + 1 by {
                    if c < before.len() {
                        assert(ranks@[c] == before[c]);
                    }
                }
                assert forall|c: int, e: int|
                    0 <= c < ranks.len() && 0 <= e < ranks.len() && c != e implies ranks@[c]
                    != ranks@[e] by {
                    if c < before.len() {
                        assert(ranks@[c] == before[c]);
                    }
                    if e < before.len() {
                        assert(ranks@[e] == before[e]);
                    }
                }
            }
        }
        l = l + 1;
    }
    proof {
        assert forall|i: int| 0 <= i < labels.len() && labels[i] != 0 implies rank_with_label(
            ranks@,
            labels,
            #[trigger] labels[i],
        ) by {
            lemma_count_positive(labels, has_label(labels[i]), i);
            assert(sizes[labels[i] as int] > 0);
        }
    }
    ranks
}

/// Collects the indices of the points that share the label of the point
/// at `first`.
fn members_of(state: &PartitionState, first: usize) -> (s: HashSet<usize>)
    requires
        first < state@.labels.len(),
    ensures
        s@ == cluster_of(state@.labels, first as int),
{
    let ghost labels = state@.labels;
    let n = state.len();
    let l = state.label(first);
    let mut s: HashSet<usize> = HashSet::new();
    let mut j: usize = 0;
    assert(s@ =~= indices_where(labels.take(0), has_label(l as nat)));
    while j < n
        invariant
            j <= n,
            n == labels.len(),
            labels == state@.labels,
            s@ == indices_where(labels.take(j as int), has_label(l as nat)),
        decreases n - j,
    {
        let ghost before = s@;
        if state.label(j) == l {
            s.insert(j);
            assert(s@ =~= indices_where(labels.take(j + 1), has_label(l as nat)));
        } else {
            assert(s@ =~= indices_where(labels.take(j + 1), has_label(l as nat)));
        }
        j = j + 1;
    }
    assert(labels.take(n as int) =~= labels);
    s
}

/// Returns the clusters of the partition, largest first; clusters of one
/// size stand in ascending order of their least member.
pub fn clusters(state: &PartitionState) -> (r: Vec<HashSet<usize>>)
    requires
        state.wf(),
    ensures
        is_cluster_list(state@.labels, set_views(r@)),
        set_views(r@) == cluster_list(state@.labels),
{
    proof {
        state.lemma_wf();
    }
    let ghost labels = state@.labels;
    let n = state.len();
    let unsorted = cluster_ranks(state);
    let ranks = sort_ranked(&unsorted);
    proof {
        lemma_rearranged(unsorted@, ranks@);
        lemma_ordered_distinct_is_strict(ranks@);
        assert forall|c: int| 0 <= c < ranks@.len() implies describes(labels, #[trigger] ranks@[c]) by {
            assert(ranks@.contains(ranks@[c]));
            assert(unsorted@.contains(ranks@[c]));
        }
        assert forall|i: int| 0 <= i < labels.len() && labels[i] != 0 implies rank_with_label(
            ranks@,
            labels,
            #[trigger] labels[i],
        ) by {
            assert(rank_with_label(unsorted@, labels, labels[i]));
            let c = choose|c: int|
                0 <= c < unsorted@.len() && labels[(#[trigger] unsorted@[c]).first as int]
                    == labels[i];
            assert(unsorted@.contains(unsorted@[c]));
            assert(ranks@.contains(unsorted@[c]));
            let e = choose|e: int| 0 <= e < ranks@.len() && ranks@[e] == unsorted@[c];
            assert(labels[ranks@[e].first as int] == labels[i]);
        }
        assert(ranks_all(labels, ranks@));
    }
    let mut result: Vec<HashSet<usize>> = Vec::new();
    let mut c: usize = 0;
    while c < ranks.len()
        invariant
            c <= ranks.len(),
            result.len() == c,
            labels == state@.labels,
            labels.len() == n,
            ranks_all(labels, ranks@),
            forall|e: int|
                0 <= e < c ==> (#[trigger] result[e])@ == cluster_of(labels, ranks[e].first as int),
        decreases ranks.len() - c,
    {
        assert(describes(labels, ranks@[c as int]));
        let s = members_of(state, ranks[c].first);
        result.push(s);
        c = c + 1;
    }
    proof {
        lemma_ranked_clusters(labels, ranks@, set_views(result@));
        lemma_cluster_list_unique(labels, set_views(result@), cluster_list(labels));
    }
    result
}

} // verus!
