//! What holds of every run of the clustering engine.

use super::clusters::{
    cluster_of, cluster_precedes, is_cluster, is_cluster_list, lemma_cluster_list_unique,
};
use super::partition::{
    connect, connections_made, covered, final_partition, halts_at, has_label, indices_where,
    is_labelled, last_connection, lemma_connect, lemma_connections_made, lemma_count_extremes,
    lemma_first_halt, lemma_indices_counted, lemma_partition_after, partition_after,
    valid_connections, well_formed, Partition,
};
use super::{connection, is_connection, is_distance_table, Connection, Xyz};
use vstd::prelude::*;
use vstd::set_lib::lemma_len_subset;

verus! {

/// `clusters` and `last` are what the engine owes for `n` points, the
/// connections and the budget: the cluster list of the partition in which
/// the work ends, and the two points of the connection made last.
pub open spec fn is_outcome(
    n: nat,
    connections: Seq<Connection>,
    budget: nat,
    clusters: Seq<Set<usize>>,
    last: (usize, usize),
) -> bool {
    &&& is_cluster_list(final_partition(n, connections, budget).labels, clusters)
    &&& last == last_connection(n, connections, budget)
}

/// The same points, connections and budget always give the same clusters,
/// in the same order, and the same last connection: whatever two runs
/// return is equal.
pub proof fn lemma_deterministic(
    n: nat,
    connections: Seq<Connection>,
    budget: nat,
    first: (Seq<Set<usize>>, (usize, usize)),
    second: (Seq<Set<usize>>, (usize, usize)),
)
    requires
        is_outcome(n, connections, budget, first.0, first.1),
        is_outcome(n, connections, budget, second.0, second.1),
    ensures
        first == second,
{
    lemma_cluster_list_unique(
        final_partition(n, connections, budget).labels,
        first.0,
        second.0,
    );
}

/// The indices that stand in some cluster of the list.
pub open spec fn clustered_indices(clusters: Seq<Set<usize>>) -> Set<usize> {
    Set::new(|i: usize| exists|c: int| 0 <= c < clusters.len() && (#[trigger] clusters[c]).contains(i))
}

/// The clusters of a list hold, between them, the labelled points.
pub proof fn lemma_clustered_are_labelled(labels: Seq<nat>, clusters: Seq<Set<usize>>)
    requires
        is_cluster_list(labels, clusters),
    ensures
        clustered_indices(clusters) == indices_where(labels, is_labelled()),
{
    let all = clustered_indices(clusters);
    let marked = indices_where(labels, is_labelled());
    assert forall|i: usize| all.contains(i) implies marked.contains(i) by {
        let c = choose|c: int| 0 <= c < clusters.len() && (#[trigger] clusters[c]).contains(i);
        assert(is_cluster(labels, clusters[c]));
    }
    assert forall|i: usize| marked.contains(i) implies all.contains(i) by {
        assert(clusters.contains(cluster_of(labels, i as int)));
        let c = choose|c: int|
            0 <= c < clusters.len() && clusters[c] == cluster_of(labels, i as int);
        assert(clusters[c].contains(i));
    }
    assert(all =~= marked);
}

/// The clusters returned never hold more distinct points than there are
/// points, nor more than two for each connection made; and no more
/// connections are made than the budget allows or the list holds.
pub proof fn lemma_completeness_bound(
    n: nat,
    connections: Seq<Connection>,
    budget: nat,
    clusters: Seq<Set<usize>>,
)
    requires
        n <= usize::MAX,
        valid_connections(n, connections),
        is_cluster_list(final_partition(n, connections, budget).labels, clusters),
    ensures
        clustered_indices(clusters).finite(),
        clustered_indices(clusters).len() <= n,
        clustered_indices(clusters).len() <= 2 * connections_made(n, connections, budget),
        connections_made(n, connections, budget) <= budget,
        connections_made(n, connections, budget) <= connections.len(),
{
    lemma_connections_made(n, connections, budget);
    let made = connections_made(n, connections, budget);
    lemma_partition_after(n, connections, made);
    let labels = final_partition(n, connections, budget).labels;
    lemma_clustered_are_labelled(labels, clusters);
    lemma_indices_counted(labels, is_labelled());
}

/// A connection leaves two points that shared a cluster in one cluster,
/// and gives a label to the two points it names and to no other point that
/// had none.
pub proof fn lemma_connect_keeps(p: Partition, f: int, t: int)
    requires
        well_formed(p),
        0 <= f < t < p.labels.len(),
    ensures
        forall|i: int, j: int|
            0 <= i < p.labels.len() && 0 <= j < p.labels.len() && p.labels[i] != 0 && p.labels[i]
                == p.labels[j] ==> #[trigger] connect(p, f, t).labels[i] != 0 && connect(
                p,
                f,
                t,
            ).labels[i] == #[trigger] connect(p, f, t).labels[j],
        forall|i: int|
            0 <= i < p.labels.len() ==> (#[trigger] connect(p, f, t).labels[i] != 0 <==> (
            p.labels[i] != 0 || i == f || i == t)),
{
    lemma_connect(p, f, t);
}

/// Points that share a cluster after `k` connections still share one after
/// any later connection.
pub proof fn lemma_clusters_only_grow(n: nat, connections: Seq<Connection>, k: nat, later: nat)
    requires
        valid_connections(n, connections),
        k <= later <= connections.len(),
    ensures
        forall|i: int, j: int|
            0 <= i < n && 0 <= j < n && partition_after(n, connections, k).labels[i] != 0
                && partition_after(n, connections, k).labels[i] == partition_after(
                n,
                connections,
                k,
            ).labels[j] ==> #[trigger] partition_after(n, connections, later).labels[i] != 0
                && partition_after(n, connections, later).labels[i] == #[trigger] partition_after(
                n,
                connections,
                later,
            ).labels[j],
    decreases later - k,
{
    if k < later {
        let early = partition_after(n, connections, k).labels;
        let before = partition_after(n, connections, (later - 1) as nat);
        let after = partition_after(n, connections, later);
        lemma_clusters_only_grow(n, connections, k, (later - 1) as nat);
        lemma_partition_after(n, connections, (later - 1) as nat);
        let c = connections[later - 1];
        lemma_connect_keeps(before, c.0 as int, c.1 as int);
        assert forall|i: int, j: int|
            0 <= i < n && 0 <= j < n && early[i] != 0 && early[i] == early[j] implies #[trigger] after.labels[i]
            != 0 && after.labels[i] == #[trigger] after.labels[j] by {
            assert(before.labels[i] != 0 && before.labels[i] == before.labels[j]);
        }
    }
}

/// One of the first `k` connections names the point at `i`.
pub open spec fn touched(connections: Seq<Connection>, k: nat, i: int) -> bool {
    exists|j: int| 0 <= j < k && ((#[trigger] connections[j]).0 == i || connections[j].1 == i)
}

/// A point is in a cluster if and only if a connection that was made has
/// touched it.
pub proof fn lemma_labelled_iff_touched(n: nat, connections: Seq<Connection>, k: nat, i: int)
    requires
        valid_connections(n, connections),
        k <= connections.len(),
        0 <= i < n,
    ensures
        partition_after(n, connections, k).labels[i] != 0 <==> touched(connections, k, i),
    decreases k,
{
    if k == 0 {
    } else {
        let before = partition_after(n, connections, (k - 1) as nat);
        lemma_labelled_iff_touched(n, connections, (k - 1) as nat, i);
        lemma_partition_after(n, connections, (k - 1) as nat);
        let c = connections[k - 1];
        lemma_connect_keeps(before, c.0 as int, c.1 as int);
        if touched(connections, (k - 1) as nat, i) {
            let j = choose|j: int|
                0 <= j < k - 1 && ((#[trigger] connections[j]).0 == i || connections[j].1 == i);
            assert(0 <= j < k && (connections[j].0 == i || connections[j].1 == i));
        }
        if c.0 == i || c.1 == i {
            assert(0 <= k - 1 < k && (connections[k - 1].0 == i || connections[k - 1].1 == i));
        }
        if touched(connections, k, i) {
            let j = choose|j: int|
                0 <= j < k && ((#[trigger] connections[j]).0 == i || connections[j].1 == i);
            if j < k - 1 {
                assert(touched(connections, (k - 1) as nat, i));
            }
        }
    }
}

/// A larger budget never makes fewer connections.
pub proof fn lemma_made_monotone(
    n: nat,
    connections: Seq<Connection>,
    smaller: nat,
    larger: nat,
)
    requires
        smaller <= larger,
    ensures
        connections_made(n, connections, smaller) <= connections_made(n, connections, larger),
{
    lemma_connections_made(n, connections, smaller);
    lemma_connections_made(n, connections, larger);
    let m = connections_made(n, connections, larger);
    assert(halts_at(n, connections, smaller, m));
}

/// Raising the budget, with the points and the connections as they are,
/// only lets clusters grow: every cluster under the smaller budget lies
/// within a cluster under the larger one, so the largest cluster does not
/// get smaller. Once the smaller budget has put every point in a cluster,
/// the larger one returns the very same list, so the number of clusters
/// does not rise.
pub proof fn lemma_budget_monotone(
    n: nat,
    connections: Seq<Connection>,
    smaller: nat,
    larger: nat,
    few: Seq<Set<usize>>,
    many: Seq<Set<usize>>,
)
    requires
        n <= usize::MAX,
        valid_connections(n, connections),
        smaller <= larger,
        is_cluster_list(final_partition(n, connections, smaller).labels, few),
        is_cluster_list(final_partition(n, connections, larger).labels, many),
    ensures
        forall|c: int|
            0 <= c < few.len() ==> exists|e: int|
                0 <= e < many.len() && (#[trigger] few[c]).subset_of(#[trigger] many[e]),
        few.len() > 0 ==> many.len() > 0 && few[0].len() <= many[0].len(),
        covered(final_partition(n, connections, smaller).labels) == n ==> many == few && many.len()
            <= few.len(),
{
    let m1 = connections_made(n, connections, smaller);
    let m2 = connections_made(n, connections, larger);
    lemma_made_monotone(n, connections, smaller, larger);
    lemma_connections_made(n, connections, smaller);
    lemma_connections_made(n, connections, larger);
    lemma_clusters_only_grow(n, connections, m1, m2);
    lemma_partition_after(n, connections, m1);
    lemma_partition_after(n, connections, m2);
    let la = final_partition(n, connections, smaller).labels;
    let lb = final_partition(n, connections, larger).labels;
    assert forall|c: int| 0 <= c < few.len() implies exists|e: int|
        0 <= e < many.len() && (#[trigger] few[c]).subset_of(#[trigger] many[e]) by {
        assert(is_cluster(la, few[c]));
        let i = choose|i: int|
            0 <= i < la.len() && la[i] != 0 && few[c] == #[trigger] cluster_of(la, i);
        assert(lb[i] != 0 && lb[i] == lb[i]);
        assert(many.contains(cluster_of(lb, i)));
        let e = choose|e: int| 0 <= e < many.len() && many[e] == cluster_of(lb, i);
        assert forall|x: usize| few[c].contains(x) implies many[e].contains(x) by {
            assert(la[x as int] == la[i]);
            assert(lb[x as int] != 0 && lb[x as int] == lb[i]);
        }
        assert(few[c].subset_of(many[e]));
    }
    if few.len() > 0 {
        let e = choose|e: int| 0 <= e < many.len() && (#[trigger] few[0]).subset_of(#[trigger] many[e]);
        assert(is_cluster(lb, many[e]));
        let i = choose|i: int|
            0 <= i < lb.len() && lb[i] != 0 && many[e] == #[trigger] cluster_of(lb, i);
        lemma_indices_counted(lb, has_label(lb[i]));
        lemma_len_subset(few[0], many[e]);
        if e > 0 {
            assert(cluster_precedes(many[0], many[e]));
        }
    }
    if covered(la) == n {
        assert(halts_at(n, connections, larger, m1));
        assert forall|j: nat| j < m1 implies !#[trigger] halts_at(n, connections, larger, j) by {
            assert(!halts_at(n, connections, smaller, j));
        }
        lemma_first_halt(n, connections, larger, m1);
        lemma_cluster_list_unique(la, few, many);
    }
}

/// With a budget that lasts for the whole list, every point that some
/// connection names ends up in a cluster.
pub proof fn lemma_full_budget_covers(
    n: nat,
    connections: Seq<Connection>,
    budget: nat,
    clusters: Seq<Set<usize>>,
    i: usize,
)
    requires
        n <= usize::MAX,
        valid_connections(n, connections),
        budget >= connections.len(),
        is_cluster_list(final_partition(n, connections, budget).labels, clusters),
        i < n,
        touched(connections, connections.len(), i as int),
    ensures
        clustered_indices(clusters).contains(i),
{
    lemma_connections_made(n, connections, budget);
    let made = connections_made(n, connections, budget);
    let labels = final_partition(n, connections, budget).labels;
    lemma_partition_after(n, connections, made);
    if made >= connections.len() {
        lemma_labelled_iff_touched(n, connections, made, i as int);
    } else {
        lemma_count_extremes(labels, is_labelled());
        assert(is_labelled()(labels[i as int]));
    }
    lemma_clustered_are_labelled(labels, clusters);
    assert(indices_where(labels, is_labelled()).contains(i));
}

/// With the distance table of two or more points and a budget that lasts
/// for the whole table, every point ends up in a cluster.
pub proof fn lemma_full_table_covers_all(
    points: Seq<Xyz>,
    table: Seq<Connection>,
    budget: nat,
    clusters: Seq<Set<usize>>,
    i: usize,
)
    requires
        2 <= points.len() <= usize::MAX,
        is_distance_table(points, table),
        budget >= table.len(),
        is_cluster_list(final_partition(points.len(), table, budget).labels, clusters),
        i < points.len(),
    ensures
        valid_connections(points.len(), table),
        clustered_indices(clusters).contains(i),
{
    assert forall|k: int| 0 <= k < table.len() implies (#[trigger] table[k]).0 < table[k].1
        < points.len() by {
        assert(is_connection(points, table[k]));
    }
    let (a, b) = if i == 0 {
        (0int, 1int)
    } else {
        (0int, i as int)
    };
    assert(table.contains(connection(points, a, b)));
    let k = choose|k: int| 0 <= k < table.len() && table[k] == connection(points, a, b);
    assert(table[k].0 == i || table[k].1 == i);
    assert(touched(table, table.len(), i as int));
    lemma_full_budget_covers(points.len(), table, budget, clusters, i);
}

} // verus!
