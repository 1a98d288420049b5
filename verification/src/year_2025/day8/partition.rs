//! The partition of the points into labelled clusters, and how one
//! connection changes it.

use super::Connection;
use vstd::prelude::*;

verus! {

/// The labels of the points, by index, and the next label to hand out.
///
/// Label 0 marks a point that no connection has touched yet; the points
/// that share a label other than 0 form a cluster.
pub ghost struct Partition {
    pub labels: Seq<nat>,
    pub next_label: nat,
}

/// How many entries of `s` satisfy `p`.
pub open spec fn count_where(s: Seq<nat>, p: spec_fn(nat) -> bool) -> nat
    decreases s.len(),
{
    if s.len() == 0 {
        0
    } else {
        count_where(s.drop_last(), p) + if p(s.last()) {
            1nat
        } else {
            0nat
        }
    }
}

/// The labels of points that belong to a cluster.
pub open spec fn is_labelled() -> spec_fn(nat) -> bool {
    |l: nat| l != 0
}

/// The one label `x`.
pub open spec fn has_label(x: nat) -> spec_fn(nat) -> bool {
    |l: nat| l == x
}

/// The number of points that belong to a cluster.
pub open spec fn covered(labels: Seq<nat>) -> nat {
    count_where(labels, is_labelled())
}

/// The number of points that carry the label `l`.
pub open spec fn members(labels: Seq<nat>, l: nat) -> nat {
    count_where(labels, has_label(l))
}

/// `n` points, none of them in a cluster.
pub open spec fn fresh(n: nat) -> Partition {
    Partition { labels: Seq::new(n, |i: int| 0nat), next_label: 1 }
}

/// Every point labelled `from` gets the label `to`.
pub open spec fn relabel(labels: Seq<nat>, from: nat, to: nat) -> Seq<nat> {
    Seq::new(
        labels.len(),
        |i: int|
            if labels[i] == from {
                to
            } else {
                labels[i]
            },
    )
}

/// The partition after the points at `f` and `t` were connected.
///
/// Two points without a cluster found a new one under the next label. A
/// point without a cluster joins the cluster of the other. Two points of
/// one cluster change nothing. Two points of different clusters merge them:
/// the cluster of `t` takes the label of `f`.
pub open spec fn connect(p: Partition, f: int, t: int) -> Partition {
    let lf = p.labels[f];
    let lt = p.labels[t];
    if lf == 0 && lt == 0 {
        Partition {
            labels: p.labels.update(f, p.next_label).update(t, p.next_label),
            next_label: p.next_label + 1,
        }
    } else if lt == 0 {
        Partition { labels: p.labels.update(t, lf), next_label: p.next_label }
    } else if lf == 0 {
        Partition { labels: p.labels.update(f, lt), next_label: p.next_label }
    } else if lf == lt {
        p
    } else {
        Partition { labels: relabel(p.labels, lt, lf), next_label: p.next_label }
    }
}

/// Labels are handed out in ascending order from 1, and every cluster that
/// was ever founded took two points.
pub open spec fn well_formed(p: Partition) -> bool {
    &&& p.next_label >= 1
    &&& forall|i: int| 0 <= i < p.labels.len() ==> #[trigger] p.labels[i] < p.next_label
    &&& 2 * (p.next_label - 1) <= covered(p.labels)
}

/// No more entries satisfy `p` than there are entries.
pub proof fn lemma_count_bound(s: Seq<nat>, p: spec_fn(nat) -> bool)
    ensures
        count_where(s, p) <= s.len(),
    decreases s.len(),
{
    if s.len() > 0 {
        lemma_count_bound(s.drop_last(), p);
    }
}

/// Where `p` holds of an entry of `a` exactly when `q` holds of the entry
/// of `b` at the same index, the two counts agree.
pub proof fn lemma_count_agree(
    a: Seq<nat>,
    p: spec_fn(nat) -> bool,
    b: Seq<nat>,
    q: spec_fn(nat) -> bool,
)
    requires
        a.len() == b.len(),
        forall|i: int| 0 <= i < a.len() ==> p(#[trigger] a[i]) == q(b[i]),
    ensures
        count_where(a, p) == count_where(b, q),
    decreases a.len(),
{
    if a.len() > 0 {
        assert(p(a[a.len() - 1]) == q(b[a.len() - 1]));
        assert forall|i: int| 0 <= i < a.drop_last().len() implies p(#[trigger] a.drop_last()[i])
            == q(b.drop_last()[i]) by {
            assert(p(a[i]) == q(b[i]));
        }
        lemma_count_agree(a.drop_last(), p, b.drop_last(), q);
    }
}

/// Writing `v` over the entry at `i` changes the count by what the old and
/// the new entry contribute.
pub proof fn lemma_count_update(s: Seq<nat>, p: spec_fn(nat) -> bool, i: int, v: nat)
    requires
        0 <= i < s.len(),
    ensures
        count_where(s.update(i, v), p) + (if p(s[i]) {
            1nat
        } else {
            0nat
        }) == count_where(s, p) + (if p(v) {
            1nat
        } else {
            0nat
        }),
    decreases s.len(),
{
    let u = s.update(i, v);
    if i == s.len() - 1 {
        assert(u.drop_last() =~= s.drop_last());
    } else {
        assert(u.drop_last() =~= s.drop_last().update(i, v));
        lemma_count_update(s.drop_last(), p, i, v);
    }
}

/// Where no entry satisfies `p`, the count is 0; where the count is the
/// length, every entry satisfies `p`.
pub proof fn lemma_count_extremes(s: Seq<nat>, p: spec_fn(nat) -> bool)
    ensures
        (forall|i: int| 0 <= i < s.len() ==> !p(#[trigger] s[i])) ==> count_where(s, p) == 0,
        count_where(s, p) == s.len() ==> (forall|i: int| 0 <= i < s.len() ==> p(#[trigger] s[i])),
    decreases s.len(),
{
    if s.len() > 0 {
        let d = s.drop_last();
        lemma_count_extremes(d, p);
        lemma_count_bound(d, p);
        if forall|i: int| 0 <= i < s.len() ==> !p(#[trigger] s[i]) {
            assert forall|i: int| 0 <= i < d.len() implies !p(#[trigger] d[i]) by {
                assert(d[i] == s[i]);
            }
        }
        if count_where(s, p) == s.len() {
            assert forall|i: int| 0 <= i < s.len() implies p(#[trigger] s[i]) by {
                if i < d.len() {
                    assert(d[i] == s[i]);
                }
            }
        }
    }
}

/// Where some entry satisfies `p`, the count is not 0.
pub proof fn lemma_count_positive(s: Seq<nat>, p: spec_fn(nat) -> bool, i: int)
    requires
        0 <= i < s.len(),
        p(s[i]),
    ensures
        count_where(s, p) > 0,
    decreases s.len(),
{
    if i < s.len() - 1 {
        assert(s.drop_last()[i] == s[i]);
        lemma_count_positive(s.drop_last(), p, i);
    }
}

/// The indices below `s.len()` whose entry satisfies `p`.
pub open spec fn indices_where(s: Seq<nat>, p: spec_fn(nat) -> bool) -> Set<usize> {
    Set::new(|j: usize| j < s.len() && p(s[j as int]))
}

/// `indices_where` is a finite set with `count_where` elements.
pub proof fn lemma_indices_counted(s: Seq<nat>, p: spec_fn(nat) -> bool)
    requires
        s.len() <= usize::MAX,
    ensures
        indices_where(s, p).finite(),
        indices_where(s, p).len() == count_where(s, p),
    decreases s.len(),
{
    if s.len() == 0 {
        assert(indices_where(s, p) =~= Set::<usize>::empty());
    } else {
        let d = s.drop_last();
        lemma_indices_counted(d, p);
        let top = (s.len() - 1) as usize;
        if p(s.last()) {
            assert(indices_where(s, p) =~= indices_where(d, p).insert(top));
        } else {
            assert(indices_where(s, p) =~= indices_where(d, p));
        }
    }
}

/// A fresh partition is well formed and covers nothing.
pub proof fn lemma_fresh(n: nat)
    ensures
        well_formed(fresh(n)),
        covered(fresh(n).labels) == 0,
        fresh(n).labels.len() == n,
{
    lemma_count_extremes(fresh(n).labels, is_labelled());
}

/// A connection keeps the partition well formed, and covers the points it
/// names that were not covered before.
pub proof fn lemma_connect(p: Partition, f: int, t: int)
    requires
        well_formed(p),
        0 <= f < t < p.labels.len(),
    ensures
        well_formed(connect(p, f, t)),
        connect(p, f, t).labels.len() == p.labels.len(),
        connect(p, f, t).labels[f] != 0,
        connect(p, f, t).labels[f] == connect(p, f, t).labels[t],
        covered(connect(p, f, t).labels) == covered(p.labels) + (if p.labels[f] == 0 {
            1nat
        } else {
            0nat
        }) + (if p.labels[t] == 0 {
            1nat
        } else {
            0nat
        }),
        connect(p, f, t).next_label == p.next_label + (if p.labels[f] == 0 && p.labels[t] == 0 {
            1nat
        } else {
            0nat
        }),
{
    let lf = p.labels[f];
    let lt = p.labels[t];
    let q = connect(p, f, t);
    if lf == 0 && lt == 0 {
        let mid = p.labels.update(f, p.next_label);
        lemma_count_update(p.labels, is_labelled(), f, p.next_label);
        lemma_count_update(mid, is_labelled(), t, p.next_label);
    } else if lt == 0 {
        lemma_count_update(p.labels, is_labelled(), t, lf);
    } else if lf == 0 {
        lemma_count_update(p.labels, is_labelled(), f, lt);
    } else if lf == lt {
    } else {
        lemma_count_agree(p.labels, is_labelled(), q.labels, is_labelled());
    }
}

/// Every connection names two points below `n`, the smaller index first.
pub open spec fn valid_connections(n: nat, connections: Seq<Connection>) -> bool {
    forall|k: int|
        0 <= k < connections.len() ==> (#[trigger] connections[k]).0 < connections[k].1 < n
}

/// The partition of `n` points after the first `k` connections were made.
pub open spec fn partition_after(n: nat, connections: Seq<Connection>, k: nat) -> Partition
    decreases k,
{
    if k == 0 {
        fresh(n)
    } else {
        connect(
            partition_after(n, connections, (k - 1) as nat),
            connections[k - 1].0 as int,
            connections[k - 1].1 as int,
        )
    }
}

/// After `k` connections the work ends: the budget is used up, no
/// connection is left, or every point is in a cluster.
pub open spec fn halts_at(n: nat, connections: Seq<Connection>, budget: nat, k: nat) -> bool {
    k >= budget || k >= connections.len() || covered(partition_after(n, connections, k).labels)
        >= n
}

/// The first count of connections, from `k` on, at which the work ends.
pub open spec fn connections_made_from(
    n: nat,
    connections: Seq<Connection>,
    budget: nat,
    k: nat,
) -> nat
    decreases connections.len() - k,
{
    if halts_at(n, connections, budget, k) {
        k
    } else {
        connections_made_from(n, connections, budget, k + 1)
    }
}

/// How many connections are made, each in its turn, before the work ends.
pub open spec fn connections_made(n: nat, connections: Seq<Connection>, budget: nat) -> nat {
    connections_made_from(n, connections, budget, 0)
}

/// The partition when the work has ended.
pub open spec fn final_partition(n: nat, connections: Seq<Connection>, budget: nat) -> Partition {
    partition_after(n, connections, connections_made(n, connections, budget))
}

/// The two points of the connection that was made last, or `(0, 0)` where
/// none was made.
pub open spec fn last_connection(n: nat, connections: Seq<Connection>, budget: nat) -> (
    usize,
    usize,
) {
    let made = connections_made(n, connections, budget);
    if made == 0 {
        (0, 0)
    } else {
        (connections[made - 1].0, connections[made - 1].1)
    }
}

/// The work ends at `connections_made_from`, and not between `k` and there.
pub proof fn lemma_connections_made_from(
    n: nat,
    connections: Seq<Connection>,
    budget: nat,
    k: nat,
)
    ensures
        k <= connections_made_from(n, connections, budget, k),
        halts_at(n, connections, budget, connections_made_from(n, connections, budget, k)),
        forall|j: nat|
            k <= j < connections_made_from(n, connections, budget, k) ==> !#[trigger] halts_at(
                n,
                connections,
                budget,
                j,
            ),
    decreases connections.len() - k,
{
    if !halts_at(n, connections, budget, k) {
        lemma_connections_made_from(n, connections, budget, k + 1);
    }
}

/// `connections_made` is the first count at which the work ends.
pub proof fn lemma_connections_made(n: nat, connections: Seq<Connection>, budget: nat)
    ensures
        halts_at(n, connections, budget, connections_made(n, connections, budget)),
        forall|j: nat|
            j < connections_made(n, connections, budget) ==> !#[trigger] halts_at(
                n,
                connections,
                budget,
                j,
            ),
        connections_made(n, connections, budget) <= budget,
        connections_made(n, connections, budget) <= connections.len(),
{
    lemma_connections_made_from(n, connections, budget, 0);
    let made = connections_made(n, connections, budget);
    if made > 0 {
        assert(!halts_at(n, connections, budget, (made - 1) as nat));
    }
}

/// A count at which the work ends, and before which it does not, is
/// `connections_made`.
pub proof fn lemma_first_halt(n: nat, connections: Seq<Connection>, budget: nat, k: nat)
    requires
        halts_at(n, connections, budget, k),
        forall|j: nat| j < k ==> !#[trigger] halts_at(n, connections, budget, j),
    ensures
        connections_made(n, connections, budget) == k,
{
    lemma_connections_made(n, connections, budget);
    let made = connections_made(n, connections, budget);
    if made < k {
        assert(!halts_at(n, connections, budget, made));
    }
}

/// Valid connections keep the partition well formed, and each covers at
/// most two points more.
pub proof fn lemma_partition_after(n: nat, connections: Seq<Connection>, k: nat)
    requires
        valid_connections(n, connections),
        k <= connections.len(),
    ensures
        well_formed(partition_after(n, connections, k)),
        partition_after(n, connections, k).labels.len() == n,
        covered(partition_after(n, connections, k).labels) <= 2 * k,
        covered(partition_after(n, connections, k).labels) <= n,
    decreases k,
{
    if k == 0 {
        lemma_fresh(n);
    } else {
        let before = partition_after(n, connections, (k - 1) as nat);
        lemma_partition_after(n, connections, (k - 1) as nat);
        let c = connections[k - 1];
        lemma_connect(before, c.0 as int, c.1 as int);
    }
    lemma_count_bound(partition_after(n, connections, k).labels, is_labelled());
}

/// The clusters of a set of points while connections are made.
pub struct PartitionState {
    labels: Vec<usize>,
    next_label: usize,
    covered: usize,
}

impl View for PartitionState {
    type V = Partition;

    closed spec fn view(&self) -> Partition {
        Partition {
            labels: Seq::new(self.labels@.len(), |i: int| self.labels@[i] as nat),
            next_label: self.next_label as nat,
        }
    }
}

impl PartitionState {
    /// The state is a well-formed partition and its count of covered points
    /// is right.
    pub closed spec fn wf(&self) -> bool {
        &&& well_formed(self@)
        &&& self.covered == covered(self@.labels)
    }

    /// `n` points, none of them in a cluster.
    pub fn new(n: usize) -> (s: PartitionState)
        ensures
            s.wf(),
            s@ == fresh(n as nat),
    {
        let s = PartitionState { labels: vec![0usize; n], next_label: 1, covered: 0 };
        proof {
            lemma_fresh(n as nat);
            assert(s@.labels =~= fresh(n as nat).labels);
        }
        s
    }

    /// The number of points.
    pub fn len(&self) -> (n: usize)
        ensures
            n == self@.labels.len(),
    {
        self.labels.len()
    }

    /// The label of the point at `i`; 0 where it is in no cluster.
    pub fn label(&self, i: usize) -> (l: usize)
        requires
            i < self@.labels.len(),
        ensures
            l == self@.labels[i as int],
    {
        self.labels[i]
    }

    /// The label that the next new cluster will get.
    pub fn next_label(&self) -> (l: usize)
        ensures
            l == self@.next_label,
    {
        self.next_label
    }

    /// What `wf` says of the partition.
    pub proof fn lemma_wf(&self)
        requires
            self.wf(),
        ensures
            well_formed(self@),
    {
    }

    /// The number of points that belong to a cluster.
    pub fn covered(&self) -> (c: usize)
        requires
            self.wf(),
        ensures
            c == covered(self@.labels),
    {
        self.covered
    }

    /// Gives every point labelled `from` the label `to`.
    fn relabel(&mut self, from: usize, to: usize)
        ensures
            final(self)@.labels == relabel(old(self)@.labels, from as nat, to as nat),
            final(self)@.next_label == old(self)@.next_label,
            final(self).covered == old(self).covered,
    {
        let ghost before = self.labels@;
        let n = self.labels.len();
        let mut k: usize = 0;
        while k < n
            invariant
                k <= n,
                n == before.len(),
                self.labels@.len() == n,
                self.next_label == old(self).next_label,
                self.covered == old(self).covered,
                forall|j: int|
                    0 <= j < k ==> #[trigger] self.labels@[j] == (if before[j] == from {
                        to
                    } else {
                        before[j]
                    }),
                forall|j: int| k <= j < n ==> #[trigger] self.labels@[j] == before[j],
            decreases n - k,
        {
            if self.labels[k] == from {
                self.labels[k] = to;
            }
            k = k + 1;
        }
        proof {
            assert(self@.labels =~= relabel(old(self)@.labels, from as nat, to as nat));
        }
    }

    /// Connects the points at `f` and `t`.
    pub fn connect(&mut self, f: usize, t: usize)
        requires
            old(self).wf(),
            f < t < old(self)@.labels.len(),
        ensures
            final(self).wf(),
            final(self)@ == connect(old(self)@, f as int, t as int),
    {
        let n = self.labels.len();
        proof {
            lemma_connect(self@, f as int, t as int);
            lemma_count_bound(connect(self@, f as int, t as int).labels, is_labelled());
            assert(covered(connect(self@, f as int, t as int).labels) <= n);
        }
        let ghost before = self@;
        let lf = self.labels[f];
        let lt = self.labels[t];
        if lf == 0 && lt == 0 {
            let id = self.next_label;
            self.next_label = id + 1;
            self.labels[f] = id;
            self.labels[t] = id;
            self.covered = self.covered + 2;
            proof {
                assert(self@.labels =~= connect(before, f as int, t as int).labels);
            }
        } else if lt == 0 {
            self.labels[t] = lf;
            self.covered = self.covered + 1;
            proof {
                assert(self@.labels =~= connect(before, f as int, t as int).labels);
            }
        } else if lf == 0 {
            self.labels[f] = lt;
            self.covered = self.covered + 1;
            proof {
                assert(self@.labels =~= connect(before, f as int, t as int).labels);
            }
        } else if lf != lt {
            self.relabel(lt, lf);
        }
    }
}

} // verus!
