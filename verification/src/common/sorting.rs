//! A verified merge sort over any type that carries a strict total order.

use vstd::prelude::*;
use vstd::seq_lib::lemma_multiset_commutative;

verus! {

/// A type whose values are ranked by a strict total order.
pub trait Ranked: Sized {
    /// `self` comes strictly before `other`.
    spec fn precedes(self, other: Self) -> bool;

    /// Decides `precedes` at run time.
    fn comes_before(&self, other: &Self) -> (b: bool)
        ensures
            b == self.precedes(*other),
    ;

    /// `precedes` is irreflexive, transitive and connected.
    proof fn lemma_strict_total(a: Self, b: Self, c: Self)
        ensures
            !a.precedes(a),
            a.precedes(b) && b.precedes(c) ==> a.precedes(c),
            a != b ==> a.precedes(b) || b.precedes(a),
    ;
}

/// No element of `s` comes strictly before an earlier one.
pub open spec fn ordered<T: Ranked>(s: Seq<T>) -> bool {
    forall|i: int, j: int| 0 <= i < j < s.len() ==> !(#[trigger] s[j]).precedes(#[trigger] s[i])
}

/// Every element of `s` comes strictly before all later ones.
pub open spec fn strictly_ordered<T: Ranked>(s: Seq<T>) -> bool {
    forall|i: int, j: int| 0 <= i < j < s.len() ==> (#[trigger] s[i]).precedes(#[trigger] s[j])
}

/// "Not after" is transitive: if `c` is not before `b` and `b` is not before
/// `a`, then `c` is not before `a`.
pub proof fn lemma_not_before_transitive<T: Ranked>(a: T, b: T, c: T)
    requires
        !b.precedes(a),
        !c.precedes(b),
    ensures
        !c.precedes(a),
{
    T::lemma_strict_total(c, a, b);
    T::lemma_strict_total(a, b, c);
    T::lemma_strict_total(b, c, a);
    T::lemma_strict_total(a, b, a);
    T::lemma_strict_total(b, c, b);
}

/// An ordered sequence without repeated elements is strictly ordered.
pub proof fn lemma_ordered_distinct_is_strict<T: Ranked>(s: Seq<T>)
    requires
        ordered(s),
        s.no_duplicates(),
    ensures
        strictly_ordered(s),
{
    assert forall|i: int, j: int| 0 <= i < j < s.len() implies (#[trigger] s[i]).precedes(
        #[trigger] s[j],
    ) by {
        T::lemma_strict_total(s[i], s[j], s[i]);
    }
}

/// `s` ascends strictly by the relation `before`.
pub open spec fn ascends<T>(s: Seq<T>, before: spec_fn(T, T) -> bool) -> bool {
    forall|i: int, j: int| 0 <= i < j < s.len() ==> before(#[trigger] s[i], #[trigger] s[j])
}

/// Two sequences that ascend strictly by one relation, which never holds
/// both ways, and that hold the same elements are equal.
pub proof fn lemma_ascending_unique<T>(a: Seq<T>, b: Seq<T>, before: spec_fn(T, T) -> bool)
    requires
        ascends(a, before),
        ascends(b, before),
        forall|x: T, y: T| #[trigger] before(x, y) ==> !before(y, x),
        forall|i: int| 0 <= i < a.len() ==> b.contains(#[trigger] a[i]),
        forall|i: int| 0 <= i < b.len() ==> a.contains(#[trigger] b[i]),
    ensures
        a == b,
    decreases a.len(),
{
    if a.len() == 0 {
        if b.len() > 0 {
            assert(a.contains(b[0]));
        }
        assert(a =~= b);
    } else {
        assert(b.contains(a[0]));
        let j = choose|j: int| 0 <= j < b.len() && b[j] == a[0];
        assert(a.contains(b[0]));
        let i = choose|i: int| 0 <= i < a.len() && a[i] == b[0];
        assert(a[0] == b[0]) by {
            if i > 0 && j > 0 {
                assert(before(a[0], a[i]));
                assert(before(b[0], b[j]));
            }
        }
        let at = a.drop_first();
        let bt = b.drop_first();
        assert forall|k: int| 0 <= k < at.len() implies bt.contains(#[trigger] at[k]) by {
            assert(at[k] == a[k + 1]);
            assert(before(a[0], a[k + 1]));
            assert(b.contains(a[k + 1]));
            let m = choose|m: int| 0 <= m < b.len() && b[m] == a[k + 1];
            assert(m > 0);
            assert(bt[m - 1] == at[k]);
        }
        assert forall|k: int| 0 <= k < bt.len() implies at.contains(#[trigger] bt[k]) by {
            assert(bt[k] == b[k + 1]);
            assert(before(b[0], b[k + 1]));
            assert(a.contains(b[k + 1]));
            let m = choose|m: int| 0 <= m < a.len() && a[m] == b[k + 1];
            assert(m > 0);
            assert(at[m - 1] == bt[k]);
        }
        assert(ascends(at, before)) by {
            assert forall|p: int, q: int| 0 <= p < q < at.len() implies before(
                #[trigger] at[p],
                #[trigger] at[q],
            ) by {
                assert(before(a[p + 1], a[q + 1]));
            }
        }
        assert(ascends(bt, before)) by {
            assert forall|p: int, q: int| 0 <= p < q < bt.len() implies before(
                #[trigger] bt[p],
                #[trigger] bt[q],
            ) by {
                assert(before(b[p + 1], b[q + 1]));
            }
        }
        lemma_ascending_unique(at, bt, before);
        assert(a =~= seq![a[0]] + at);
        assert(b =~= seq![b[0]] + bt);
    }
}

/// Two strictly ordered sequences that hold the same elements are equal.
pub proof fn lemma_strictly_ordered_unique<T: Ranked>(a: Seq<T>, b: Seq<T>)
    requires
        strictly_ordered(a),
        strictly_ordered(b),
        forall|i: int| 0 <= i < a.len() ==> b.contains(#[trigger] a[i]),
        forall|i: int| 0 <= i < b.len() ==> a.contains(#[trigger] b[i]),
    ensures
        a == b,
{
    let before = |x: T, y: T| x.precedes(y);
    assert forall|x: T, y: T| #[trigger] before(x, y) implies !before(y, x) by {
        T::lemma_strict_total(x, y, x);
    }
    assert(ascends(a, before)) by {
        assert forall|i: int, j: int| 0 <= i < j < a.len() implies before(
            #[trigger] a[i],
            #[trigger] a[j],
        ) by {
            assert(a[i].precedes(a[j]));
        }
    }
    assert(ascends(b, before)) by {
        assert forall|i: int, j: int| 0 <= i < j < b.len() implies before(
            #[trigger] b[i],
            #[trigger] b[j],
        ) by {
            assert(b[i].precedes(b[j]));
        }
    }
    lemma_ascending_unique(a, b, before);
}

/// Two sequences that hold every element equally often hold the same
/// elements, and if one of them repeats none, neither does the other.
pub proof fn lemma_rearranged<T>(a: Seq<T>, b: Seq<T>)
    requires
        a.to_multiset() == b.to_multiset(),
    ensures
        forall|x: T| a.contains(x) <==> b.contains(x),
        a.no_duplicates() ==> b.no_duplicates(),
{
    assert forall|x: T| a.contains(x) <==> b.contains(x) by {
        vstd::seq_lib::to_multiset_contains(a, x);
        vstd::seq_lib::to_multiset_contains(b, x);
    }
    if a.no_duplicates() {
        a.lemma_multiset_has_no_duplicates();
        b.lemma_multiset_has_no_duplicates_conv();
    }
}

/// Merges two ordered vectors into one. Among elements that rank equally,
/// those of `a` come first.
fn merge<T: Ranked + Copy>(a: &Vec<T>, b: &Vec<T>) -> (r: Vec<T>)
    requires
        ordered(a@),
        ordered(b@),
    ensures
        ordered(r@),
        r@.to_multiset() == a@.to_multiset().add(b@.to_multiset()),
{
    let mut r: Vec<T> = Vec::new();
    let mut i: usize = 0;
    let mut j: usize = 0;
    proof {
        broadcast use vstd::multiset::group_multiset_axioms;
        broadcast use vstd::seq_lib::group_to_multiset_ensures;

        assert(a@.take(0) =~= Seq::<T>::empty());
        assert(b@.take(0) =~= Seq::<T>::empty());
        assert(r@ =~= Seq::<T>::empty());
        assert(Seq::<T>::empty().to_multiset() =~= vstd::multiset::Multiset::<T>::empty());
        assert(r@.to_multiset() =~= a@.take(0).to_multiset().add(b@.take(0).to_multiset()));
    }
    while i < a.len() || j < b.len()
        invariant
            i <= a.len(),
            j <= b.len(),
            ordered(a@),
            ordered(b@),
            ordered(r@),
            r@.to_multiset() == a@.take(i as int).to_multiset().add(
                b@.take(j as int).to_multiset(),
            ),
            forall|k: int|
                0 <= k < r.len() ==> (i < a.len() ==> !a[i as int].precedes(#[trigger] r[k])) && (j
                    < b.len() ==> !b[j as int].precedes(r[k])),
        decreases a.len() - i + b.len() - j,
    {
        let take_left = if j >= b.len() {
            true
        } else if i >= a.len() {
            false
        } else {
            !b[j].comes_before(&a[i])
        };
        let ghost before = r@;
        if take_left {
            let x = a[i];
            r.push(x);
            proof {
                assert(a@.take(i + 1) =~= a@.take(i as int).push(x));
                vstd::seq_lib::to_multiset_build(before, x);
                vstd::seq_lib::to_multiset_build(a@.take(i as int), x);
                assert(r@.to_multiset() =~= a@.take(i + 1).to_multiset().add(
                    b@.take(j as int).to_multiset(),
                ));
                assert forall|k: int| 0 <= k < r.len() implies (i + 1 < a.len() ==> !a[i
                    + 1].precedes(#[trigger] r[k])) && (j < b.len() ==> !b[j as int].precedes(
                    r[k],
                )) by {
                    if i + 1 < a.len() {
                        if k < before.len() {
                            lemma_not_before_transitive(r[k], x, a[i + 1]);
                        }
                    }
                }
            }
            i = i + 1;
        } else {
            let y = b[j];
            r.push(y);
            proof {
                assert(b@.take(j + 1) =~= b@.take(j as int).push(y));
                vstd::seq_lib::to_multiset_build(before, y);
                vstd::seq_lib::to_multiset_build(b@.take(j as int), y);
                assert(r@.to_multiset() =~= a@.take(i as int).to_multiset().add(
                    b@.take(j + 1).to_multiset(),
                ));
                assert forall|k: int| 0 <= k < r.len() implies (i < a.len() ==> !a[i as int].precedes(
                    #[trigger] r[k],
                )) && (j + 1 < b.len() ==> !b[j + 1].precedes(r[k])) by {
                    if i < a.len() && k == before.len() {
                        T::lemma_strict_total(y, a[i as int], y);
                    }
                    if j + 1 < b.len() {
                        if k < before.len() {
                            lemma_not_before_transitive(r[k], y, b[j + 1]);
                        }
                    }
                }
            }
            j = j + 1;
        }
    }
    proof {
        assert(a@.take(i as int) =~= a@);
        assert(b@.take(j as int) =~= b@);
    }
    r
}

/// Sorts the elements of `v` from `lo` up to, not including, `hi`.
fn sort_span<T: Ranked + Copy>(v: &Vec<T>, lo: usize, hi: usize) -> (r: Vec<T>)
    requires
        lo <= hi <= v.len(),
    ensures
        ordered(r@),
        r@.to_multiset() == v@.subrange(lo as int, hi as int).to_multiset(),
    decreases hi - lo,
{
    if hi - lo <= 1 {
        let mut r: Vec<T> = Vec::new();
        if hi - lo == 1 {
            r.push(v[lo]);
        }
        proof {
            assert(r@ =~= v@.subrange(lo as int, hi as int));
        }
        r
    } else {
        let mid = lo + (hi - lo) / 2;
        let left = sort_span(v, lo, mid);
        let right = sort_span(v, mid, hi);
        let r = merge(&left, &right);
        proof {
            lemma_multiset_commutative(
                v@.subrange(lo as int, mid as int),
                v@.subrange(mid as int, hi as int),
            );
            assert(v@.subrange(lo as int, mid as int) + v@.subrange(mid as int, hi as int)
                =~= v@.subrange(lo as int, hi as int));
        }
        r
    }
}

/// Returns the elements of `v` in ascending rank. The result is a
/// rearrangement of `v`: it holds every element as often as `v` does.
pub fn sort_ranked<T: Ranked + Copy>(v: &Vec<T>) -> (r: Vec<T>)
    ensures
        ordered(r@),
        r@.to_multiset() == v@.to_multiset(),
        r@.len() == v@.len(),
{
    let r = sort_span(v, 0, v.len());
    proof {
        assert(v@.subrange(0, v.len() as int) =~= v@);
        vstd::seq_lib::to_multiset_len(r@);
        vstd::seq_lib::to_multiset_len(v@);
    }
    r
}

} // verus!
