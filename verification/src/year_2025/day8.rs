//! Clustering by nearest connections.
//!
//! [`compute_distances`] lists every pair of points with the square of their
//! Euclidean distance, cheapest pair first. [`make_n_connections`] walks such
//! a list and joins the points it names into clusters, until a budget of
//! connections is used up or no point is left out.

pub mod clusters;
pub mod guarantees;
pub mod partition;

use crate::common::parsing::{decimal_up_to, parse_i64, read_regex_records, regex_records};
use crate::common::sorting::{
    lemma_ordered_distinct_is_strict, lemma_rearranged, lemma_strictly_ordered_unique, sort_ranked,
    strictly_ordered, Ranked,
};
use clusters::{cluster_list, clusters, set_views};
use guarantees::is_outcome;
use partition::{
    connections_made, final_partition, halts_at, last_connection, lemma_connections_made,
    lemma_first_halt, lemma_fresh, lemma_partition_after, partition_after, valid_connections,
    PartitionState,
};
use std::collections::HashSet;
use vstd::prelude::*;

verus! {

/// A point in space with integer coordinates.
#[derive(Clone, Copy, Debug, PartialEq, Eq, Structural)]
pub struct Xyz {
    pub x: i64,
    pub y: i64,
    pub z: i64,
}

/// Why the engine gave up.
#[derive(Clone, Copy, Debug, PartialEq, Eq, Structural)]
pub enum ClusterError {
    /// The input does not have the shape the engine works on.
    InvalidInput,
    /// A number left the 64 bits it is kept in.
    Overflow,
}

/// A connection `(from, to, cost)` between the points at two indices.
pub type Connection = (usize, usize, i64);

/// Connections in the order in which they are to be made.
pub type ConnectionsList = Vec<Connection>;

impl Xyz {
    /// The point with the given coordinates.
    pub fn new(x: i64, y: i64, z: i64) -> (p: Xyz)
        ensures
            p == (Xyz { x, y, z }),
    {
        Xyz { x, y, z }
    }

    /// The vector from `other` to this point, coordinate by coordinate, or
    /// `None` where one of its coordinates does not fit in an `i64`.
    pub fn minus(self, other: Xyz) -> (d: Option<Xyz>)
        ensures
            match d {
                Some(v) => v.x == self.x - other.x && v.y == self.y - other.y && v.z == self.z
                    - other.z,
                None => !(i64::MIN <= self.x - other.x <= i64::MAX && i64::MIN <= self.y - other.y
                    <= i64::MAX && i64::MIN <= self.z - other.z <= i64::MAX),
            },
    {
        let dx: i128 = self.x as i128 - other.x as i128;
        let dy: i128 = self.y as i128 - other.y as i128;
        let dz: i128 = self.z as i128 - other.z as i128;
        let least: i128 = i64::MIN as i128;
        let most: i128 = i64::MAX as i128;
        if least <= dx && dx <= most && least <= dy && dy <= most && least <= dz && dz <= most {
            Some(Xyz { x: dx as i64, y: dy as i64, z: dz as i64 })
        } else {
            None
        }
    }
}

/// The square of the length of the vector `(dx, dy, dz)`.
pub open spec fn squared_length(dx: int, dy: int, dz: int) -> int {
    dx * dx + dy * dy + dz * dz
}

/// The square of the Euclidean distance between `a` and `b`.
pub open spec fn squared_distance(a: Xyz, b: Xyz) -> int {
    squared_length(a.x - b.x, a.y - b.y, a.z - b.z)
}

/// A squared distance is never negative.
pub proof fn lemma_squared_distance_nonnegative(a: Xyz, b: Xyz)
    ensures
        squared_distance(a, b) >= 0,
{
    let dx = a.x - b.x;
    let dy = a.y - b.y;
    let dz = a.z - b.z;
    assert(dx * dx >= 0 && dy * dy >= 0 && dz * dz >= 0) by (nonlinear_arith);
}

/// The square of `d`, or `None` where it is more than an `i64` holds.
fn checked_square(d: i64) -> (r: Option<i64>)
    ensures
        r == if d * d <= i64::MAX {
            Some((d * d) as i64)
        } else {
            None::<i64>
        },
{
    if d > 3037000499 || d < -3037000499 {
        assert(d * d > i64::MAX) by (nonlinear_arith)
            requires
                d > 3037000499 || d < -3037000499,
        ;
        None
    } else {
        assert(0 <= d * d <= 3037000499 * 3037000499) by (nonlinear_arith)
            requires
                -3037000499 <= d <= 3037000499,
        ;
        Some(d * d)
    }
}

/// The square of the length of the vector `xyz`.
///
/// Fails with `Overflow` exactly when that square is more than an `i64`
/// holds.
pub fn magnitude(xyz: Xyz) -> (r: Result<i64, ClusterError>)
    ensures
        r == if squared_length(xyz.x as int, xyz.y as int, xyz.z as int) <= i64::MAX {
            Ok::<i64, ClusterError>(squared_length(xyz.x as int, xyz.y as int, xyz.z as int) as i64)
        } else {
            Err::<i64, ClusterError>(ClusterError::Overflow)
        },
{
    assert(xyz.x * xyz.x >= 0 && xyz.y * xyz.y >= 0 && xyz.z * xyz.z >= 0) by (nonlinear_arith);
    match (checked_square(xyz.x), checked_square(xyz.y), checked_square(xyz.z)) {
        (Some(xx), Some(yy), Some(zz)) => {
            let sum: i128 = xx as i128 + yy as i128 + zz as i128;
            if sum <= i64::MAX as i128 {
                Ok(sum as i64)
            } else {
                Err(ClusterError::Overflow)
            }
        },
        _ => Err(ClusterError::Overflow),
    }
}

/// The square of the distance between `from` and `to`.
///
/// Fails with `Overflow` exactly when that square is more than an `i64`
/// holds; the coordinates themselves may be any `i64`.
pub fn distance_squared(from: Xyz, to: Xyz) -> (r: Result<i64, ClusterError>)
    ensures
        r == if squared_distance(from, to) <= i64::MAX {
            Ok::<i64, ClusterError>(squared_distance(from, to) as i64)
        } else {
            Err::<i64, ClusterError>(ClusterError::Overflow)
        },
        r is Ok ==> r->Ok_0 == squared_distance(from, to),
{
    proof {
        lemma_squared_distance_nonnegative(from, to);
    }
    match from.minus(to) {
        Some(step) => magnitude(step),
        None => {
            proof {
                let dx = from.x - to.x;
                let dy = from.y - to.y;
                let dz = from.z - to.z;
                assert(dx * dx >= 0 && dy * dy >= 0 && dz * dz >= 0) by (nonlinear_arith);
                if !(i64::MIN <= dx <= i64::MAX) {
                    assert(dx * dx > i64::MAX) by (nonlinear_arith)
                        requires
                            dx < -0x8000_0000_0000_0000 || dx > 0x7fff_ffff_ffff_ffff,
                    ;
                } else if !(i64::MIN <= dy <= i64::MAX) {
                    assert(dy * dy > i64::MAX) by (nonlinear_arith)
                        requires
                            dy < -0x8000_0000_0000_0000 || dy > 0x7fff_ffff_ffff_ffff,
                    ;
                } else {
                    assert(dz * dz > i64::MAX) by (nonlinear_arith)
                        requires
                            dz < -0x8000_0000_0000_0000 || dz > 0x7fff_ffff_ffff_ffff,
                    ;
                }
            }
            Err(ClusterError::Overflow)
        },
    }
}

impl Ranked for Connection {
    /// Cheaper connections come first; among equally cheap ones, the one
    /// with the smaller `from`, then the one with the smaller `to`.
    open spec fn precedes(self, other: Self) -> bool {
        self.2 < other.2 || (self.2 == other.2 && (self.0 < other.0 || (self.0 == other.0 && self.1
            < other.1)))
    }

    fn comes_before(&self, other: &Self) -> (b: bool) {
        self.2 < other.2 || (self.2 == other.2 && (self.0 < other.0 || (self.0 == other.0 && self.1
            < other.1)))
    }

    proof fn lemma_strict_total(a: Self, b: Self, c: Self) {
    }
}

/// The connection between the points at `i` and `j`, with its cost.
pub open spec fn connection(points: Seq<Xyz>, i: int, j: int) -> Connection {
    (i as usize, j as usize, squared_distance(points[i], points[j]) as i64)
}

/// `c` joins two points of `points`, the one with the smaller index first,
/// at the square of their distance.
pub open spec fn is_connection(points: Seq<Xyz>, c: Connection) -> bool {
    c.0 < c.1 < points.len() && c.2 == squared_distance(points[c.0 as int], points[c.1 as int])
}

/// The square of the distance of every two points fits in an `i64`.
pub open spec fn distances_fit(points: Seq<Xyz>) -> bool {
    forall|i: int, j: int|
        0 <= i < j < points.len() ==> squared_distance(#[trigger] points[i], #[trigger] points[j])
            <= i64::MAX
}

/// `table` is the distance table of `points`: it holds the connection of
/// every two distinct points once, and no other entry, in ascending order of
/// cost; equally cheap connections stand in ascending order of `from`, then
/// of `to`.
pub open spec fn is_distance_table(points: Seq<Xyz>, table: Seq<Connection>) -> bool {
    &&& 2 * table.len() == points.len() * (points.len() - 1)
    &&& forall|k: int| 0 <= k < table.len() ==> is_connection(points, #[trigger] table[k])
    &&& forall|i: int, j: int|
        0 <= i < j < points.len() ==> table.contains(#[trigger] connection(points, i, j))
    &&& strictly_ordered(table)
}

/// The distance table of `points`.
pub open spec fn distance_table(points: Seq<Xyz>) -> Seq<Connection> {
    choose|table: Seq<Connection>| is_distance_table(points, table)
}

/// A set of points has one distance table only.
pub proof fn lemma_distance_table_unique(
    points: Seq<Xyz>,
    first: Seq<Connection>,
    second: Seq<Connection>,
)
    requires
        distances_fit(points),
        is_distance_table(points, first),
        is_distance_table(points, second),
    ensures
        first == second,
{
    assert forall|k: int| 0 <= k < first.len() implies second.contains(#[trigger] first[k]) by {
        let c = first[k];
        assert(is_connection(points, c));
        assert(c == connection(points, c.0 as int, c.1 as int));
    }
    assert forall|k: int| 0 <= k < second.len() implies first.contains(#[trigger] second[k]) by {
        let c = second[k];
        assert(is_connection(points, c));
        assert(c == connection(points, c.0 as int, c.1 as int));
    }
    lemma_strictly_ordered_unique(first, second);
}

/// The number of pairs `(a, b)` with `a < b < n` and `a < i`.
pub open spec fn pairs_before(i: nat, n: nat) -> nat
    decreases i,
{
    if i == 0 {
        0
    } else {
        pairs_before((i - 1) as nat, n) + (n - i) as nat
    }
}

proof fn lemma_pairs_before(i: nat, n: nat)
    requires
        i <= n,
    ensures
        2 * pairs_before(i, n) == i * (2 * n - i - 1),
    decreases i,
{
    if i > 0 {
        lemma_pairs_before((i - 1) as nat, n);
        let before = pairs_before((i - 1) as nat, n) as int;
        assert(pairs_before(i, n) == before + (n - i));
        assert(2 * before == (i - 1) * (2 * n - (i - 1) - 1));
        assert((i - 1) * (2 * n - (i - 1) - 1) + 2 * (n - i) == i * (2 * n - i - 1))
            by (nonlinear_arith);
    } else {
        assert(0 * (2 * n - 0 - 1) == 0) by (nonlinear_arith);
    }
}

/// The connections of `table` stand in ascending order of `from`, then of
/// `to`.
spec fn pairs_ascend(table: Seq<Connection>) -> bool {
    forall|k: int, l: int|
        0 <= k < l < table.len() ==> (#[trigger] table[k]).0 < (#[trigger] table[l]).0 || (
        table[k].0 == table[l].0 && table[k].1 < table[l].1)
}

/// The square of the distance of the points at `a` and `b` fits in an
/// `i64`, and `table` holds their connection.
spec fn pair_listed(points: Seq<Xyz>, table: Seq<Connection>, a: int, b: int) -> bool {
    table.contains(connection(points, a, b)) && squared_distance(points[a], points[b]) <= i64::MAX
}

/// What `compute_distances` has listed when it is about to look at the
/// pair `(i, j)`: the connection of every pair before it, in pair order.
spec fn listed_up_to(points: Seq<Xyz>, table: Seq<Connection>, i: int, j: int) -> bool {
    &&& forall|k: int|
        0 <= k < table.len() ==> is_connection(points, #[trigger] table[k]) && (table[k].0 < i || (
        table[k].0 == i && table[k].1 < j))
    &&& forall|a: int, b: int|
        0 <= a < b < points.len() && (a < i || (a == i && b < j)) ==> #[trigger] pair_listed(
            points,
            table,
            a,
            b,
        )
    &&& pairs_ascend(table)
}

proof fn lemma_list_row(points: Seq<Xyz>, table: Seq<Connection>, i: int, j: int, i2: int, j2: int)
    requires
        listed_up_to(points, table, i, j),
        (i2 == i && j <= 0 && j2 == i + 1) || (i2 == i + 1 && j >= points.len() && j2 == 0),
    ensures
        listed_up_to(points, table, i2, j2),
{
    assert forall|k: int| 0 <= k < table.len() implies is_connection(points, #[trigger] table[k])
        && (table[k].0 < i2 || (table[k].0 == i2 && table[k].1 < j2)) by {
        assert(is_connection(points, table[k]) && (table[k].0 < i || (table[k].0 == i
            && table[k].1 < j)));
    }
    assert forall|a: int, b: int|
        0 <= a < b < points.len() && (a < i2 || (a == i2 && b < j2)) implies #[trigger] pair_listed(
        points,
        table,
        a,
        b,
    ) by {
        assert(a < i || (a == i && b < j));
    }
}

proof fn lemma_list_one_more(points: Seq<Xyz>, table: Seq<Connection>, i: int, j: int, d: i64)
    requires
        0 <= i < j < points.len() <= usize::MAX,
        listed_up_to(points, table, i, j),
        d == squared_distance(points[i], points[j]),
    ensures
        listed_up_to(points, table.push((i as usize, j as usize, d)), i, j + 1),
{
    let c = (i as usize, j as usize, d);
    let next = table.push(c);
    assert forall|a: int, b: int|
        0 <= a < b < points.len() && (a < i || (a == i && b < j + 1)) implies #[trigger] pair_listed(
        points,
        next,
        a,
        b,
    ) by {
        if a == i && b == j {
            assert(next[table.len() as int] == c);
        } else {
            assert(pair_listed(points, table, a, b));
            let k = choose|k: int| 0 <= k < table.len() && table[k] == connection(points, a, b);
            assert(next[k] == connection(points, a, b));
        }
    }
    assert(pairs_ascend(next)) by {
        assert forall|k: int, l: int| 0 <= k < l < next.len() implies (#[trigger] next[k]).0 < (
        #[trigger] next[l]).0 || (next[k].0 == next[l].0 && next[k].1 < next[l].1) by {
            assert(next[k] == table[k]);
            if l < table.len() {
                assert(next[l] == table[l]);
            }
        }
    }
    assert forall|k: int| 0 <= k < next.len() implies is_connection(points, #[trigger] next[k])
        && (next[k].0 < i || (next[k].0 == i && next[k].1 < j + 1)) by {
        if k < table.len() {
            assert(next[k] == table[k]);
        }
    }
}

proof fn lemma_sorted_listing_is_table(
    points: Seq<Xyz>,
    listing: Seq<Connection>,
    table: Seq<Connection>,
)
    requires
        points.len() <= usize::MAX,
        listed_up_to(points, listing, points.len() as int, 0),
        listing.len() == pairs_before(points.len(), points.len()),
        crate::common::sorting::ordered(table),
        table.to_multiset() == listing.to_multiset(),
        table.len() == listing.len(),
    ensures
        distances_fit(points),
        is_distance_table(points, table),
{
    lemma_pairs_before(points.len(), points.len());
    assert(points.len() * (2 * points.len() - points.len() - 1) == points.len() * (points.len()
        - 1)) by (nonlinear_arith);
    lemma_rearranged(listing, table);
    assert(listing.no_duplicates());
    assert forall|i: int, j: int| 0 <= i < j < points.len() implies squared_distance(
        #[trigger] points[i],
        #[trigger] points[j],
    ) <= i64::MAX by {
        assert(pair_listed(points, listing, i, j));
    }
    lemma_ordered_distinct_is_strict(table);
    assert forall|k: int| 0 <= k < table.len() implies is_connection(points, #[trigger] table[k]) by {
        assert(table.contains(table[k]));
        assert(listing.contains(table[k]));
    }
    assert forall|i: int, j: int| 0 <= i < j < points.len() implies table.contains(
        #[trigger] connection(points, i, j),
    ) by {
        assert(pair_listed(points, listing, i, j));
    }
}

/// Returns every connection between two of the points, with the square of
/// their distance as its cost, cheapest first.
///
/// Fewer than two points give an empty table. The call fails with
/// `Overflow` exactly when the square of the distance of some two points is
/// more than an `i64` holds.
pub fn compute_distances(points: &[Xyz]) -> (r: Result<ConnectionsList, ClusterError>)
    ensures
        match r {
            Ok(table) => {
                &&& distances_fit(points@)
                &&& is_distance_table(points@, table@)
                &&& table@ == distance_table(points@)
            },
            Err(e) => e == ClusterError::Overflow && !distances_fit(points@),
        },
{
    let n = points.len();
    let mut listing: ConnectionsList = Vec::new();
    let mut from_idx: usize = 0;
    while from_idx < n
        invariant
            n == points.len(),
            from_idx <= n,
            listing.len() == pairs_before(from_idx as nat, n as nat),
            listed_up_to(points@, listing@, from_idx as int, 0),
        decreases n - from_idx,
    {
        let from = points[from_idx];
        let mut to_idx: usize = from_idx + 1;
        proof {
            lemma_list_row(points@, listing@, from_idx as int, 0, from_idx as int, to_idx as int);
        }
        while to_idx < n
            invariant
                n == points.len(),
                from_idx < to_idx <= n,
                from == points[from_idx as int],
                listing.len() == pairs_before(from_idx as nat, n as nat) + (to_idx - from_idx - 1),
                listed_up_to(points@, listing@, from_idx as int, to_idx as int),
            decreases n - to_idx,
        {
            let to = points[to_idx];
            match distance_squared(from, to) {
                Ok(d2) => {
                    proof {
                        lemma_list_one_more(points@, listing@, from_idx as int, to_idx as int, d2);
                    }
                    listing.push((from_idx, to_idx, d2));
                },
                Err(_) => {
                    return Err(ClusterError::Overflow);
                },
            }
            to_idx = to_idx + 1;
        }
        proof {
            lemma_list_row(points@, listing@, from_idx as int, to_idx as int, from_idx + 1, 0);
        }
        from_idx = from_idx + 1;
    }
    let table = sort_ranked(&listing);
    proof {
        lemma_sorted_listing_is_table(points@, listing@, table@);
        lemma_distance_table_unique(points@, table@, distance_table(points@));
    }
    Ok(table)
}

/// Tells whether every connection names two points below `count`, the
/// smaller index first.
fn connections_are_valid(possible_connections: &ConnectionsList, count: usize) -> (ok: bool)
    ensures
        ok == valid_connections(count as nat, possible_connections@),
{
    let mut k: usize = 0;
    while k < possible_connections.len()
        invariant
            k <= possible_connections.len(),
            forall|j: int|
                0 <= j < k ==> (#[trigger] possible_connections@[j]).0 < possible_connections@[j].1
                    < count,
        decreases possible_connections.len() - k,
    {
        let c = possible_connections[k];
        if !(c.0 < c.1 && c.1 < count) {
            return false;
        }
        k = k + 1;
    }
    true
}

/// Makes at most `n` of the connections, each in its turn, and returns the
/// clusters that result, largest first, with the two points of the
/// connection made last.
///
/// Every connection that is looked at counts as made, also one between two
/// points of one cluster. The work ends when `n` connections are made, when
/// none is left, or when every point is in a cluster. A point that no
/// connection has touched is in no cluster. Where no connection is made,
/// the pair returned is `(0, 0)` and stands for nothing.
///
/// The call fails with `InvalidInput` exactly when some connection names a
/// point that is not there, or does not name the smaller index first.
pub fn make_n_connections(points: &[Xyz], possible_connections: &ConnectionsList, n: usize) -> (r:
    Result<(Vec<HashSet<usize>>, (usize, usize)), ClusterError>)
    ensures
        match r {
            Ok((clusters, last)) => {
                &&& valid_connections(points@.len(), possible_connections@)
                &&& is_outcome(
                    points@.len(),
                    possible_connections@,
                    n as nat,
                    set_views(clusters@),
                    last,
                )
                &&& set_views(clusters@) == cluster_list(
                    final_partition(points@.len(), possible_connections@, n as nat).labels,
                )
            },
            Err(e) => e == ClusterError::InvalidInput && !valid_connections(
                points@.len(),
                possible_connections@,
            ),
        },
{
    let count = points.len();
    if !connections_are_valid(possible_connections, count) {
        return Err(ClusterError::InvalidInput);
    }
    let ghost connections = possible_connections@;
    let mut state = PartitionState::new(count);
    let mut connections_made: usize = 0;
    let mut last_connection: (usize, usize) = (0, 0);
    loop
        invariant
            count == points@.len(),
            connections == possible_connections@,
            valid_connections(count as nat, connections),
            connections_made <= connections.len(),
            state.wf(),
            state@ == partition_after(count as nat, connections, connections_made as nat),
            forall|j: nat|
                j < connections_made ==> !#[trigger] halts_at(
                    count as nat,
                    connections,
                    n as nat,
                    j,
                ),
            connections_made == 0 ==> last_connection == (0usize, 0usize),
            connections_made > 0 ==> last_connection == (
                connections[connections_made - 1].0,
                connections[connections_made - 1].1,
            ),
        ensures
            halts_at(count as nat, connections, n as nat, connections_made as nat),
        decreases connections.len() - connections_made,
    {
        if connections_made >= n || connections_made >= possible_connections.len()
            || state.covered() >= count {
            break;
        }
        let (f, t, _) = possible_connections[connections_made];
        proof {
            lemma_partition_after(count as nat, connections, connections_made as nat);
        }
        state.connect(f, t);
        last_connection = (f, t);
        connections_made = connections_made + 1;
    }
    proof {
        lemma_first_halt(count as nat, connections, n as nat, connections_made as nat);
    }
    Ok((clusters(&state), last_connection))
}

/// The point that a record of three numbers stands for: the record holds
/// the text that matched and then three runs of digits, each a number that
/// fits in an `i64`.
pub open spec fn point_of(record: Seq<Seq<char>>) -> Option<Xyz> {
    if record.len() == 4 && decimal_up_to(record[1], i64::MAX as int) is Some && decimal_up_to(
        record[2],
        i64::MAX as int,
    ) is Some && decimal_up_to(record[3], i64::MAX as int) is Some {
        Some(
            Xyz {
                x: decimal_up_to(record[1], i64::MAX as int)->Some_0 as i64,
                y: decimal_up_to(record[2], i64::MAX as int)->Some_0 as i64,
                z: decimal_up_to(record[3], i64::MAX as int)->Some_0 as i64,
            },
        )
    } else {
        None
    }
}

/// The points that the records stand for, or `None` where some record
/// stands for none.
pub open spec fn points_of(records: Seq<Seq<Seq<char>>>) -> Option<Seq<Xyz>> {
    if forall|i: int| 0 <= i < records.len() ==> point_of(#[trigger] records[i]) is Some {
        Some(Seq::new(records.len(), |i: int| point_of(records[i])->Some_0))
    } else {
        None
    }
}

/// Reads one point from each record; see [`point_of`].
pub fn points_from_records(records: &Vec<Vec<String>>) -> (r: Option<Vec<Xyz>>)
    ensures
        match r {
            Some(points) => points_of(records.deep_view()) == Some(points@),
            None => points_of(records.deep_view()) is None,
        },
{
    let mut result: Vec<Xyz> = Vec::new();
    let mut i: usize = 0;
    while i < records.len()
        invariant
            i <= records.len(),
            result.len() == i,
            forall|j: int|
                0 <= j < i ==> point_of(#[trigger] records.deep_view()[j]) == Some(result@[j]),
        decreases records.len() - i,
    {
        let record_strings = &records[i];
        assert(records.deep_view()[i as int] == record_strings.deep_view());
        if record_strings.len() != 4 {
            return None;
        }
        assert(record_strings.deep_view()[1] == record_strings[1]@);
        assert(record_strings.deep_view()[2] == record_strings[2]@);
        assert(record_strings.deep_view()[3] == record_strings[3]@);
        let x = parse_i64(record_strings[1].as_str());
        let y = parse_i64(record_strings[2].as_str());
        let z = parse_i64(record_strings[3].as_str());
        match (x, y, z) {
            (Some(x), Some(y), Some(z)) => {
                result.push(Xyz::new(x, y, z));
            },
            _ => {
                return None;
            },
        }
        i = i + 1;
    }
    assert(result@ =~= points_of(records.deep_view())->Some_0);
    Some(result)
}

/// The regular expression that finds a point in a line: three runs of
/// digits with commas between them.
pub const POINT_PATTERN: &'static str = "(\\d+),(\\d+),(\\d+)";

/// Reads one point from every line that holds three numbers with commas
/// between them, and passes over the other lines. Fails with `None` where a
/// number is written in digits other than `0` to `9` or does not fit in an
/// `i64`.
pub fn read_input(lines: &Vec<String>) -> (r: Option<Vec<Xyz>>)
    ensures
        match r {
            Some(points) => points_of(regex_records(lines.deep_view(), POINT_PATTERN@)) == Some(
                points@,
            ),
            None => points_of(regex_records(lines.deep_view(), POINT_PATTERN@)) is None,
        },
{
    let point_records = read_regex_records(lines, POINT_PATTERN);
    points_from_records(&point_records)
}

/// The size of the cluster at `i`, or 1 where the list has none there.
pub open spec fn size_at(clusters: Seq<Set<usize>>, i: int) -> int {
    if 0 <= i < clusters.len() {
        clusters[i].len() as int
    } else {
        1
    }
}

/// The product of the sizes of the first three clusters of the list, or of
/// as many as there are.
pub open spec fn product_of_three(clusters: Seq<Set<usize>>) -> int {
    size_at(clusters, 0) * size_at(clusters, 1) * size_at(clusters, 2)
}

/// The clusters that `budget` connections in order of ascending cost leave
/// behind, largest first.
pub open spec fn clusters_after(points: Seq<Xyz>, budget: nat) -> Seq<Set<usize>> {
    cluster_list(final_partition(points.len(), distance_table(points), budget).labels)
}

/// The two points of the last of `budget` connections in order of ascending
/// cost.
pub open spec fn last_after(points: Seq<Xyz>, budget: nat) -> (usize, usize) {
    last_connection(points.len(), distance_table(points), budget)
}

/// `a * b * c`, or `None` where that is more than an `i64` holds.
fn product_in_i64(a: usize, b: usize, c: usize) -> (r: Option<i64>)
    ensures
        r == if a * b * c <= i64::MAX {
            Some((a * b * c) as i64)
        } else {
            None::<i64>
        },
{
    let ab: u128 = {
        assert(a * b <= 0xffff_ffff_ffff_ffff * 0xffff_ffff_ffff_ffff) by (nonlinear_arith)
            requires
                0 <= a <= 0xffff_ffff_ffff_ffff,
                0 <= b <= 0xffff_ffff_ffff_ffff,
        ;
        a as u128 * b as u128
    };
    if c == 0 {
        assert(a * b * c == 0) by (nonlinear_arith)
            requires
                c == 0,
        ;
        Some(0)
    } else if ab > i64::MAX as u128 {
        assert(a * b * c > i64::MAX) by (nonlinear_arith)
            requires
                a * b > i64::MAX,
                c >= 1,
        ;
        None
    } else {
        assert(a * b * c <= 0x7fff_ffff_ffff_ffff * 0xffff_ffff_ffff_ffff) by (nonlinear_arith)
            requires
                0 <= a * b <= 0x7fff_ffff_ffff_ffff,
                0 <= c <= 0xffff_ffff_ffff_ffff,
        ;
        let abc: u128 = ab * c as u128;
        if abc > i64::MAX as u128 {
            None
        } else {
            Some(abc as i64)
        }
    }
}

/// What [`product_of_largest`] returns for the points and the budget.
pub open spec fn largest_outcome(points: Seq<Xyz>, budget: nat) -> Result<i64, ClusterError> {
    if distances_fit(points) && product_of_three(clusters_after(points, budget)) <= i64::MAX {
        Ok(product_of_three(clusters_after(points, budget)) as i64)
    } else {
        Err(ClusterError::Overflow)
    }
}

/// Makes up to `budget` connections between the points, cheapest first,
/// and returns the product of the sizes of the three largest clusters, or of
/// as many as there are.
///
/// Fails with `Overflow` exactly when a squared distance or the product is
/// more than an `i64` holds.
pub fn product_of_largest(points: &[Xyz], budget: usize) -> (r: Result<i64, ClusterError>)
    ensures
        r == largest_outcome(points@, budget as nat),
{
    let distances = match compute_distances(points) {
        Ok(distances) => distances,
        Err(e) => {
            return Err(e);
        },
    };
    assert(valid_connections(points@.len(), distances@)) by {
        assert forall|k: int| 0 <= k < distances@.len() implies (#[trigger] distances@[k]).0
            < distances@[k].1 < points@.len() by {
            assert(is_connection(points@, distances@[k]));
        }
    }
    match make_n_connections(points, &distances, budget) {
        Ok((subgraphs, _)) => {
            let ghost sets = set_views(subgraphs@);
            let a = if subgraphs.len() > 0 {
                assert(sets[0] == subgraphs@[0]@);
                subgraphs[0].len()
            } else {
                1
            };
            let b = if subgraphs.len() > 1 {
                assert(sets[1] == subgraphs@[1]@);
                subgraphs[1].len()
            } else {
                1
            };
            let c = if subgraphs.len() > 2 {
                assert(sets[2] == subgraphs@[2]@);
                subgraphs[2].len()
            } else {
                1
            };
            match product_in_i64(a, b, c) {
                Some(product) => Ok(product),
                None => Err(ClusterError::Overflow),
            }
        },
        Err(_) => Err(ClusterError::Overflow),
    }
}

/// The product of the `x` coordinates of the two points that the last of
/// `budget` connections joins.
pub open spec fn last_product(points: Seq<Xyz>, budget: nat) -> int {
    points[last_after(points, budget).0 as int].x * points[last_after(points, budget).1 as int].x
}

/// What [`product_of_last`] returns for the points and the budget.
pub open spec fn last_outcome(points: Seq<Xyz>, budget: nat) -> Result<i64, ClusterError> {
    if points.len() < 2 || budget == 0 {
        Err(ClusterError::InvalidInput)
    } else if distances_fit(points) && i64::MIN <= last_product(points, budget) <= i64::MAX {
        Ok(last_product(points, budget) as i64)
    } else {
        Err(ClusterError::Overflow)
    }
}

/// Makes up to `budget` connections between the points, cheapest first,
/// and returns the product of the `x` coordinates of the two points that
/// the last connection joined.
///
/// Fails with `InvalidInput` exactly when no connection is made, that is
/// with fewer than two points or a budget of 0; otherwise with `Overflow`
/// exactly when a squared distance or the product is outside an `i64`.
pub fn product_of_last(points: &[Xyz], budget: usize) -> (r: Result<i64, ClusterError>)
    ensures
        r == last_outcome(points@, budget as nat),
        r is Ok ==> last_after(points@, budget as nat).0 < points@.len() && last_after(
            points@,
            budget as nat,
        ).1 < points@.len(),
{
    if points.len() < 2 || budget == 0 {
        return Err(ClusterError::InvalidInput);
    }
    let distances = match compute_distances(points) {
        Ok(distances) => distances,
        Err(e) => {
            return Err(e);
        },
    };
    let ghost count = points@.len();
    let ghost table = distances@;
    proof {
        assert(valid_connections(count, table)) by {
            assert forall|k: int| 0 <= k < table.len() implies (#[trigger] table[k]).0 < table[k].1
                < count by {
                assert(is_connection(points@, table[k]));
            }
        }
        assert(table.len() >= 1) by (nonlinear_arith)
            requires
                2 * table.len() == count * (count - 1),
                count >= 2,
        ;
        lemma_fresh(count);
        assert(!halts_at(count, table, budget as nat, 0));
        lemma_connections_made(count, table, budget as nat);
        let made = connections_made(count, table, budget as nat);
        assert(made > 0);
        assert(table[made - 1].0 < table[made - 1].1 < count);
    }
    match make_n_connections(points, &distances, budget) {
        Ok((_, last_two_points)) => {
            let a: i128 = points[last_two_points.0].x as i128;
            let b: i128 = points[last_two_points.1].x as i128;
            assert(-0x4000_0000_0000_0000_0000_0000_0000_0000 <= a * b
                <= 0x4000_0000_0000_0000_0000_0000_0000_0000) by (nonlinear_arith)
                requires
                    -0x8000_0000_0000_0000 <= a <= 0x8000_0000_0000_0000,
                    -0x8000_0000_0000_0000 <= b <= 0x8000_0000_0000_0000,
            ;
            let product: i128 = a * b;
            if product < i64::MIN as i128 || product > i64::MAX as i128 {
                Err(ClusterError::Overflow)
            } else {
                Ok(product as i64)
            }
        },
        Err(_) => Err(ClusterError::Overflow),
    }
}

/// What the lines give for the three largest clusters after `budget`
/// connections: `InvalidInput` where the points cannot be read, else what
/// [`product_of_largest`] gives for the points.
pub open spec fn largest_outcome_of(lines: Seq<Seq<char>>, budget: nat) -> Result<
    i64,
    ClusterError,
> {
    match points_of(regex_records(lines, POINT_PATTERN@)) {
        Some(points) => largest_outcome(points, budget),
        None => Err(ClusterError::InvalidInput),
    }
}

/// What the lines give for the last connection within `budget`:
/// `InvalidInput` where the points cannot be read, else what
/// [`product_of_last`] gives for the points.
pub open spec fn last_outcome_of(lines: Seq<Seq<char>>, budget: nat) -> Result<i64, ClusterError> {
    match points_of(regex_records(lines, POINT_PATTERN@)) {
        Some(points) => last_outcome(points, budget),
        None => Err(ClusterError::InvalidInput),
    }
}

/// Reads the points and returns the product of the sizes of the three
/// largest clusters after `budget` connections.
fn solve_largest(lines: &Vec<String>, budget: usize) -> (r: Result<i64, ClusterError>)
    ensures
        r == largest_outcome_of(lines.deep_view(), budget as nat),
{
    match read_input(lines) {
        Some(points) => product_of_largest(points.as_slice(), budget),
        None => Err(ClusterError::InvalidInput),
    }
}

/// Ten connections, then the product of the sizes of the three largest
/// clusters.
pub fn solution_a_example(lines: &Vec<String>) -> (r: Result<i64, ClusterError>)
    ensures
        r == largest_outcome_of(lines.deep_view(), 10),
{
    solve_largest(lines, 10)
}

/// A thousand connections, then the product of the sizes of the three
/// largest clusters.
pub fn solution_a(lines: &Vec<String>) -> (r: Result<i64, ClusterError>)
    ensures
        r == largest_outcome_of(lines.deep_view(), 1000),
{
    solve_largest(lines, 1000)
}

/// Connections until every point is in a cluster, at most 9999999 of them,
/// then the product of the `x` coordinates of the two points joined last.
pub fn solution_b(lines: &Vec<String>) -> (r: Result<i64, ClusterError>)
    ensures
        r == last_outcome_of(lines.deep_view(), 9999999),
{
    match read_input(lines) {
        Some(points) => product_of_last(points.as_slice(), 9999999),
        None => Err(ClusterError::InvalidInput),
    }
}

} // verus!
