//! Numbers whose digits are one group of digits written several times.

use crate::common::answers::{first_of, second_of};
use crate::common::parsing::{
    decimal_up_to, parse_usize, pieces_of_all, read_regex_records, regex_records, split_all,
};
use vstd::prelude::*;

verus! {

/// The number that names a product.
pub type Id = usize;

/// The numbers from `start` through `end`, both included; none where
/// `end` is below `start`.
#[derive(Clone, Copy, Debug, PartialEq, Eq, Structural)]
pub struct IdRange {
    pub start: Id,
    pub end: Id,
}

/// The digits of `n` in base ten, the first digit first.
pub open spec fn digits_of(n: nat) -> Seq<nat>
    decreases n,
{
    if n < 10 {
        seq![n]
    } else {
        digits_of(n / 10).push(n % 10)
    }
}

/// `digits` is its first `k` digits written two or more times.
pub open spec fn repeats(digits: Seq<nat>, k: int) -> bool {
    &&& 1 <= k
    &&& 2 * k <= digits.len()
    &&& (digits.len() as int) % k == 0
    &&& forall|i: int| 0 <= i < digits.len() ==> #[trigger] digits[i] == digits[i % k]
}

/// The digits of `n` are a group of digits written exactly twice.
pub open spec fn is_twice(n: nat) -> bool {
    exists|k: int| repeats(digits_of(n), k) && 2 * k == digits_of(n).len()
}

/// The digits of `n` are a group of digits written two or more times.
pub open spec fn is_repeated(n: nat) -> bool {
    exists|k: int| repeats(digits_of(n), k)
}

/// A number that is a group written twice counts for itself, any other
/// number for 0.
pub open spec fn twice_values() -> spec_fn(int) -> nat {
    |n: int|
        if n >= 0 && is_twice(n as nat) {
            n as nat
        } else {
            0nat
        }
}

/// A number that is a group written two or more times counts for itself,
/// any other number for 0.
pub open spec fn repeated_values() -> spec_fn(int) -> nat {
    |n: int|
        if n >= 0 && is_repeated(n as nat) {
            n as nat
        } else {
            0nat
        }
}

/// The sum of what the numbers from `start` through `end` count for.
pub open spec fn range_sum(value: spec_fn(int) -> nat, start: int, end: int) -> nat
    decreases end - start + 1,
{
    if end < start {
        0
    } else {
        range_sum(value, start, end - 1) + value(end)
    }
}

/// The sum of what the numbers of all ranges count for; a number counts
/// once for each range that holds it.
pub open spec fn ranges_sum(value: spec_fn(int) -> nat, ranges: Seq<IdRange>) -> nat
    decreases ranges.len(),
{
    if ranges.len() == 0 {
        0
    } else {
        ranges_sum(value, ranges.drop_last()) + range_sum(
            value,
            ranges.last().start as int,
            ranges.last().end as int,
        )
    }
}

/// A range that ends later does not sum to less.
pub proof fn lemma_range_sum_grows(value: spec_fn(int) -> nat, start: int, end: int, later: int)
    requires
        end <= later,
    ensures
        range_sum(value, start, end) <= range_sum(value, start, later),
    decreases later - end,
{
    if end < later {
        lemma_range_sum_grows(value, start, end, later - 1);
    }
}

/// The first ranges do not sum to more than all of them.
pub proof fn lemma_ranges_sum_grows(value: spec_fn(int) -> nat, ranges: Seq<IdRange>, k: int)
    requires
        0 <= k <= ranges.len(),
    ensures
        ranges_sum(value, ranges.take(k)) <= ranges_sum(value, ranges),
    decreases ranges.len() - k,
{
    if k < ranges.len() {
        lemma_ranges_sum_grows(value, ranges, k + 1);
        assert(ranges.take(k + 1).drop_last() =~= ranges.take(k));
    } else {
        assert(ranges.take(k) =~= ranges);
    }
}

/// The digits as numbers.
pub open spec fn as_nats(digits: Seq<u8>) -> Seq<nat> {
    Seq::new(digits.len(), |i: int| digits[i] as nat)
}

/// Writes `id` in base ten, the first digit first.
pub fn digits(id: Id) -> (r: Vec<u8>)
    ensures
        as_nats(r@) == digits_of(id as nat),
{
    let mut low: Vec<u8> = Vec::new();
    let mut m: usize = id;
    assert(digits_of(id as nat) =~= digits_of(m as nat) + as_nats(low@).reverse());
    loop
        invariant_except_break
            digits_of(id as nat) == digits_of(m as nat) + as_nats(low@).reverse(),
        ensures
            digits_of(id as nat) == as_nats(low@).reverse(),
        decreases m,
    {
        let ghost before = as_nats(low@);
        low.push((m % 10) as u8);
        assert(as_nats(low@) =~= before.push((m % 10) as nat));
        assert(as_nats(low@).reverse() =~= seq![(m % 10) as nat] + before.reverse());
        if m < 10 {
            assert(digits_of(id as nat) =~= as_nats(low@).reverse());
            break ;
        }
        assert(digits_of(m as nat) == digits_of((m / 10) as nat).push((m % 10) as nat));
        assert(digits_of(id as nat) =~= digits_of((m / 10) as nat) + as_nats(low@).reverse());
        m = m / 10;
    }
    let n = low.len();
    let mut result: Vec<u8> = Vec::new();
    let mut i: usize = 0;
    while i < n
        invariant
            i <= n,
            n == low.len(),
            result.len() == i,
            forall|j: int| 0 <= j < i ==> #[trigger] result[j] == low[n - 1 - j],
        decreases n - i,
    {
        result.push(low[n - 1 - i]);
        i = i + 1;
    }
    assert(as_nats(result@) =~= as_nats(low@).reverse());
    result
}

/// Tells whether the digits are their first `k` digits written two or
/// more times.
pub fn is_pattern(digits: &Vec<u8>, k: usize) -> (r: bool)
    ensures
        r == repeats(as_nats(digits@), k as int),
{
    let n = digits.len();
    if k == 0 || k > n / 2 || n % k != 0 {
        return false;
    }
    let mut i: usize = 0;
    while i < n
        invariant
            i <= n,
            n == digits.len(),
            1 <= k <= n / 2,
            n % k == 0,
            forall|j: int|
                0 <= j < i ==> #[trigger] as_nats(digits@)[j] == as_nats(digits@)[j % (k as int)],
        decreases n - i,
    {
        if digits[i] != digits[i % k] {
            assert(as_nats(digits@)[i as int] != as_nats(digits@)[(i as int) % (k as int)]);
            return false;
        }
        i = i + 1;
    }
    true
}

/// Tells whether the digits of `id` are a group written exactly twice,
/// and whether they are a group written two or more times.
pub fn classify(id: Id) -> (r: (bool, bool))
    ensures
        r.0 == is_twice(id as nat),
        r.1 == is_repeated(id as nat),
{
    let id_digits = digits(id);
    let ghost d = digits_of(id as nat);
    let n = id_digits.len();
    let mut accept = false;
    let mut twice = false;
    let mut substr_len: usize = 1;
    while substr_len <= n / 2
        invariant
            1 <= substr_len <= n / 2 + 1,
            n == d.len(),
            d == as_nats(id_digits@),
            accept == (exists|k: int| 1 <= k < substr_len && repeats(d, k)),
            twice == (exists|k: int| 1 <= k < substr_len && repeats(d, k) && 2 * k == n),
        decreases n / 2 + 1 - substr_len,
    {
        let ok = is_pattern(&id_digits, substr_len);
        if ok {
            accept = true;
            if n / substr_len == 2 {
                assert(2 * substr_len == n) by (nonlinear_arith)
                    requires
                        n as int % substr_len as int == 0,
                        n as int / substr_len as int == 2,
                        substr_len >= 1,
                ;
                twice = true;
            }
        }
        proof {
            if 2 * substr_len == n {
                assert(n as int / substr_len as int == 2) by (nonlinear_arith)
                    requires
                        2 * substr_len == n,
                        substr_len >= 1,
                ;
            }
        }
        substr_len = substr_len + 1;
    }
    proof {
        if is_repeated(id as nat) {
            let k = choose|k: int| repeats(d, k);
            assert(1 <= k < substr_len && repeats(d, k));
        }
        if is_twice(id as nat) {
            let k = choose|k: int| repeats(d, k) && 2 * k == d.len();
            assert(1 <= k < substr_len && repeats(d, k) && 2 * k == n);
        }
    }
    (twice, accept)
}

/// The two sums of the ranges, or `None` where the second of them is
/// more than an `i64` holds: first the sum of the numbers that are a group
/// of digits written exactly twice, then the sum of the numbers that are a
/// group written two or more times.
pub open spec fn sums_of(ranges: Seq<IdRange>) -> Option<(i64, i64)> {
    if ranges_sum(repeated_values(), ranges) <= i64::MAX {
        Some(
            (
                ranges_sum(twice_values(), ranges) as i64,
                ranges_sum(repeated_values(), ranges) as i64,
            ),
        )
    } else {
        None
    }
}

/// Adds up, over all ranges, the numbers that are a group of digits
/// written exactly twice, and the numbers that are a group written two or
/// more times. Fails where the second sum is more than an `i64` holds.
pub fn sum_ranges(records: &Vec<IdRange>) -> (r: Option<(i64, i64)>)
    ensures
        r == sums_of(records@),
{
    let mut repeat_accumulator: i64 = 0;
    let mut exactly_two_accumulator: i64 = 0;
    let mut r: usize = 0;
    assert(records@.take(0) =~= Seq::<IdRange>::empty());
    while r < records.len()
        invariant
            r <= records.len(),
            0 <= exactly_two_accumulator <= repeat_accumulator,
            exactly_two_accumulator == ranges_sum(twice_values(), records@.take(r as int)),
            repeat_accumulator == ranges_sum(repeated_values(), records@.take(r as int)),
        decreases records.len() - r,
    {
        let record = records[r];
        let ghost two_before = exactly_two_accumulator;
        let ghost all_before = repeat_accumulator;
        proof {
            assert(records@.take(r + 1).drop_last() =~= records@.take(r as int));
            assert(records@.take(r + 1).last() == record);
        }
        if record.start <= record.end {
            let mut id: usize = record.start;
            loop
                invariant_except_break
                    record.start <= id <= record.end,
                    exactly_two_accumulator == two_before + range_sum(
                        twice_values(),
                        record.start as int,
                        id - 1,
                    ),
                    repeat_accumulator == all_before + range_sum(
                        repeated_values(),
                        record.start as int,
                        id - 1,
                    ),
                invariant
                    r < records.len(),
                    record == records@[r as int],
                    0 <= two_before <= all_before,
                    all_before == ranges_sum(repeated_values(), records@.take(r as int)),
                    0 <= exactly_two_accumulator <= repeat_accumulator,
                ensures
                    exactly_two_accumulator == two_before + range_sum(
                        twice_values(),
                        record.start as int,
                        record.end as int,
                    ),
                    repeat_accumulator == all_before + range_sum(
                        repeated_values(),
                        record.start as int,
                        record.end as int,
                    ),
                decreases record.end - id,
            {
                let (twice, accept) = classify(id);
                if accept {
                    if id as u64 > (i64::MAX - repeat_accumulator) as u64 {
                        proof {
                            lemma_range_sum_grows(
                                repeated_values(),
                                record.start as int,
                                id as int,
                                record.end as int,
                            );
                            lemma_ranges_sum_grows(repeated_values(), records@, r + 1);
                            assert(records@.take(r + 1).drop_last() =~= records@.take(r as int));
                            assert(records@.take(r + 1).last() == record);
                        }
                        return None;
                    }
                    repeat_accumulator = repeat_accumulator + id as i64;
                    if twice {
                        exactly_two_accumulator = exactly_two_accumulator + id as i64;
                    }
                }
                if id == record.end {
                    break ;
                }
                id = id + 1;
            }
        }
        r = r + 1;
    }
    assert(records@.take(records.len() as int) =~= records@);
    Some((exactly_two_accumulator, repeat_accumulator))
}

/// The range that a record stands for: the text that matched, then the
/// two numbers.
pub open spec fn range_of(record: Seq<Seq<char>>) -> Option<IdRange> {
    if record.len() == 3 && decimal_up_to(record[1], usize::MAX as int) is Some && decimal_up_to(
        record[2],
        usize::MAX as int,
    ) is Some {
        Some(
            IdRange {
                start: decimal_up_to(record[1], usize::MAX as int)->Some_0 as usize,
                end: decimal_up_to(record[2], usize::MAX as int)->Some_0 as usize,
            },
        )
    } else {
        None
    }
}

/// The ranges that the records stand for, or `None` where some record
/// stands for none.
pub open spec fn ranges_of(records: Seq<Seq<Seq<char>>>) -> Option<Seq<IdRange>> {
    if forall|i: int| 0 <= i < records.len() ==> range_of(#[trigger] records[i]) is Some {
        Some(Seq::new(records.len(), |i: int| range_of(records[i])->Some_0))
    } else {
        None
    }
}

/// Reads one range from each record; see [`range_of`].
pub fn ranges_from_records(records: &Vec<Vec<String>>) -> (r: Option<Vec<IdRange>>)
    ensures
        match r {
            Some(ranges) => ranges_of(records.deep_view()) == Some(ranges@),
            None => ranges_of(records.deep_view()) is None,
        },
{
    let mut result: Vec<IdRange> = Vec::new();
    let mut i: usize = 0;
    while i < records.len()
        invariant
            i <= records.len(),
            result.len() == i,
            forall|j: int|
                0 <= j < i ==> range_of(#[trigger] records.deep_view()[j]) == Some(result@[j]),
        decreases records.len() - i,
    {
        let re_match = &records[i];
        assert(records.deep_view()[i as int] == re_match.deep_view());
        if re_match.len() != 3 {
            return None;
        }
        assert(re_match.deep_view()[1] == re_match[1]@);
        assert(re_match.deep_view()[2] == re_match[2]@);
        let start = parse_usize(re_match[1].as_str());
        let end = parse_usize(re_match[2].as_str());
        match (start, end) {
            (Some(start), Some(end)) => {
                result.push(IdRange { start, end });
            },
            _ => {
                return None;
            },
        }
        i = i + 1;
    }
    assert(result@ =~= ranges_of(records.deep_view())->Some_0);
    Some(result)
}

/// The regular expression that finds a range: two runs of digits with a
/// hyphen between them.
pub const RANGE_PATTERN: &'static str = "(\\d+)-(\\d+)";

/// The records of the ranges in the lines: every line is cut at its
/// commas, and each piece that holds a range gives one record.
pub open spec fn range_records(lines: Seq<Seq<char>>) -> Seq<Seq<Seq<char>>> {
    regex_records(pieces_of_all(lines, ','), RANGE_PATTERN@)
}

/// Reads the ranges that stand in the lines with commas between them, and
/// passes over what holds no range. Fails where a number is written in
/// digits other than `0` to `9` or does not fit in an `Id`.
pub fn read_input(lines: &Vec<String>) -> (r: Option<Vec<IdRange>>)
    ensures
        match r {
            Some(ranges) => ranges_of(range_records(lines.deep_view())) == Some(ranges@),
            None => ranges_of(range_records(lines.deep_view())) is None,
        },
{
    let pieces = split_all(lines, ',');
    let records = read_regex_records(&pieces, RANGE_PATTERN);
    ranges_from_records(&records)
}

/// What [`day2`] returns for the lines: nothing where the ranges cannot be
/// read, else the sums of the ranges.
pub open spec fn outcome(lines: Seq<Seq<char>>) -> Option<(i64, i64)> {
    match ranges_of(range_records(lines)) {
        Some(ranges) => sums_of(ranges),
        None => None,
    }
}

/// Reads the ranges and adds up their numbers: see [`read_input`] and
/// [`sum_ranges`].
pub fn day2(lines: &Vec<String>) -> (r: Option<(i64, i64)>)
    ensures
        r == outcome(lines.deep_view()),
{
    match read_input(lines) {
        Some(records) => sum_ranges(&records),
        None => None,
    }
}

/// The sum of the numbers that are a group of digits written exactly
/// twice; fails as [`day2`] does.
pub fn solution_a(lines: &Vec<String>) -> (r: Option<i64>)
    ensures
        r == first_of(outcome(lines.deep_view())),
{
    match day2(lines) {
        Some((twice, _)) => Some(twice),
        None => None,
    }
}

/// The sum of the numbers that are a group of digits written two or more
/// times; fails as [`day2`] does.
pub fn solution_b(lines: &Vec<String>) -> (r: Option<i64>)
    ensures
        r == second_of(outcome(lines.deep_view())),
{
    match day2(lines) {
        Some((_, repeated)) => Some(repeated),
        None => None,
    }
}

} // verus!
