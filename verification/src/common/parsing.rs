//! Turning lines of text into records and numbers.

use vstd::prelude::*;

verus! {

/// What the regular expression `pattern` captures in `text`: the text of the
/// first match and then of each of its groups, in the order of the groups,
/// with an empty text for a group that took no part in the match; or `None`
/// where nothing matches or `pattern` is no regular expression.
pub uninterp spec fn regex_captures(pattern: Seq<char>, text: Seq<char>) -> Option<Seq<Seq<char>>>;

/// Compiles `pattern` with `regex::Regex::new` and searches `text` with
/// `regex::Regex::captures`.
///
/// Nothing is proved of this function. Its contract gives the outcome the
/// name [`regex_captures`] and so claims one thing only: that the outcome
/// depends on the pattern and the text alone.
#[verifier::external_body]
fn captures(pattern: &str, text: &str) -> (r: Option<Vec<String>>)
    ensures
        r.deep_view() == regex_captures(pattern@, text@),
{
    let re = regex::Regex::new(pattern).ok()?;
    let found = re.captures(text)?;
    Some(found.iter().map(|g| g.map_or(String::new(), |m| m.as_str().to_string())).collect())
}

/// The captures of every line that `pattern` matches, in the order of the
/// lines. Lines without a match are passed over.
pub open spec fn regex_records(lines: Seq<Seq<char>>, pattern: Seq<char>) -> Seq<Seq<Seq<char>>>
    decreases lines.len(),
{
    if lines.len() == 0 {
        Seq::empty()
    } else {
        let earlier = regex_records(lines.drop_last(), pattern);
        match regex_captures(pattern, lines.last()) {
            Some(groups) => earlier.push(groups),
            None => earlier,
        }
    }
}

/// Searches each line for `pattern` and returns one record for every line
/// that matches: the text of the match, then the text of each group.
pub fn read_regex_records(lines: &Vec<String>, pattern: &str) -> (records: Vec<Vec<String>>)
    ensures
        records.deep_view() == regex_records(lines.deep_view(), pattern@),
{
    let mut records: Vec<Vec<String>> = Vec::new();
    let mut i: usize = 0;
    assert(lines.deep_view().take(0) =~= Seq::empty());
    assert(records.deep_view() =~= Seq::empty());
    while i < lines.len()
        invariant
            i <= lines.len(),
            records.deep_view() == regex_records(lines.deep_view().take(i as int), pattern@),
        decreases lines.len() - i,
    {
        let ghost before = records.deep_view();
        let found = captures(pattern, lines[i].as_str());
        proof {
            assert(lines.deep_view().take(i + 1).drop_last() =~= lines.deep_view().take(i as int));
            assert(lines.deep_view().take(i + 1).last() == lines[i as int]@);
        }
        match found {
            Some(groups) => {
                let ghost g = groups.deep_view();
                records.push(groups);
                assert(records.deep_view() =~= before.push(g));
            },
            None => {},
        }
        i = i + 1;
    }
    assert(lines.deep_view().take(lines.len() as int) =~= lines.deep_view());
    records
}

/// `String::push` of the standard library appends the character to the end
/// of the string. This is taken from its documentation and not proved.
pub assume_specification[ String::push ](s: &mut String, ch: char)
    ensures
        final(s)@ == old(s)@.push(ch),
;

/// The pieces of `text` between the separators: one more than there are
/// separators, some of them empty where two separators meet or one stands
/// at an end.
pub open spec fn pieces_of(text: Seq<char>, separator: char) -> Seq<Seq<char>>
    decreases text.len(),
{
    if text.len() == 0 {
        seq![Seq::<char>::empty()]
    } else {
        let before = pieces_of(text.drop_last(), separator);
        if text.last() == separator {
            before.push(Seq::<char>::empty())
        } else {
            before.update(before.len() - 1, before.last().push(text.last()))
        }
    }
}

/// Cuts `text` at every separator and returns the pieces in their order.
pub fn split_on(text: &str, separator: char) -> (pieces: Vec<String>)
    ensures
        pieces.deep_view() == pieces_of(text@, separator),
{
    let mut result: Vec<String> = Vec::new();
    let mut current = String::new();
    assert(text@.take(0) =~= Seq::<char>::empty());
    assert(result.deep_view().push(current@) =~= pieces_of(text@.take(0), separator));
    for c in iter: text.chars()
        invariant
            iter.seq() == text@,
            result.deep_view().push(current@) == pieces_of(
                text@.take(iter.index() as int),
                separator,
            ),
    {
        let ghost i = iter.index();
        let ghost done = result.deep_view();
        let ghost piece = current@;
        proof {
            assert(text@.take(i + 1).drop_last() =~= text@.take(i as int));
            assert(text@.take(i + 1).last() == c);
        }
        if c == separator {
            result.push(current);
            current = String::new();
            assert(result.deep_view() =~= done.push(piece));
            assert(result.deep_view().push(current@) =~= done.push(piece).push(
                Seq::<char>::empty(),
            ));
        } else {
            current.push(c);
            assert(result.deep_view().push(current@) =~= done.push(piece).update(
                done.len() as int,
                piece.push(c),
            ));
        }
    }
    assert(text@.take(text@.len() as int) =~= text@);
    let ghost done = result.deep_view();
    let ghost piece = current@;
    result.push(current);
    assert(result.deep_view() =~= done.push(piece));
    result
}

/// The pieces of all lines, in the order of the lines.
pub open spec fn pieces_of_all(lines: Seq<Seq<char>>, separator: char) -> Seq<Seq<char>>
    decreases lines.len(),
{
    if lines.len() == 0 {
        Seq::empty()
    } else {
        pieces_of_all(lines.drop_last(), separator) + pieces_of(lines.last(), separator)
    }
}

/// Cuts every line at every separator and returns all pieces in their
/// order.
pub fn split_all(lines: &Vec<String>, separator: char) -> (pieces: Vec<String>)
    ensures
        pieces.deep_view() == pieces_of_all(lines.deep_view(), separator),
{
    let mut result: Vec<String> = Vec::new();
    let mut i: usize = 0;
    assert(lines.deep_view().take(0) =~= Seq::empty());
    assert(result.deep_view() =~= Seq::empty());
    while i < lines.len()
        invariant
            i <= lines.len(),
            result.deep_view() == pieces_of_all(lines.deep_view().take(i as int), separator),
        decreases lines.len() - i,
    {
        let ghost done = result.deep_view();
        let mut more = split_on(lines[i].as_str(), separator);
        let ghost added = more.deep_view();
        proof {
            assert(lines.deep_view().take(i + 1).drop_last() =~= lines.deep_view().take(i as int));
            assert(lines.deep_view().take(i + 1).last() == lines[i as int]@);
        }
        result.append(&mut more);
        assert(result.deep_view() =~= done + added);
        i = i + 1;
    }
    assert(lines.deep_view().take(lines.len() as int) =~= lines.deep_view());
    result
}

/// The characters of the text.
pub fn chars_of(text: &str) -> (chars: Vec<char>)
    ensures
        chars@ == text@,
{
    let mut chars: Vec<char> = Vec::new();
    for c in iter: text.chars()
        invariant
            iter.seq() == text@,
            chars@ == text@.take(iter.index() as int),
    {
        chars.push(c);
        assert(chars@ =~= text@.take(iter.index() + 1));
    }
    assert(text@.take(text@.len() as int) =~= text@);
    chars
}

/// Tells whether the two texts are the same, character by character.
pub fn same_text(a: &str, b: &str) -> (same: bool)
    ensures
        same == (a@ == b@),
{
    let other = chars_of(b);
    let mut i: usize = 0;
    for c in iter: a.chars()
        invariant
            iter.seq() == a@,
            other@ == b@,
            i == iter.index(),
            i <= other.len(),
            forall|k: int| 0 <= k < i ==> a@[k] == b@[k],
    {
        if i >= other.len() || other[i] != c {
            return false;
        }
        i = i + 1;
    }
    if i == other.len() {
        assert(a@ =~= b@);
        true
    } else {
        false
    }
}

/// `c` is one of the digits `0` to `9`.
pub open spec fn is_digit(c: char) -> bool {
    '0' <= c <= '9'
}

/// The value of the digit `c`.
pub open spec fn digit_value(c: char) -> nat {
    (c as nat - '0' as nat) as nat
}

/// Every character of `s` is a digit; `s` may be empty.
pub open spec fn all_digits(s: Seq<char>) -> bool {
    forall|i: int| 0 <= i < s.len() ==> is_digit(#[trigger] s[i])
}

/// The number that the digits of `s` spell in base ten.
pub open spec fn decimal_value(s: Seq<char>) -> nat
    decreases s.len(),
{
    if s.len() == 0 {
        0
    } else {
        10 * decimal_value(s.drop_last()) + digit_value(s.last())
    }
}

/// The number that `s` spells, where `s` is one or more digits and the
/// number is at most `limit`.
pub open spec fn decimal_up_to(s: Seq<char>, limit: int) -> Option<int> {
    if s.len() > 0 && all_digits(s) && decimal_value(s) <= limit {
        Some(decimal_value(s) as int)
    } else {
        None
    }
}

/// A longer run of digits does not spell a smaller number.
proof fn lemma_decimal_grows(s: Seq<char>, k: int)
    requires
        0 <= k <= s.len(),
    ensures
        decimal_value(s.take(k)) <= decimal_value(s),
    decreases s.len() - k,
{
    if k < s.len() {
        lemma_decimal_grows(s, k + 1);
        assert(s.take(k + 1).drop_last() =~= s.take(k));
    } else {
        assert(s.take(k) =~= s);
    }
}

/// Reads `s` as a number in base ten.
///
/// Returns the number where `s` is one or more of the digits `0` to `9`
/// and the number fits in a `u64`, and `None` otherwise: there is no sign,
/// no space and no digit of another script.
pub fn parse_digits(s: &str) -> (r: Option<u64>)
    ensures
        r == if s@.len() > 0 && all_digits(s@) && decimal_value(s@) <= u64::MAX {
            Some(decimal_value(s@) as u64)
        } else {
            None::<u64>
        },
        r is Some <==> decimal_up_to(s@, u64::MAX as int) is Some,
        r is Some ==> r->Some_0 == decimal_up_to(s@, u64::MAX as int)->Some_0,
{
    let mut value: u64 = 0;
    let mut seen = false;
    assert(s@.take(0) =~= Seq::<char>::empty());
    for c in iter: s.chars()
        invariant
            iter.seq() == s@,
            seen == (iter.index() > 0),
            all_digits(s@.take(iter.index() as int)),
            value == decimal_value(s@.take(iter.index() as int)),
    {
        let ghost i = iter.index();
        proof {
            assert(s@.take(i + 1).drop_last() =~= s@.take(i as int));
            assert(s@.take(i + 1).last() == c);
        }
        if !(c >= '0' && c <= '9') {
            assert(!is_digit(s@[i as int]));
            return None;
        }
        let d: u64 = (c as u32 - '0' as u32) as u64;
        if value > (u64::MAX - d) / 10 {
            proof {
                lemma_decimal_grows(s@, i + 1);
            }
            return None;
        }
        value = 10 * value + d;
        seen = true;
        assert(all_digits(s@.take(i + 1))) by {
            assert forall|j: int| 0 <= j < i + 1 implies is_digit(#[trigger] s@.take(i + 1)[j]) by {
                if j < i {
                    assert(is_digit(s@.take(i as int)[j]));
                }
            }
        }
    }
    assert(s@.take(s@.len() as int) =~= s@);
    if seen {
        Some(value)
    } else {
        None
    }
}

/// Reads `s` as a number in base ten that fits in an `i64`; see
/// [`parse_digits`].
pub fn parse_i64(s: &str) -> (r: Option<i64>)
    ensures
        r == if s@.len() > 0 && all_digits(s@) && decimal_value(s@) <= i64::MAX {
            Some(decimal_value(s@) as i64)
        } else {
            None::<i64>
        },
        r is Some <==> decimal_up_to(s@, i64::MAX as int) is Some,
        r is Some ==> r->Some_0 == decimal_up_to(s@, i64::MAX as int)->Some_0,
{
    match parse_digits(s) {
        Some(v) => if v <= i64::MAX as u64 {
            Some(v as i64)
        } else {
            None
        },
        None => None,
    }
}

/// Reads `s` as a number in base ten that fits in a `usize`; see
/// [`parse_digits`].
pub fn parse_usize(s: &str) -> (r: Option<usize>)
    ensures
        r == if s@.len() > 0 && all_digits(s@) && decimal_value(s@) <= usize::MAX {
            Some(decimal_value(s@) as usize)
        } else {
            None::<usize>
        },
        r is Some <==> decimal_up_to(s@, usize::MAX as int) is Some,
        r is Some ==> r->Some_0 == decimal_up_to(s@, usize::MAX as int)->Some_0,
{
    match parse_digits(s) {
        Some(v) => if v <= usize::MAX as u64 {
            Some(v as usize)
        } else {
            None
        },
        None => None,
    }
}

} // verus!
