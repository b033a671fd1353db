//! Times of day written as `HH:MM`: reading them, ordering them, and testing
//! whether one lies in a range.

use crate::text::{
    all_numbers, decimal_value, digit_value, fields, is_digit, lemma_fields_cover,
    lemma_number_chars, number_of, parse_u32, split, texts, unsigned_part,
};
use std::cmp::Ordering;
use vstd::prelude::*;

verus! {

/// Why a text is not a time of day.
#[derive(Debug, Clone, Copy, PartialEq, Eq, Structural)]
pub enum TimeParseError {
    /// One of the fields between the colons is not an unsigned integer.
    InvalidNumber,
    /// Every field is an unsigned integer, but there is no colon, so no minutes.
    MissingMinutes,
}

/// What a text denotes as a time of day.
///
/// The text is cut at its colons. Every field has to be an unsigned integer
/// that fits 32 bits; the first is the hour and the second the minute. Fields
/// after the second are checked like the others and otherwise ignored. Hours
/// and minutes are not held to any range: `99:99` is the pair `(99, 99)`.
pub open spec fn parsed_time(s: Seq<char>) -> Result<(u32, u32), TimeParseError> {
    let parts = fields(s, ':');
    if !all_numbers(parts) {
        Err(TimeParseError::InvalidNumber)
    } else if parts.len() < 2 {
        Err(TimeParseError::MissingMinutes)
    } else {
        Ok((number_of(parts[0])->0, number_of(parts[1])->0))
    }
}

/// `s` denotes a time of day.
pub open spec fn is_time(s: Seq<char>) -> bool {
    parsed_time(s) is Ok
}

/// The (hour, minute) pair that `s` denotes; meaningful where `is_time(s)`.
pub open spec fn time_of(s: Seq<char>) -> (u32, u32) {
    parsed_time(s)->Ok_0
}

/// `a` is not later than `b`: hours decide, minutes break ties.
pub open spec fn time_le(a: (u32, u32), b: (u32, u32)) -> bool {
    a.0 < b.0 || (a.0 == b.0 && a.1 <= b.1)
}

/// How `a` stands to `b` in the order of `time_le`.
pub open spec fn time_order(a: (u32, u32), b: (u32, u32)) -> Ordering {
    if a.0 < b.0 || (a.0 == b.0 && a.1 < b.1) {
        Ordering::Less
    } else if a.0 == b.0 && a.1 == b.1 {
        Ordering::Equal
    } else {
        Ordering::Greater
    }
}

/// Range membership, hour by hour.
///
/// A time whose hour is outside the hours of `start` and `end` is out. Where
/// all three hours agree the minute has to lie between the two minutes,
/// inclusive. In the hour of `start` alone only the lower minute is tested, in
/// the hour of `end` alone only the upper one, and in the hours strictly
/// between them the minute is not looked at.
pub open spec fn in_range(t: (u32, u32), start: (u32, u32), end: (u32, u32)) -> bool {
    if t.0 < start.0 || t.0 > end.0 {
        false
    } else if start.0 == end.0 {
        start.1 <= t.1 && t.1 <= end.1
    } else if t.0 == start.0 {
        t.1 >= start.1
    } else if t.0 == end.0 {
        t.1 <= end.1
    } else {
        true
    }
}

/// Reads a time of day from `t`.
pub fn parse_time(t: &str) -> (r: Result<(u32, u32), TimeParseError>)
    ensures
        r == parsed_time(t@),
{
    let parts = split(t, ':');
    let mut numbers: Vec<u32> = Vec::new();
    let mut i: usize = 0;
    while i < parts.len()
        invariant
            i <= parts.len(),
            texts(parts@) == fields(t@, ':'),
            numbers.len() == i,
            forall|j: int| 0 <= j < i ==> number_of(#[trigger] texts(parts@)[j]) == Some(numbers[j]),
        decreases parts.len() - i,
    {
        match parse_u32(parts[i]) {
            Some(n) => {
                numbers.push(n);
            },
            None => {
                assert(number_of(texts(parts@)[i as int]) is None);
                return Err(TimeParseError::InvalidNumber);
            },
        }
        i = i + 1;
    }
    if numbers.len() < 2 {
        Err(TimeParseError::MissingMinutes)
    } else {
        Ok((numbers[0], numbers[1]))
    }
}

/// The pair that a text known to be a time denotes.
fn parse_valid(t: &str) -> (r: (u32, u32))
    requires
        is_time(t@),
    ensures
        r == time_of(t@),
{
    match parse_time(t) {
        Ok(pair) => pair,
        Err(_) => vstd::pervasive::unreached(),
    }
}

/// Orders two times of day: by hour, then by minute.
///
/// Two texts compare equal exactly when they denote the same hour and the same
/// minute, however they are written.
pub fn time_cmp(a: &str, b: &str) -> (r: Ordering)
    requires
        is_time(a@),
        is_time(b@),
    ensures
        r == time_order(time_of(a@), time_of(b@)),
        r == Ordering::Equal <==> time_of(a@) == time_of(b@),
{
    let (a_hours, a_minutes) = parse_valid(a);
    let (b_hours, b_minutes) = parse_valid(b);
    let (x, y) = if a_hours == b_hours {
        (a_minutes, b_minutes)
    } else {
        (a_hours, b_hours)
    };
    if x < y {
        Ordering::Less
    } else if x == y {
        Ordering::Equal
    } else {
        Ordering::Greater
    }
}

/// Whether `t` lies in the range from `start` to `end`, both included.
pub fn time_in_range(t: &str, start: &str, end: &str) -> (r: bool)
    requires
        is_time(t@),
        is_time(start@),
        is_time(end@),
    ensures
        r == in_range(time_of(t@), time_of(start@), time_of(end@)),
{
    let (t_hours, t_minutes) = parse_valid(t);
    let (start_hours, start_minutes) = parse_valid(start);
    let (end_hours, end_minutes) = parse_valid(end);

    if t_hours < start_hours || t_hours > end_hours {
        return false;
    }
    if start_hours == end_hours && start_hours == t_hours {
        return (t_minutes >= start_minutes) && (t_minutes <= end_minutes);
    }
    if t_hours == start_hours {
        return t_minutes >= start_minutes;
    }
    if t_hours == end_hours {
        return t_minutes <= end_minutes;
    }
    true
}

/// The order of times is total: of two times, one is not later than the other.
pub proof fn lemma_time_le_total(a: (u32, u32), b: (u32, u32))
    ensures
        time_le(a, b) || time_le(b, a),
{
}

/// Every time is not later than itself.
pub proof fn lemma_time_le_reflexive(a: (u32, u32))
    ensures
        time_le(a, a),
{
}

/// Two times each not later than the other are the same hour and minute.
pub proof fn lemma_time_le_antisymmetric(a: (u32, u32), b: (u32, u32))
    requires
        time_le(a, b),
        time_le(b, a),
    ensures
        a == b,
{
}

/// The order of times is transitive.
pub proof fn lemma_time_le_transitive(a: (u32, u32), b: (u32, u32), c: (u32, u32))
    requires
        time_le(a, b),
        time_le(b, c),
    ensures
        time_le(a, c),
{
}

/// A comparison says `Less` or `Equal` exactly where `time_le` holds, `Equal`
/// exactly for the same pair, and turns round when its arguments are swapped.
pub proof fn lemma_time_order_agrees(a: (u32, u32), b: (u32, u32))
    ensures
        time_le(a, b) <==> time_order(a, b) != Ordering::Greater,
        time_order(a, b) == Ordering::Equal <==> a == b,
        time_order(a, b) == Ordering::Less <==> time_order(b, a) == Ordering::Greater,
{
}

/// Range membership is membership in the closed interval of the order of
/// times: not before `start` and not after `end`.
pub proof fn lemma_in_range_is_interval(t: (u32, u32), start: (u32, u32), end: (u32, u32))
    ensures
        in_range(t, start, end) <==> time_le(start, t) && time_le(t, end),
{
}

/// In an hour strictly between the hours of `start` and `end`, every minute is
/// in range.
pub proof fn lemma_in_range_inner_hour(t: (u32, u32), start: (u32, u32), end: (u32, u32))
    requires
        start.0 < t.0,
        t.0 < end.0,
    ensures
        in_range(t, start, end),
{
}

/// A text of two digits, a colon and two digits is a time of day, and denotes
/// the hour and the minute that the digits spell.
pub proof fn lemma_hh_mm_is_time(s: Seq<char>)
    requires
        s.len() == 5,
        is_digit(s[0]),
        is_digit(s[1]),
        s[2] == ':',
        is_digit(s[3]),
        is_digit(s[4]),
    ensures
        parsed_time(s) == Ok::<(u32, u32), TimeParseError>(
            (
                (10 * digit_value(s[0]) + digit_value(s[1])) as u32,
                (10 * digit_value(s[3]) + digit_value(s[4])) as u32,
            ),
        ),
{
    let s1 = s.take(1);
    let s2 = s.take(2);
    let s3 = s.take(3);
    let s4 = s.take(4);
    assert(s.drop_last() =~= s4);
    assert(s4.drop_last() =~= s3);
    assert(s3.drop_last() =~= s2);
    assert(s2.drop_last() =~= s1);
    assert(s1.drop_last() =~= Seq::<char>::empty());
    let hh = seq![s[0], s[1]];
    let mm = seq![s[3], s[4]];
    reveal_with_fuel(fields, 6);
    assert(fields(s1, ':') =~~= seq![seq![s[0]]]);
    assert(fields(s2, ':') =~~= seq![hh]);
    assert(fields(s3, ':') =~~= seq![hh, Seq::<char>::empty()]);
    assert(fields(s4, ':') =~~= seq![hh, seq![s[3]]]);
    assert(fields(s, ':') =~~= seq![hh, mm]);
    lemma_two_digits(hh);
    lemma_two_digits(mm);
}

/// A time of day is written with digits, colons and plus signs alone.
pub proof fn lemma_time_chars(s: Seq<char>, i: int)
    requires
        is_time(s),
        0 <= i < s.len(),
    ensures
        is_digit(s[i]) || s[i] == '+' || s[i] == ':',
{
    if s[i] != ':' {
        lemma_fields_cover(s, ':', i);
        let parts = fields(s, ':');
        let (j, k) = choose|j: int, k: int|
            0 <= j < parts.len() && 0 <= k < parts[j].len() && #[trigger] parts[j][k] == s[i];
        assert(number_of(parts[j]) is Some);
        lemma_number_chars(parts[j], k);
    }
}

/// Two digits denote ten times the first plus the second.
proof fn lemma_two_digits(d: Seq<char>)
    requires
        d.len() == 2,
        is_digit(d[0]),
        is_digit(d[1]),
    ensures
        number_of(d) == Some((10 * digit_value(d[0]) + digit_value(d[1])) as u32),
{
    reveal_with_fuel(decimal_value, 3);
    assert(d.drop_last() =~= seq![d[0]]);
    assert(d.drop_last().drop_last() =~= Seq::<char>::empty());
    assert(unsigned_part(d) == d);
}

} // verus!
