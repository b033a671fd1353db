//! Splitting text into fields and reading unsigned decimal numbers.

use vstd::prelude::*;

verus! {

/// The fields of `s` when cut at every occurrence of `sep`.
///
/// There is always at least one field; the fields of the empty text are one
/// empty field, and a trailing separator is followed by an empty field.
pub open spec fn fields(s: Seq<char>, sep: char) -> Seq<Seq<char>>
    decreases s.len(),
{
    if s.len() == 0 {
        seq![Seq::<char>::empty()]
    } else {
        let before = fields(s.drop_last(), sep);
        if s.last() == sep {
            before.push(Seq::<char>::empty())
        } else {
            before.drop_last().push(before.last().push(s.last()))
        }
    }
}

/// The texts of a list of string slices.
pub open spec fn texts(parts: Seq<&str>) -> Seq<Seq<char>> {
    Seq::new(parts.len(), |i: int| parts[i]@)
}

/// The texts of a list of strings.
pub open spec fn owned_texts(v: Seq<String>) -> Seq<Seq<char>> {
    Seq::new(v.len(), |i: int| v[i]@)
}

/// The character is one of the ten decimal digits.
pub open spec fn is_digit(c: char) -> bool {
    '0' <= c && c <= '9'
}

/// The value of a decimal digit, and 0 for any other character.
pub open spec fn digit_value(c: char) -> nat {
    if is_digit(c) {
        (c as u32 - 48) as nat
    } else {
        0
    }
}

/// Every character of `s` is a decimal digit.
pub open spec fn all_digits(s: Seq<char>) -> bool {
    forall|i: int| 0 <= i < s.len() ==> is_digit(#[trigger] s[i])
}

/// The number that a run of decimal digits denotes, most significant digit first.
pub open spec fn decimal_value(s: Seq<char>) -> nat
    decreases s.len(),
{
    if s.len() == 0 {
        0
    } else {
        10 * decimal_value(s.drop_last()) + digit_value(s.last())
    }
}

/// `s` without its leading plus sign, if it has one.
pub open spec fn unsigned_part(s: Seq<char>) -> Seq<char> {
    if s.len() > 0 && s[0] == '+' {
        s.drop_first()
    } else {
        s
    }
}

/// The 32-bit unsigned integer that `s` denotes: an optional `+`, then one or
/// more decimal digits and nothing else, whose value is at most `u32::MAX`.
/// Leading zeros are allowed. `None` for every other text.
pub open spec fn number_of(s: Seq<char>) -> Option<u32> {
    let digits = unsigned_part(s);
    if digits.len() > 0 && all_digits(digits) && decimal_value(digits) <= u32::MAX {
        Some(decimal_value(digits) as u32)
    } else {
        None
    }
}

/// Every text of the list denotes a number.
pub open spec fn all_numbers(parts: Seq<Seq<char>>) -> bool {
    forall|i: int| 0 <= i < parts.len() ==> (#[trigger] number_of(parts[i])) is Some
}

/// A run of digits is worth at least as much as any of its prefixes.
pub proof fn lemma_decimal_value_prefix(s: Seq<char>, k: int)
    requires
        0 <= k <= s.len(),
    ensures
        decimal_value(s.take(k)) <= decimal_value(s),
    decreases s.len(),
{
    if k == s.len() {
        assert(s.take(k) =~= s);
    } else {
        lemma_decimal_value_prefix(s.drop_last(), k);
        assert(s.drop_last().take(k) =~= s.take(k));
    }
}

/// Every character of `s` other than `sep` stands in one of the fields.
pub proof fn lemma_fields_cover(s: Seq<char>, sep: char, i: int)
    requires
        0 <= i < s.len(),
        s[i] != sep,
    ensures
        exists|j: int, k: int|
            0 <= j < fields(s, sep).len() && 0 <= k < fields(s, sep)[j].len() && #[trigger] fields(
                s,
                sep,
            )[j][k] == s[i],
    decreases s.len(),
{
    let before = fields(s.drop_last(), sep);
    let all = fields(s, sep);
    lemma_fields_nonempty(s.drop_last(), sep);
    if i == s.len() - 1 {
        let j = all.len() - 1;
        let k = all[j].len() - 1;
        assert(all[j][k] == s[i]);
    } else {
        lemma_fields_cover(s.drop_last(), sep, i);
        let (j, k) = choose|j: int, k: int|
            0 <= j < before.len() && 0 <= k < before[j].len() && #[trigger] before[j][k]
                == s.drop_last()[i];
        if s.last() == sep || j < before.len() - 1 {
            assert(all[j][k] == s[i]);
        } else {
            assert(all[j] == before.last().push(s.last()));
            assert(all[j][k] == s[i]);
        }
    }
}

/// A text has at least one field.
pub proof fn lemma_fields_nonempty(s: Seq<char>, sep: char)
    ensures
        fields(s, sep).len() >= 1,
    decreases s.len(),
{
    if s.len() > 0 {
        lemma_fields_nonempty(s.drop_last(), sep);
    }
}

/// A text that denotes a number is made of digits, but for a plus sign that
/// may lead it.
pub proof fn lemma_number_chars(s: Seq<char>, k: int)
    requires
        number_of(s) is Some,
        0 <= k < s.len(),
    ensures
        is_digit(s[k]) || s[k] == '+',
{
    let digits = unsigned_part(s);
    if s[0] == '+' {
        if k > 0 {
            assert(digits[k - 1] == s[k]);
        }
    } else {
        assert(digits[k] == s[k]);
    }
}

/// Cuts `s` at every occurrence of `sep`.
pub fn split<'a>(s: &'a str, sep: char) -> (parts: Vec<&'a str>)
    ensures
        texts(parts@) == fields(s@, sep),
{
    let n = s.unicode_len();
    let mut parts: Vec<&'a str> = Vec::new();
    let mut start: usize = 0;
    let mut i: usize = 0;
    proof {
        assert(s@.take(0).len() == 0);
        assert(s@.subrange(0, 0) =~= Seq::<char>::empty());
        assert(texts(parts@).push(s@.subrange(0, 0)) =~= seq![Seq::<char>::empty()]);
    }
    for c in it: s.chars()
        invariant
            it.seq() == s@,
            n == s@.len(),
            i == it.index(),
            start <= i <= n,
            fields(s@.take(i as int), sep) == texts(parts@).push(
                s@.subrange(start as int, i as int),
            ),
    {
        proof {
            let whole = s@.take(i + 1);
            assert(whole.drop_last() =~= s@.take(i as int));
            assert(whole.last() == c);
            let before = texts(parts@).push(s@.subrange(start as int, i as int));
            assert(before.drop_last() =~= texts(parts@));
            assert(s@.subrange(start as int, i as int).push(c) =~= s@.subrange(
                start as int,
                i + 1,
            ));
            assert(s@.subrange(i + 1, i + 1) =~= Seq::<char>::empty());
        }
        if c == sep {
            let part = s.substring_char(start, i);
            proof {
                assert(texts(parts@.push(part)) =~= texts(parts@).push(part@));
            }
            parts.push(part);
            start = i + 1;
        }
        i = i + 1;
    }
    let part = s.substring_char(start, n);
    proof {
        assert(s@.take(n as int) =~= s@);
        assert(texts(parts@.push(part)) =~= texts(parts@).push(part@));
    }
    parts.push(part);
    parts
}

/// Reads `s` as a 32-bit unsigned decimal number.
pub fn parse_u32(s: &str) -> (r: Option<u32>)
    ensures
        r == number_of(s@),
{
    let ghost digits = unsigned_part(s@);
    let mut value: u32 = 0;
    let mut seen: usize = 0;
    let mut i: usize = 0;
    let n = s.unicode_len();
    for c in it: s.chars()
        invariant
            it.seq() == s@,
            n == s@.len(),
            i == it.index(),
            i <= n,
            digits == unsigned_part(s@),
            seen <= i,
            i == 0 ==> seen == 0,
            i > 0 ==> seen == digits.len() - (s@.len() - i),
            all_digits(digits.take(seen as int)),
            value == decimal_value(digits.take(seen as int)),
    {
        if i == 0 && c == '+' {
            assert(digits.take(0) =~= Seq::<char>::empty());
        } else {
            assert(c == digits[seen as int]);
            proof {
                let longer = digits.take(seen + 1);
                assert(longer.drop_last() =~= digits.take(seen as int));
                assert(longer.last() == c);
                lemma_decimal_value_prefix(digits, seen + 1);
            }
            if c >= '0' && c <= '9' {
                let next: u64 = value as u64 * 10 + (c as u32 - 48) as u64;
                if next > u32::MAX as u64 {
                    return None;
                }
                value = next as u32;
                seen = seen + 1;
            } else {
                return None;
            }
        }
        i = i + 1;
    }
    assert(digits.take(seen as int) =~= digits);
    if seen == 0 {
        None
    } else {
        Some(value)
    }
}

/// Whether two string slices hold the same characters in the same order.
pub fn same_text(a: &str, b: &str) -> (r: bool)
    ensures
        r == (a@ == b@),
{
    a.to_owned() == b.to_owned()
}

} // verus!
