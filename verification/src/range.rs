//! Reading a range of sizes written as `start..end`.

use crate::text::collect_chars;
use std::ops::Range;
use vstd::prelude::*;
use vstd::string::*;

verus! {

/// Where the first `..` at or after `from` starts, if there is one.
pub open spec fn find_dots(s: Seq<char>, from: int) -> Option<int>
    decreases s.len() - from,
{
    if from < 0 || from + 1 >= s.len() {
        None
    } else if s[from] == '.' && s[from + 1] == '.' {
        Some(from)
    } else {
        find_dots(s, from + 1)
    }
}

/// A decimal digit.
pub open spec fn is_digit(c: char) -> bool {
    '0' <= c && c <= '9'
}

/// The number that a run of decimal digits stands for.
pub open spec fn decimal_value(digits: Seq<char>) -> nat
    decreases digits.len(),
{
    if digits.len() == 0 {
        0
    } else {
        (10 * decimal_value(digits.drop_last()) + (digits.last() as int - '0' as int)) as nat
    }
}

/// The digits of a number text: the text itself, or what follows its `+`.
pub open spec fn digits_of(s: Seq<char>) -> Seq<char> {
    if s.len() > 0 && s[0] == '+' {
        s.drop_first()
    } else {
        s
    }
}

/// The number that `s` stands for: `s` is an optional `+` and then one or
/// more decimal digits, and the number fits in a `usize`.
pub open spec fn number_of(s: Seq<char>) -> Option<nat> {
    let digits = digits_of(s);
    if digits.len() > 0 && (forall|i: int| 0 <= i < digits.len() ==> is_digit(#[trigger] digits[i]))
        && decimal_value(digits) <= usize::MAX {
        Some(decimal_value(digits))
    } else {
        None
    }
}

/// What is wrong with a range text.
pub enum RangeError {
    /// There is no `..` in it.
    Form,
    /// What stands before the first `..` is not a number.
    Start,
    /// What stands after the first `..` is not a number.
    End,
    /// The start is not below the end.
    Order,
}

/// The message for each error.
pub open spec fn message(e: RangeError) -> Seq<char> {
    match e {
        RangeError::Form => "range must be in the form start..end"@,
        RangeError::Start => "invalid start of range"@,
        RangeError::End => "invalid end of range"@,
        RangeError::Order => "range start must be < end"@,
    }
}

/// The two bounds that `s` gives, or what is wrong with it. The text is
/// split at its first `..`.
pub open spec fn range_of(s: Seq<char>) -> Result<(nat, nat), RangeError> {
    match find_dots(s, 0) {
        None => Err(RangeError::Form),
        Some(at) => match number_of(s.subrange(0, at)) {
            None => Err(RangeError::Start),
            Some(start) => match number_of(s.subrange(at + 2, s.len() as int)) {
                None => Err(RangeError::End),
                Some(end) => if start >= end {
                    Err(RangeError::Order)
                } else {
                    Ok((start, end))
                },
            },
        },
    }
}

/// A longer run of digits stands for a number that is no smaller.
proof fn lemma_decimal_value_grows(digits: Seq<char>, k: int)
    requires
        0 <= k <= digits.len(),
        forall|i: int| 0 <= i < digits.len() ==> is_digit(#[trigger] digits[i]),
    ensures
        decimal_value(digits.take(k)) <= decimal_value(digits),
    decreases digits.len() - k,
{
    if k < digits.len() {
        assert(digits.take(k + 1).drop_last() =~= digits.take(k));
        assert(is_digit(digits[k]));
        lemma_decimal_value_grows(digits, k + 1);
    } else {
        assert(digits.take(k) =~= digits);
    }
}

/// The value of a decimal digit.
fn digit_value(c: char) -> (d: usize)
    requires
        is_digit(c),
    ensures
        d == c as int - '0' as int,
        d <= 9,
{
    (c as u32 - '0' as u32) as usize
}

/// Reads the number that stands in `chars` from `from` up to `to`.
fn number_at(chars: &Vec<char>, from: usize, to: usize) -> (res: Option<usize>)
    requires
        from <= to <= chars.len(),
    ensures
        match number_of(chars@.subrange(from as int, to as int)) {
            Some(n) => res == Some(n as usize),
            None => res is None,
        },
{
    let ghost text = chars@.subrange(from as int, to as int);
    let first = if from < to && chars[from] == '+' {
        from + 1
    } else {
        from
    };
    let ghost digits = digits_of(text);
    assert(digits =~= chars@.subrange(first as int, to as int));
    if first == to {
        return None;
    }
    let mut value: usize = 0;
    let mut i: usize = first;
    assert(digits.take(0) =~= Seq::<char>::empty());
    while i < to
        invariant
            from <= first <= i <= to <= chars.len(),
            first < to,
            digits == chars@.subrange(first as int, to as int),
            digits == digits_of(chars@.subrange(from as int, to as int)),
            forall|j: int| 0 <= j < i - first ==> is_digit(#[trigger] digits[j]),
            value == decimal_value(digits.take(i - first)),
        decreases to - i,
    {
        let c = chars[i];
        assert(c == digits[i - first]);
        if !('0' <= c && c <= '9') {
            return None;
        }
        let d = digit_value(c);
        proof {
            assert(digits.take(i - first + 1).drop_last() =~= digits.take(i - first));
            assert(digits.take(i - first + 1).last() == c);
        }
        if value > (usize::MAX - d) / 10 {
            proof {
                if forall|j: int| 0 <= j < digits.len() ==> is_digit(#[trigger] digits[j]) {
                    lemma_decimal_value_grows(digits, i - first + 1);
                }
            }
            return None;
        }
        value = value * 10 + d;
        i += 1;
    }
    assert(digits.take(i - first) =~= digits);
    Some(value)
}

/// Reads a range written as `start..end`, where both bounds are numbers and
/// the start is below the end.
pub fn parse_range(s: &str) -> (res: Result<Range<usize>, String>)
    ensures
        match range_of(s@) {
            Ok((start, end)) => res matches Ok(r) && r.start == start && r.end == end,
            Err(e) => res matches Err(text) && text@ == message(e),
        },
{
    let chars = collect_chars(s);
    let mut at: usize = 0;
    let mut found = false;
    while at < chars.len() && at + 1 < chars.len()
        invariant_except_break
            !found,
        invariant
            at <= chars.len(),
            find_dots(chars@, at as int) == find_dots(chars@, 0),
        ensures
            at <= chars.len(),
            found ==> find_dots(chars@, 0) == Some(at as int) && at + 2 <= chars.len(),
            !found ==> find_dots(chars@, 0) is None,
        decreases chars.len() - at,
    {
        if chars[at] == '.' && chars[at + 1] == '.' {
            found = true;
            break ;
        }
        at += 1;
    }
    if !found {
        return Err(String::from_str("range must be in the form start..end"));
    }
    let start = match number_at(&chars, 0, at) {
        Some(n) => n,
        None => {
            return Err(String::from_str("invalid start of range"));
        },
    };
    let end = match number_at(&chars, at + 2, chars.len()) {
        Some(n) => n,
        None => {
            return Err(String::from_str("invalid end of range"));
        },
    };
    if start >= end {
        return Err(String::from_str("range start must be < end"));
    }
    Ok(start..end)
}

} // verus!
