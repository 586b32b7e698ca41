//! Decimal notation of integers: reading digits and writing them.

use vstd::prelude::*;

verus! {

/// Whether `character` is a decimal digit.
pub open spec fn is_digit(character: char) -> bool {
    '0' <= character <= '9'
}

/// The number that a decimal digit stands for.
pub open spec fn digit_value(character: char) -> nat {
    (character as int - '0' as int) as nat
}

/// The decimal digit that stands for `value`, which is below ten.
pub open spec fn digit_character(value: nat) -> char {
    (value + '0' as nat) as char
}

/// Whether `text` holds decimal digits only.
pub open spec fn all_digits(text: Seq<char>) -> bool {
    forall|i: int| 0 <= i < text.len() ==> is_digit(#[trigger] text[i])
}

/// The number that a sequence of decimal digits denotes. The empty sequence
/// denotes zero.
pub open spec fn decimal_value(digits: Seq<char>) -> nat
    decreases digits.len(),
{
    if digits.len() == 0 {
        0
    } else {
        decimal_value(digits.drop_last()) * 10 + digit_value(digits.last())
    }
}

/// The decimal notation of `value`, without leading zeros.
pub open spec fn decimal_text(value: nat) -> Seq<char>
    decreases value,
{
    if value < 10 {
        seq![digit_character(value)]
    } else {
        decimal_text(value / 10).push(digit_character(value % 10))
    }
}

/// The decimal notation of `value`, with a minus sign where it is negative.
pub open spec fn signed_decimal_text(value: int) -> Seq<char> {
    if value < 0 {
        seq!['-'] + decimal_text((-value) as nat)
    } else {
        decimal_text(value as nat)
    }
}

/// A longer run of digits denotes no smaller number than its beginning.
pub proof fn lemma_decimal_value_grows(digits: Seq<char>, length: int)
    requires
        0 <= length <= digits.len(),
    ensures
        decimal_value(digits.take(length)) <= decimal_value(digits),
    decreases digits.len() - length,
{
    if length < digits.len() {
        lemma_decimal_value_grows(digits, length + 1);
        assert(digits.take(length + 1).drop_last() == digits.take(length));
    } else {
        assert(digits.take(length) == digits);
    }
}

/// Reading the notation of a number gives the number back.
pub proof fn lemma_decimal_text_value(value: nat)
    ensures
        decimal_text(value).len() > 0,
        all_digits(decimal_text(value)),
        decimal_value(decimal_text(value)) == value,
        value > 0 ==> decimal_text(value)[0] != '0',
    decreases value,
{
    if value < 10 {
        let text = decimal_text(value);
        assert(decimal_value(text.drop_last()) == 0);
    } else {
        lemma_decimal_text_value(value / 10);
        let text = decimal_text(value);
        assert(text.drop_last() == decimal_text(value / 10));
    }
}

/// The number that `digits` denote, where they are decimal digits, at least
/// one of them, and the number is at most `limit`.
pub open spec fn bounded_decimal_value(digits: Seq<char>, limit: nat) -> Option<nat> {
    if digits.len() > 0 && all_digits(digits) && decimal_value(digits) <= limit {
        Some(decimal_value(digits))
    } else {
        None
    }
}

/// Reads the decimal digits `characters[from..]` as a number of at most
/// `limit`.
pub fn read_decimal(characters: &Vec<char>, from: usize, limit: u64) -> (result: Option<u64>)
    requires
        from <= characters.len(),
    ensures
        match bounded_decimal_value(characters@.skip(from as int), limit as nat) {
            Some(value) => result == Some(value as u64),
            None => result is None,
        },
{
    let ghost digits = characters@.skip(from as int);
    if from == characters.len() {
        return None;
    }
    let mut value: u64 = 0;
    let mut index: usize = from;
    while index < characters.len()
        invariant
            from <= index <= characters.len(),
            digits == characters@.skip(from as int),
            all_digits(digits.take(index - from)),
            value == decimal_value(digits.take(index - from)),
            value <= limit,
        decreases characters.len() - index,
    {
        let character = characters[index];
        proof {
            assert(digits.take(index - from + 1).drop_last() == digits.take(index - from));
            lemma_decimal_value_grows(digits, index - from + 1);
        }
        if !(character >= '0' && character <= '9') {
            return None;
        }
        let digit: u64 = (character as u32 - '0' as u32) as u64;
        if digit > limit || value > (limit - digit) / 10 {
            return None;
        }
        value = value * 10 + digit;
        index += 1;
    }
    assert(digits.take(index - from) == digits);
    Some(value)
}

/// Writes `value` in decimal notation.
pub fn write_decimal(value: u64) -> (result: String)
    ensures
        result@ == decimal_text(value as nat),
{
    let mut reversed: Vec<char> = Vec::new();
    reversed.push(digit_of(value % 10));
    let mut rest: u64 = value / 10;
    while rest > 0
        invariant
            reversed.len() > 0,
            decimal_text(value as nat) == leading_text(rest as nat) + reversed@.reverse(),
        decreases rest,
    {
        reversed.push(digit_of(rest % 10));
        rest = rest / 10;
    }
    let mut result = String::new();
    let mut index: usize = reversed.len();
    while index > 0
        invariant
            index <= reversed.len(),
            result@ == reversed@.reverse().take(reversed.len() - index),
        decreases index,
    {
        index -= 1;
        result.push(reversed[index]);
    }
    result
}

/// The digits of `value` but for the last ones already written: none once
/// nothing is left.
pub open spec fn leading_text(rest: nat) -> Seq<char> {
    if rest == 0 {
        Seq::empty()
    } else {
        decimal_text(rest)
    }
}

/// The decimal digit for a value below ten.
fn digit_of(value: u64) -> (result: char)
    requires
        value < 10,
    ensures
        result == digit_character(value as nat),
        is_digit(result),
{
    (48u8 + value as u8) as char
}

} // verus!
