//! Integers written in decimal.

use vstd::prelude::*;
use vstd::string::*;

verus! {

/// The character of one decimal digit.
pub open spec fn digit_char(digit: nat) -> char {
    if digit == 0 {
        '0'
    } else if digit == 1 {
        '1'
    } else if digit == 2 {
        '2'
    } else if digit == 3 {
        '3'
    } else if digit == 4 {
        '4'
    } else if digit == 5 {
        '5'
    } else if digit == 6 {
        '6'
    } else if digit == 7 {
        '7'
    } else if digit == 8 {
        '8'
    } else {
        '9'
    }
}

/// A natural number in decimal, without leading zeros; zero is `0`.
pub open spec fn decimal(n: nat) -> Seq<char>
    decreases n,
{
    if n < 10 {
        seq![digit_char(n)]
    } else {
        decimal(n / 10).push(digit_char(n % 10))
    }
}

/// An integer in decimal: a minus sign before the digits of a negative number.
pub open spec fn signed_decimal(n: int) -> Seq<char> {
    if n < 0 {
        seq!['-'] + decimal((-n) as nat)
    } else {
        decimal(n as nat)
    }
}

fn digit_text(digit: u64) -> (text: &'static str)
    requires
        digit < 10,
    ensures
        text@ == seq![digit_char(digit as nat)],
{
    proof {
        reveal_strlit("0");
        reveal_strlit("1");
        reveal_strlit("2");
        reveal_strlit("3");
        reveal_strlit("4");
        reveal_strlit("5");
        reveal_strlit("6");
        reveal_strlit("7");
        reveal_strlit("8");
        reveal_strlit("9");
    }
    let text = if digit == 0 {
        "0"
    } else if digit == 1 {
        "1"
    } else if digit == 2 {
        "2"
    } else if digit == 3 {
        "3"
    } else if digit == 4 {
        "4"
    } else if digit == 5 {
        "5"
    } else if digit == 6 {
        "6"
    } else if digit == 7 {
        "7"
    } else if digit == 8 {
        "8"
    } else {
        "9"
    };
    assert(text@ =~= seq![digit_char(digit as nat)]);
    text
}

/// Appends a natural number in decimal to `out`.
pub fn push_decimal(out: &mut String, n: u64)
    ensures
        final(out)@ == old(out)@ + decimal(n as nat),
    decreases n,
{
    if n >= 10 {
        push_decimal(out, n / 10);
    }
    out.append(digit_text(n % 10));
    assert(out@ =~= old(out)@ + decimal(n as nat));
}

/// Appends an integer in decimal to `out`.
pub fn push_signed_decimal(out: &mut String, n: i64)
    ensures
        final(out)@ == old(out)@ + signed_decimal(n as int),
{
    if n < 0 {
        proof {
            reveal_strlit("-");
        }
        out.append("-");
        let magnitude: u64 = (-(n + 1)) as u64 + 1;
        push_decimal(out, magnitude);
        assert(out@ =~= old(out)@ + signed_decimal(n as int));
    } else {
        push_decimal(out, n as u64);
    }
}

/// A natural number in decimal.
pub fn decimal_text(n: u64) -> (text: String)
    ensures
        text@ == decimal(n as nat),
{
    let mut text = String::new();
    push_decimal(&mut text, n);
    assert(text@ =~= decimal(n as nat));
    text
}

/// An integer in decimal.
pub fn signed_decimal_text(n: i64) -> (text: String)
    ensures
        text@ == signed_decimal(n as int),
{
    let mut text = String::new();
    push_signed_decimal(&mut text, n);
    assert(text@ =~= signed_decimal(n as int));
    text
}

/// Whether a character is a decimal digit.
pub open spec fn is_digit(character: char) -> bool {
    '0' <= character && character <= '9'
}

/// The number that a decimal digit stands for.
pub open spec fn digit_of(character: char) -> nat {
    (character as u32 - '0' as u32) as nat
}

/// Whether a text holds nothing but decimal digits.
pub open spec fn is_digits(text: Seq<char>) -> bool {
    forall|i: int| 0 <= i < text.len() ==> is_digit(#[trigger] text[i])
}

/// The number that a text of decimal digits spells; leading zeros count for
/// nothing.
pub open spec fn digits_value(text: Seq<char>) -> nat
    decreases text.len(),
{
    if text.len() == 0 {
        0
    } else {
        digits_value(text.drop_last()) * 10 + digit_of(text.last())
    }
}

/// The natural number that a text spells in decimal: the text has at least one
/// character, and all are digits. Any other text spells none.
pub open spec fn decimal_reading(text: Seq<char>) -> Option<nat> {
    if text.len() > 0 && is_digits(text) {
        Some(digits_value(text))
    } else {
        None
    }
}

/// The integer that a text spells in decimal: a natural number, or a minus sign
/// before one. Any other text spells none.
pub open spec fn signed_reading(text: Seq<char>) -> Option<int> {
    if text.len() > 0 && text[0] == '-' {
        match decimal_reading(text.drop_first()) {
            Some(magnitude) => Some(-(magnitude as int)),
            None => None,
        }
    } else {
        match decimal_reading(text) {
            Some(value) => Some(value as int),
            None => None,
        }
    }
}

/// The character of a digit is a digit and stands for it.
pub proof fn lemma_digit_reads_back(digit: nat)
    requires
        digit < 10,
    ensures
        is_digit(digit_char(digit)),
        digit_of(digit_char(digit)) == digit,
{
}

/// A number in decimal spells that number; it begins with a digit.
pub proof fn lemma_decimal_reads_back(n: nat)
    ensures
        decimal_reading(decimal(n)) == Some(n),
        is_digit(decimal(n)[0]),
    decreases n,
{
    lemma_digit_reads_back(n % 10);
    if n < 10 {
        assert(decimal(n).drop_last() =~= Seq::<char>::empty());
        assert(decimal(n).last() == digit_char(n));
        assert(digits_value(decimal(n).drop_last()) == 0);
        assert(digits_value(decimal(n)) == n);
    } else {
        lemma_decimal_reads_back(n / 10);
        assert(decimal(n).drop_last() =~= decimal(n / 10));
        assert(decimal(n).last() == digit_char(n % 10));
        assert(decimal(n)[0] == decimal(n / 10)[0]);
    }
}

/// An integer in decimal spells that integer.
pub proof fn lemma_signed_decimal_reads_back(n: int)
    ensures
        signed_reading(signed_decimal(n)) == Some(n),
{
    if n < 0 {
        lemma_decimal_reads_back((-n) as nat);
        assert(signed_decimal(n).drop_first() =~= decimal((-n) as nat));
    } else {
        lemma_decimal_reads_back(n as nat);
    }
}

/// The digits at the front of a text spell no more than the whole text.
proof fn lemma_digits_value_grows(text: Seq<char>, length: int)
    requires
        0 <= length <= text.len(),
    ensures
        digits_value(text.subrange(0, length)) <= digits_value(text),
    decreases text.len() - length,
{
    if length == text.len() {
        assert(text.subrange(0, length) =~= text);
    } else {
        lemma_digits_value_grows(text, length + 1);
        assert(text.subrange(0, length + 1).drop_last() =~= text.subrange(0, length));
    }
}

/// Reads the natural number that a text spells in decimal, where it spells one
/// that fits.
pub fn parse_decimal(text: &str) -> (value: Option<u64>)
    ensures
        match value {
            Some(value) => decimal_reading(text@) == Some(value as nat),
            None => decimal_reading(text@) matches Some(spelled) ==> spelled > u64::MAX,
        },
{
    let length = text.unicode_len();
    if length == 0 {
        return None;
    }
    let mut value: u64 = 0;
    let mut index: usize = 0;
    while index < length
        invariant
            index <= length,
            length == text@.len(),
            is_digits(text@.subrange(0, index as int)),
            value == digits_value(text@.subrange(0, index as int)),
        decreases length - index,
    {
        let character = text.get_char(index);
        if character < '0' || character > '9' {
            assert(!is_digit(text@[index as int]));
            return None;
        }
        let digit = (character as u32 - '0' as u32) as u64;
        proof {
            assert(text@.subrange(0, index + 1).drop_last() =~= text@.subrange(0, index as int));
            assert(text@.subrange(0, index + 1).last() == character);
            lemma_digits_value_grows(text@, index + 1);
        }
        if value > (u64::MAX - digit) / 10 {
            return None;
        }
        value = value * 10 + digit;
        index += 1;
    }
    assert(text@.subrange(0, index as int) =~= text@);
    Some(value)
}

/// Reads the integer that a text spells in decimal, where it spells one that
/// fits.
pub fn parse_signed_decimal(text: &str) -> (value: Option<i64>)
    ensures
        match value {
            Some(value) => signed_reading(text@) == Some(value as int),
            None => signed_reading(text@) matches Some(spelled) ==> spelled < i64::MIN || spelled
                > i64::MAX,
        },
{
    let length = text.unicode_len();
    if length > 0 && text.get_char(0) == '-' {
        let digits = text.substring_char(1, length);
        assert(digits@ =~= text@.drop_first());
        match parse_decimal(digits) {
            Some(magnitude) => {
                if magnitude <= i64::MAX as u64 {
                    Some(-(magnitude as i64))
                } else if magnitude == i64::MAX as u64 + 1 {
                    Some(i64::MIN)
                } else {
                    None
                }
            },
            None => None,
        }
    } else {
        match parse_decimal(text) {
            Some(value) => {
                if value <= i64::MAX as u64 {
                    Some(value as i64)
                } else {
                    None
                }
            },
            None => None,
        }
    }
}

} // verus!
