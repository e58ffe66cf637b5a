//! The dial that sets the length of the history: how a line read from it
//! is understood, and which capacity it asks for.

use vstd::prelude::*;

verus! {

/// Whether `c` is one of the ten decimal digits.
pub open spec fn is_decimal_digit(c: char) -> bool {
    '0' <= c <= '9'
}

/// The number that a run of decimal digits writes.
pub open spec fn decimal_value(digits: Seq<char>) -> nat
    decreases digits.len(),
{
    if digits.len() == 0 {
        0
    } else {
        (10 * decimal_value(digits.drop_last()) + (digits.last() as int - '0' as int)) as nat
    }
}

/// The digits of a number that is written with or without a plus sign
/// before them.
pub open spec fn unsigned_digits(text: Seq<char>) -> Seq<char> {
    if text.len() > 0 && text[0] == '+' {
        text.drop_first()
    } else {
        text
    }
}

/// The number that `text` writes, if it writes one: at least one decimal
/// digit and nothing else, but for a plus sign that may come first, and a
/// value that fits in `usize`.
pub open spec fn decimal_number(text: Seq<char>) -> Option<usize> {
    let digits = unsigned_digits(text);
    if digits.len() > 0 && (forall|i: int|
        0 <= i < digits.len() ==> is_decimal_digit(#[trigger] digits[i])) && decimal_value(digits)
        <= usize::MAX {
        Some(decimal_value(digits) as usize)
    } else {
        None
    }
}

/// What a line read from the dial says: the number written before the
/// character that ends the line.
pub open spec fn dial_reading_of(line: Seq<char>) -> Option<usize> {
    if line.len() == 0 {
        decimal_number(line)
    } else {
        decimal_number(line.drop_last())
    }
}

/// The capacity request that stands after the dial gave `raw_value`: a dial
/// at zero asks for nothing and leaves the pending request as it is; any
/// other value asks for one slot more than it reads.
pub open spec fn updated_request(pending: int, raw_value: int) -> int {
    if raw_value == 0 {
        pending
    } else {
        raw_value + 1
    }
}

/// The digits that a number starts with write a number that is no larger.
pub proof fn lemma_decimal_value_grows(digits: Seq<char>, shorter: int)
    requires
        0 <= shorter <= digits.len(),
        forall|i: int| 0 <= i < digits.len() ==> is_decimal_digit(#[trigger] digits[i]),
    ensures
        decimal_value(digits.take(shorter)) <= decimal_value(digits),
    decreases digits.len(),
{
    if shorter == digits.len() {
        assert(digits.take(shorter) =~= digits);
    } else {
        let front = digits.drop_last();
        assert(front.take(shorter) =~= digits.take(shorter));
        lemma_decimal_value_grows(front, shorter);
    }
}

/// Reads a decimal number: digits only, after a plus sign or without one.
/// Anything else, and a number too large for `usize`, reads as nothing.
pub fn parse_decimal(text: &str) -> (number: Option<usize>)
    ensures
        number == decimal_number(text@),
{
    let ghost digits = unsigned_digits(text@);
    let ghost sign = text@.len() - digits.len();
    let ghost mut seen: int = 0;
    let mut value: usize = 0;
    let mut first: bool = true;
    let mut any_digit: bool = false;
    for c in chars: text.chars()
        invariant
            chars.seq() == text@,
            digits == unsigned_digits(text@),
            sign == text@.len() - digits.len(),
            first == (chars.index() == 0),
            any_digit == (seen > 0),
            0 <= seen <= digits.len(),
            chars.index() == 0 ==> seen == 0,
            chars.index() > 0 ==> seen == chars.index() - sign,
            forall|i: int| 0 <= i < seen ==> is_decimal_digit(#[trigger] digits[i]),
            value == decimal_value(digits.take(seen)),
    {
        if first && c == '+' {
            first = false;
        } else {
            first = false;
            if c < '0' || c > '9' {
                proof {
                    assert(!is_decimal_digit(digits[seen]));
                }
                return None;
            }
            let digit: usize = (c as u32 - '0' as u32) as usize;
            proof {
                assert(digits.take(seen + 1).drop_last() =~= digits.take(seen));
                assert(decimal_value(digits.take(seen + 1)) == 10 * value + digit);
                if forall|i: int| 0 <= i < digits.len() ==> is_decimal_digit(#[trigger] digits[i]) {
                    lemma_decimal_value_grows(digits, seen + 1);
                }
            }
            value = match value.checked_mul(10) {
                Some(tens) => match tens.checked_add(digit) {
                    Some(sum) => sum,
                    None => {
                        return None;
                    },
                },
                None => {
                    return None;
                },
            };
            any_digit = true;
            proof {
                seen = seen + 1;
            }
        }
    }
    proof {
        assert(digits.take(digits.len() as int) =~= digits);
    }
    if any_digit {
        Some(value)
    } else {
        None
    }
}

/// Reads the number that a line from the dial holds. The character that
/// ends the line is dropped unread.
pub fn dial_reading(line: &str) -> (reading: Option<usize>)
    ensures
        reading == dial_reading_of(line@),
{
    let count = line.unicode_len();
    if count == 0 {
        parse_decimal(line)
    } else {
        proof {
            assert(line@.subrange(0, count - 1) =~= line@.drop_last());
        }
        parse_decimal(line.substring_char(0, count - 1))
    }
}

/// The capacity request to publish after the dial gave `raw_value`, which
/// must leave room for the one slot more.
pub fn capacity_request(pending: usize, raw_value: usize) -> (request: usize)
    requires
        raw_value < usize::MAX,
    ensures
        request == updated_request(pending as int, raw_value as int),
{
    if raw_value != 0 {
        raw_value + 1
    } else {
        pending
    }
}

} // verus!
