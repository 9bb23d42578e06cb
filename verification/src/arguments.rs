//! The rules that the values given on the command line have to meet.

use vstd::prelude::*;
use vstd::string::StringExecFns;

verus! {

/// The character is a decimal digit.
pub open spec fn is_decimal_digit(c: char) -> bool {
    '0' <= c <= '9'
}

/// The number that a run of decimal digits stands for.
pub open spec fn digits_value(digits: Seq<char>) -> int
    decreases digits.len(),
{
    if digits.len() == 0 {
        0
    } else {
        10 * digits_value(digits.drop_last()) + (digits.last() as int - '0' as int)
    }
}

/// The integer that a text stands for, if it stands for one that an `i32`
/// holds: a `+` or a `-` may come first, then at least one decimal digit
/// follows, and nothing else.
pub open spec fn integer_of(text: Seq<char>) -> Option<i32> {
    let signed = text.len() > 0 && (text[0] == '+' || text[0] == '-');
    let digits = if signed {
        text.skip(1)
    } else {
        text
    };
    let value = if signed && text[0] == '-' {
        -digits_value(digits)
    } else {
        digits_value(digits)
    };
    if digits.len() == 0 || exists|i: int| 0 <= i < digits.len() && !is_decimal_digit(digits[i]) {
        None
    } else if i32::MIN <= value <= i32::MAX {
        Some(value as i32)
    } else {
        None
    }
}

/// Calls `str::parse::<i32>` of std, which reads an optional sign and then
/// decimal digits, and fails on an empty text, on any other character and
/// on a number that an `i32` does not hold. `None` stands for its error.
#[verifier::external_body]
fn parse_integer(text: &str) -> (parsed: Option<i32>)
    ensures
        parsed == integer_of(text@),
{
    match text.parse::<i32>() {
        Ok(number) => Some(number),
        Err(_) => None,
    }
}

/// What is said of an opacity that is no integer.
pub open spec fn unreadable_alpha_message(val: Seq<char>) -> Seq<char> {
    "Cannot parse alpha \""@ + val + "\" as an integer."@
}

/// What is said of an opacity outside 1 to 99.
pub open spec fn alpha_range_message() -> Seq<char> {
    "The alphas to search must be between 1 and 99."@
}

/// What `validate_alpha` answers for the text `val`, given what was read
/// from it.
pub open spec fn alpha_verdict(parsed: Option<i32>, val: Seq<char>) -> Result<(), Seq<char>> {
    match parsed {
        None => Err(unreadable_alpha_message(val)),
        Some(alpha) => if 1 <= alpha <= 99 {
            Ok(())
        } else {
            Err(alpha_range_message())
        },
    }
}

/// The answer as it is compared in contracts: the message by its characters.
pub open spec fn verdict_view(answer: Result<(), String>) -> Result<(), Seq<char>> {
    match answer {
        Ok(_) => Ok(()),
        Err(message) => Err(message@),
    }
}

/// Judges an opacity by the integer that was read from its text `val`:
/// it is accepted exactly if it is an integer from 1 to 99.
pub fn check_alpha(parsed: Option<i32>, val: &str) -> (answer: Result<(), String>)
    ensures
        verdict_view(answer) == alpha_verdict(parsed, val@),
{
    match parsed {
        None => {
            let mut message = String::from_str("Cannot parse alpha \"");
            message.append(val);
            message.append("\" as an integer.");
            Err(message)
        },
        Some(alpha) => {
            if 1 <= alpha && alpha <= 99 {
                Ok(())
            } else {
                Err(String::from_str("The alphas to search must be between 1 and 99."))
            }
        },
    }
}

/// Accepts the text of an opacity exactly if it reads as an integer from 1
/// to 99, and says otherwise what is wrong with it.
pub fn validate_alpha(val: String) -> (answer: Result<(), String>)
    ensures
        verdict_view(answer) == alpha_verdict(integer_of(val@), val@),
{
    let parsed = parse_integer(val.as_str());
    check_alpha(parsed, val.as_str())
}

} // verus!
