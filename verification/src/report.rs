//! How many of the results are shown, and under which heading.

use crate::colors::{color_of, hex_value, is_hex_digit, is_hex_run, Rgb};
use vstd::prelude::*;
use vstd::string::{StrSliceExecFns, StringExecFns};

verus! {

/// The character of a decimal digit.
pub open spec fn digit_char(d: nat) -> char {
    if d == 0 {
        '0'
    } else if d == 1 {
        '1'
    } else if d == 2 {
        '2'
    } else if d == 3 {
        '3'
    } else if d == 4 {
        '4'
    } else if d == 5 {
        '5'
    } else if d == 6 {
        '6'
    } else if d == 7 {
        '7'
    } else if d == 8 {
        '8'
    } else {
        '9'
    }
}

/// The number in decimal notation.
pub open spec fn decimal(n: nat) -> Seq<char>
    decreases n,
{
    if n < 10 {
        seq![digit_char(n)]
    } else {
        decimal(n / 10).push(digit_char(n % 10))
    }
}

/// The heading over the results, where `max_results` is the most that are
/// to be shown and `count` is how many there are.
pub open spec fn prefix_text(max_results: int, count: int) -> Seq<char> {
    if max_results < 1 || count <= max_results {
        "All results"@
    } else if max_results > 1 {
        "Top "@ + decimal(max_results as nat) + " results"@
    } else {
        "Top result"@
    }
}

/// How many results are shown.
pub open spec fn shown_count(max_results: int, count: int) -> int {
    if max_results < 1 || count <= max_results {
        count
    } else {
        max_results
    }
}

/// The text of one decimal digit.
fn digit_text(d: usize) -> (text: &'static str)
    requires
        d < 10,
    ensures
        text@ == seq![digit_char(d as nat)],
{
    proof {
        reveal_strlit("0");
        reveal_strlit("1");
        reveal_strlit("2");
        reveal_strlit("3");
        reveal_strlit("4");
        reveal_strlit("5");
        reveal_strlit("6");
        reveal_strlit("7");
        reveal_strlit("8");
        reveal_strlit("9");
    }
    let text = if d == 0 {
        "0"
    } else if d == 1 {
        "1"
    } else if d == 2 {
        "2"
    } else if d == 3 {
        "3"
    } else if d == 4 {
        "4"
    } else if d == 5 {
        "5"
    } else if d == 6 {
        "6"
    } else if d == 7 {
        "7"
    } else if d == 8 {
        "8"
    } else {
        "9"
    };
    assert(text@ =~= seq![digit_char(d as nat)]);
    text
}

/// Writes a number in decimal notation.
pub fn decimal_text(n: usize) -> (text: String)
    ensures
        text@ == decimal(n as nat),
    decreases n,
{
    if n < 10 {
        String::from_str(digit_text(n))
    } else {
        let mut text = decimal_text(n / 10);
        text.append(digit_text(n % 10));
        proof {
            assert(text@ =~= decimal((n / 10) as nat).push(digit_char((n % 10) as nat)));
        }
        text
    }
}

/// Cuts the results down to the first `max_results` of them, where that is
/// a positive number and there are more, and returns the heading that says
/// how many are shown.
pub fn get_prefix<T>(max_results: isize, color_results: &mut Vec<T>) -> (prefix: String)
    ensures
        prefix@ == prefix_text(max_results as int, old(color_results).len() as int),
        final(color_results)@ == old(color_results)@.take(
            shown_count(max_results as int, old(color_results).len() as int),
        ),
{
    if max_results < 1 || color_results.len() <= max_results as usize {
        proof {
            assert(color_results@.take(color_results.len() as int) =~= color_results@);
        }
        String::from_str("All results")
    } else {
        color_results.truncate(max_results as usize);
        if max_results > 1 {
            let mut prefix = String::from_str("Top ");
            prefix.append(decimal_text(max_results as usize).as_str());
            prefix.append(" results");
            prefix
        } else {
            String::from_str("Top result")
        }
    }
}

/// The lower-case hexadecimal digit for a number from 0 to 15.
pub open spec fn hex_char(v: int) -> char {
    "0123456789abcdef"@[v]
}

/// The six lower-case hexadecimal digits of a color.
pub open spec fn hex_code(color: Rgb) -> Seq<char> {
    seq![
        hex_char(color.red as int / 16),
        hex_char(color.red as int % 16),
        hex_char(color.green as int / 16),
        hex_char(color.green as int % 16),
        hex_char(color.blue as int / 16),
        hex_char(color.blue as int % 16),
    ]
}

/// How an overlay color and its opacity in percent are written, up to the
/// place where the distance follows.
pub open spec fn result_label(color: Rgb, alpha: u8) -> Seq<char> {
    "#"@ + hex_code(color) + " at "@ + decimal(alpha as nat) + "% opacity; average distance: "@
}

/// Each of the sixteen digits is a hexadecimal digit and stands for its
/// number.
pub proof fn lemma_hex_char(v: int)
    requires
        0 <= v < 16,
    ensures
        is_hex_digit(hex_char(v)),
        hex_value(hex_char(v)) == v,
{
    reveal_strlit("0123456789abcdef");
    let digits = "0123456789abcdef"@;
    assert(digits.len() == 16);
    if v == 0 {
        assert(digits[0] == '0');
    } else if v == 1 {
        assert(digits[1] == '1');
    } else if v == 2 {
        assert(digits[2] == '2');
    } else if v == 3 {
        assert(digits[3] == '3');
    } else if v == 4 {
        assert(digits[4] == '4');
    } else if v == 5 {
        assert(digits[5] == '5');
    } else if v == 6 {
        assert(digits[6] == '6');
    } else if v == 7 {
        assert(digits[7] == '7');
    } else if v == 8 {
        assert(digits[8] == '8');
    } else if v == 9 {
        assert(digits[9] == '9');
    } else if v == 10 {
        assert(digits[10] == 'a');
    } else if v == 11 {
        assert(digits[11] == 'b');
    } else if v == 12 {
        assert(digits[12] == 'c');
    } else if v == 13 {
        assert(digits[13] == 'd');
    } else if v == 14 {
        assert(digits[14] == 'e');
    } else {
        assert(digits[15] == 'f');
    }
}

/// Writing a color and reading it again gives the same color.
pub proof fn lemma_hex_code_reads_back(color: Rgb)
    ensures
        is_hex_run(hex_code(color)),
        color_of(hex_code(color)) == color,
{
    lemma_hex_char(color.red as int / 16);
    lemma_hex_char(color.red as int % 16);
    lemma_hex_char(color.green as int / 16);
    lemma_hex_char(color.green as int % 16);
    lemma_hex_char(color.blue as int / 16);
    lemma_hex_char(color.blue as int % 16);
}

/// The text of the lower-case hexadecimal digit for a number from 0 to 15.
fn hex_digit_text(v: u8) -> (text: &'static str)
    requires
        v < 16,
    ensures
        text@ == seq![hex_char(v as int)],
{
    let digits = "0123456789abcdef";
    proof {
        reveal_strlit("0123456789abcdef");
    }
    let text = digits.substring_ascii(v as usize, v as usize + 1);
    assert(text@ =~= seq![hex_char(v as int)]);
    text
}

/// Writes a color as six lower-case hexadecimal digits.
pub fn hex_text(color: Rgb) -> (text: String)
    ensures
        text@ == hex_code(color),
{
    let mut text = String::from_str(hex_digit_text(color.red / 16));
    text.append(hex_digit_text(color.red % 16));
    text.append(hex_digit_text(color.green / 16));
    text.append(hex_digit_text(color.green % 16));
    text.append(hex_digit_text(color.blue / 16));
    text.append(hex_digit_text(color.blue % 16));
    assert(text@ =~= hex_code(color));
    text
}

/// Writes an overlay color and its opacity in percent as a result is shown,
/// up to the place where the distance follows.
pub fn describe_overlay(color: Rgb, alpha: u8) -> (label: String)
    ensures
        label@ == result_label(color, alpha),
{
    let mut label = String::from_str("#");
    label.append(hex_text(color).as_str());
    label.append(" at ");
    label.append(decimal_text(alpha as usize).as_str());
    label.append("% opacity; average distance: ");
    label
}

} // verus!
