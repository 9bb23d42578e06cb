//! The grammar of color codes, and the colors that they stand for.

use vstd::prelude::*;
use vstd::string::{StrSliceExecFns, StringExecFns, StringSliceAdditionalSpecFns};
use vstd::utf8::{decode_utf8, encode_utf8, is_ascii_chars, is_char_boundary};

verus! {

/// A color by its three channels, each from 0 to 255.
#[derive(Clone, Copy, Debug, PartialEq, Eq, Structural)]
pub struct Rgb {
    /// The red channel.
    pub red: u8,
    /// The green channel.
    pub green: u8,
    /// The blue channel.
    pub blue: u8,
}

/// The character is a hexadecimal digit, in either case.
pub open spec fn is_hex_digit(c: char) -> bool {
    ('0' <= c <= '9') || ('a' <= c <= 'f') || ('A' <= c <= 'F')
}

/// The number that a hexadecimal digit stands for.
pub open spec fn hex_value(c: char) -> int {
    if '0' <= c <= '9' {
        c as int - '0' as int
    } else if 'a' <= c <= 'f' {
        c as int - 'a' as int + 10
    } else {
        c as int - 'A' as int + 10
    }
}

/// The text is six hexadecimal digits.
pub open spec fn is_hex_run(s: Seq<char>) -> bool {
    s.len() == 6 && forall|i: int| 0 <= i < 6 ==> is_hex_digit(#[trigger] s[i])
}

/// The text is a color code: six hexadecimal digits, with or without a `#`
/// before them.
pub open spec fn is_color_code(s: Seq<char>) -> bool {
    is_hex_run(s) || (s.len() == 7 && s[0] == '#' && is_hex_run(s.subrange(1, 7)))
}

/// The six digits of a color code.
pub open spec fn hex_digits(s: Seq<char>) -> Seq<char> {
    if s.len() == 7 {
        s.subrange(1, 7)
    } else {
        s
    }
}

/// The number that the two digits at `at` and after it stand for.
pub open spec fn channel_value(digits: Seq<char>, at: int) -> int {
    16 * hex_value(digits[at]) + hex_value(digits[at + 1])
}

/// The color that six hexadecimal digits stand for.
pub open spec fn color_of(digits: Seq<char>) -> Rgb {
    Rgb {
        red: channel_value(digits, 0) as u8,
        green: channel_value(digits, 2) as u8,
        blue: channel_value(digits, 4) as u8,
    }
}

/// The text without its first byte where it is seven bytes long, and as it
/// is otherwise.
pub open spec fn trimmed_text(s: Seq<char>) -> Seq<char> {
    let bytes = encode_utf8(s);
    if bytes.len() == 7 {
        decode_utf8(bytes.subrange(1, 7))
    } else {
        s
    }
}

/// What is said of a text that is no color code.
pub open spec fn invalid_color_message(val: Seq<char>) -> Seq<char> {
    "The color "@ + val + " is not a valid six-character hex color code."@
}

/// What is said where the two lists of colors differ in length.
pub open spec fn mismatch_message() -> Seq<char> {
    "The number of base colors and target colors must match."@
}

/// A color code is made of ASCII characters, so its bytes are its
/// characters, and trimming it leaves its six digits.
pub proof fn lemma_color_code_is_ascii(s: Seq<char>)
    requires
        is_color_code(s),
    ensures
        is_ascii_chars(s),
        encode_utf8(s).len() == s.len(),
        encode_utf8(s).len() == 7 ==> is_char_boundary(encode_utf8(s), 1),
        trimmed_text(s) == hex_digits(s),
        is_hex_run(hex_digits(s)),
{
    broadcast use vstd::utf8::is_ascii_chars_encode_utf8;
    broadcast use vstd::utf8::encode_utf8_decode_utf8;
    broadcast use vstd::utf8::encode_utf8_valid_utf8;

    assert forall|i: int| 0 <= i < s.len() implies '\0' <= #[trigger] s[i] <= '\u{7f}' by {
        if s.len() == 7 && i > 0 {
            assert(s.subrange(1, 7)[i - 1] == s[i]);
        }
    }
    assert(is_ascii_chars(s));
    let bytes = encode_utf8(s);
    if bytes.len() == 7 {
        let tail = s.subrange(1, 7);
        assert(is_ascii_chars(tail));
        assert(encode_utf8(tail) =~= bytes.subrange(1, 7)) by {
            assert forall|i: int| 0 <= i < 6 implies encode_utf8(tail)[i] == bytes.subrange(
                1,
                7,
            )[i] by {
                assert(tail[i] == s[i + 1]);
                assert(bytes[i + 1] == s[i + 1] as u8);
            }
        }
        assert(decode_utf8(encode_utf8(tail)) == tail);
        let second: u8 = bytes[1];
        assert(second == s[1] as u8);
        assert(second < 128);
        assert(second & 0xC0 != 0x80) by (bit_vector)
            requires
                second < 128,
        ;
        vstd::utf8::is_char_boundary_iff_not_is_continuation_byte(bytes, 1);
    }
}

/// The number that a byte stands for as a hexadecimal digit, if it is one.
fn hex_digit_value(byte: u8) -> (value: Option<u8>)
    requires
        byte < 128,
    ensures
        match value {
            Some(v) => is_hex_digit(byte as char) && v == hex_value(byte as char),
            None => !is_hex_digit(byte as char),
        },
{
    if 48 <= byte && byte <= 57 {
        Some(byte - 48)
    } else if 97 <= byte && byte <= 102 {
        Some(byte - 87)
    } else if 65 <= byte && byte <= 70 {
        Some(byte - 55)
    } else {
        None
    }
}

/// Tells whether the text is a color code.
pub fn is_hex_color(text: &str) -> (valid: bool)
    ensures
        valid == is_color_code(text@),
{
    broadcast use vstd::string::is_ascii_spec_bytes;

    proof {
        if is_color_code(text@) {
            lemma_color_code_is_ascii(text@);
        }
    }
    if !text.is_ascii() {
        return false;
    }
    let length: usize = text.as_bytes().len();
    proof {
        vstd::string::is_ascii_spec_bytes(text);
    }
    if length != 6 && length != 7 {
        return false;
    }
    let start: usize = length - 6;
    if start == 1 && text.get_ascii(0) != 35 {
        return false;
    }
    let ghost digits = text@.subrange(start as int, length as int);
    let mut i: usize = 0;
    while i < 6
        invariant
            i <= 6,
            text.is_ascii(),
            length == text@.len(),
            start + 6 == length,
            digits == text@.subrange(start as int, length as int),
            forall|k: int| 0 <= k < i ==> is_hex_digit(#[trigger] digits[k]),
        decreases 6 - i,
    {
        let byte: u8 = text.get_ascii(start + i);
        proof {
            assert(digits[i as int] == text@[start + i]);
            assert(byte as char == text@[start + i]);
        }
        if hex_digit_value(byte).is_none() {
            return false;
        }
        i = i + 1;
    }
    proof {
        if start == 0 {
            assert(digits =~= text@);
        }
    }
    true
}

/// Accepts the text exactly if it is a color code, and says otherwise that
/// it is none.
pub fn validate_color(val: String) -> (answer: Result<(), String>)
    ensures
        is_color_code(val@) ==> answer is Ok,
        !is_color_code(val@) ==> answer is Err && answer->Err_0@ == invalid_color_message(val@),
{
    if is_hex_color(val.as_str()) {
        Ok(())
    } else {
        let mut message = String::from_str("The color ");
        message.append(val.as_str());
        message.append(" is not a valid six-character hex color code.");
        Err(message)
    }
}

/// Takes the first byte off a text of seven bytes, the `#` of a color code,
/// and leaves any other text as it is.
pub fn trim_color(color: &str) -> (trimmed: String)
    requires
        color.spec_bytes().len() == 7 ==> is_char_boundary(color.spec_bytes(), 1),
    ensures
        trimmed@ == trimmed_text(color@),
        is_color_code(color@) ==> trimmed@ == hex_digits(color@),
{
    broadcast use vstd::utf8::encode_utf8_decode_utf8;

    proof {
        if is_color_code(color@) {
            lemma_color_code_is_ascii(color@);
        }
    }
    if color.as_bytes().len() == 7 {
        let parts = color.split_at(1);
        proof {
            assert(decode_utf8(encode_utf8(parts.1@)) == parts.1@);
        }
        parts.1.to_owned()
    } else {
        color.to_owned()
    }
}

/// The six digits of the text, if it is a color code.
pub fn color_digits(text: &str) -> (digits: Option<String>)
    ensures
        match digits {
            Some(d) => is_color_code(text@) && d@ == hex_digits(text@),
            None => !is_color_code(text@),
        },
{
    if is_hex_color(text) {
        proof {
            lemma_color_code_is_ascii(text@);
        }
        Some(trim_color(text))
    } else {
        None
    }
}

/// The color that a color code stands for.
pub fn parse_color(code: &str) -> (color: Rgb)
    requires
        is_color_code(code@),
    ensures
        color == color_of(hex_digits(code@)),
{
    proof {
        lemma_color_code_is_ascii(code@);
    }
    let digits = trim_color(code);
    let mut channels: [u8; 3] = [0, 0, 0];
    let mut i: usize = 0;
    while i < 3
        invariant
            i <= 3,
            is_hex_run(digits@),
            is_ascii_chars(digits@),
            forall|k: int| 0 <= k < i ==> channels[k] == channel_value(digits@, 2 * k),
        decreases 3 - i,
    {
        let high_byte: u8 = digits.as_str().get_ascii(2 * i);
        let low_byte: u8 = digits.as_str().get_ascii(2 * i + 1);
        proof {
            assert(high_byte as char == digits@[2 * i]);
            assert(low_byte as char == digits@[2 * i + 1]);
            assert(is_hex_digit(digits@[2 * i]));
            assert(is_hex_digit(digits@[2 * i + 1]));
        }
        let high: u8 = match hex_digit_value(high_byte) {
            Some(v) => v,
            None => 0,
        };
        let low: u8 = match hex_digit_value(low_byte) {
            Some(v) => v,
            None => 0,
        };
        channels[i] = 16 * high + low;
        i = i + 1;
    }
    Rgb { red: channels[0], green: channels[1], blue: channels[2] }
}

/// The colors that the color codes stand for, in their order.
pub fn instantiate_colors(colors: Vec<String>) -> (parsed: Vec<Rgb>)
    requires
        forall|i: int| 0 <= i < colors.len() ==> is_color_code(#[trigger] colors[i]@),
    ensures
        parsed.len() == colors.len(),
        forall|i: int|
            0 <= i < colors.len() ==> #[trigger] parsed[i] == color_of(hex_digits(colors[i]@)),
{
    let mut parsed: Vec<Rgb> = Vec::new();
    let mut i: usize = 0;
    while i < colors.len()
        invariant
            i <= colors.len(),
            parsed.len() == i,
            forall|k: int| 0 <= k < colors.len() ==> is_color_code(#[trigger] colors[k]@),
            forall|k: int| 0 <= k < i ==> #[trigger] parsed[k] == color_of(hex_digits(colors[k]@)),
        decreases colors.len() - i,
    {
        let color = parse_color(colors[i].as_str());
        parsed.push(color);
        i = i + 1;
    }
    parsed
}

/// The base colors and the target colors that the two lists of color codes
/// stand for. The lists must be of one length: where they are not, nothing
/// is read and the answer says so.
pub fn get_colors(base_colors: Vec<String>, target_colors: Vec<String>) -> (answer: Result<
    (Vec<Rgb>, Vec<Rgb>),
    String,
>)
    requires
        base_colors.len() == target_colors.len() ==> {
            &&& forall|i: int|
                0 <= i < base_colors.len() ==> is_color_code(#[trigger] base_colors[i]@)
            &&& forall|i: int|
                0 <= i < target_colors.len() ==> is_color_code(#[trigger] target_colors[i]@)
        },
    ensures
        base_colors.len() != target_colors.len() ==> answer is Err && answer->Err_0@
            == mismatch_message(),
        base_colors.len() == target_colors.len() ==> answer is Ok && {
            let (base, target) = answer->Ok_0;
            &&& base.len() == base_colors.len()
            &&& target.len() == target_colors.len()
            &&& forall|i: int|
                0 <= i < base_colors.len() ==> #[trigger] base[i] == color_of(
                    hex_digits(base_colors[i]@),
                )
            &&& forall|i: int|
                0 <= i < target_colors.len() ==> #[trigger] target[i] == color_of(
                    hex_digits(target_colors[i]@),
                )
        },
{
    if base_colors.len() != target_colors.len() {
        return Err(String::from_str("The number of base colors and target colors must match."));
    }
    let base = instantiate_colors(base_colors);
    let target = instantiate_colors(target_colors);
    Ok((base, target))
}

} // verus!
