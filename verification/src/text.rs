//! Plain text: runs of spaces, numbers in decimal digits, and alignment.

use vstd::prelude::*;
use vstd::string::StrSliceExecFns;
use vstd::string::StringExecFns;

verus! {

/// A run of `count` spaces.
pub open spec fn spaces(count: nat) -> Seq<char> {
    Seq::new(count, |i: int| ' ')
}

/// The character of a decimal digit.
pub open spec fn digit(value: int) -> char {
    if value == 0 {
        '0'
    } else if value == 1 {
        '1'
    } else if value == 2 {
        '2'
    } else if value == 3 {
        '3'
    } else if value == 4 {
        '4'
    } else if value == 5 {
        '5'
    } else if value == 6 {
        '6'
    } else if value == 7 {
        '7'
    } else if value == 8 {
        '8'
    } else {
        '9'
    }
}

/// A number written in decimal digits, without leading zeros.
pub open spec fn decimal(value: nat) -> Seq<char>
    decreases value,
{
    if value < 10 {
        seq![digit(value as int)]
    } else {
        decimal(value / 10) + seq![digit((value % 10) as int)]
    }
}

/// A number written in decimal digits, with a minus sign before them where
/// it is negative.
pub open spec fn signed_decimal(value: int) -> Seq<char> {
    if value < 0 {
        seq!['-'] + decimal((-value) as nat)
    } else {
        decimal(value as nat)
    }
}

/// `text` with spaces before it up to `width` characters; a longer text is
/// left as it is.
pub open spec fn right_aligned(text: Seq<char>, width: nat) -> Seq<char> {
    if text.len() >= width {
        text
    } else {
        spaces((width - text.len()) as nat) + text
    }
}

/// `text` with spaces around it up to `width` characters, the odd space
/// after it; a longer text is left as it is.
pub open spec fn centered(text: Seq<char>, width: nat) -> Seq<char> {
    if text.len() >= width {
        text
    } else {
        spaces(((width - text.len()) / 2) as nat) + text + spaces(
            ((width - text.len()) - (width - text.len()) / 2) as nat,
        )
    }
}

/// A run of spaces.
pub fn blank(width: usize) -> (text: String)
    ensures
        text@ == spaces(width as nat),
{
    let mut text = String::new();
    let mut written: usize = 0;
    proof {
        reveal_strlit(" ");
        assert(text@ =~= spaces(0));
    }
    while written < width
        invariant
            written <= width,
            text@ == spaces(written as nat),
            " "@ == seq![' '],
        decreases width - written,
    {
        text.append(" ");
        written = written + 1;
        proof {
            assert(text@ =~= spaces(written as nat));
        }
    }
    text
}

/// The text of a decimal digit.
fn digit_text(value: u8) -> (text: &'static str)
    requires
        value < 10,
    ensures
        text@ == seq![digit(value as int)],
{
    proof {
        reveal_strlit("0");
        reveal_strlit("1");
        reveal_strlit("2");
        reveal_strlit("3");
        reveal_strlit("4");
        reveal_strlit("5");
        reveal_strlit("6");
        reveal_strlit("7");
        reveal_strlit("8");
        reveal_strlit("9");
    }
    if value == 0 {
        "0"
    } else if value == 1 {
        "1"
    } else if value == 2 {
        "2"
    } else if value == 3 {
        "3"
    } else if value == 4 {
        "4"
    } else if value == 5 {
        "5"
    } else if value == 6 {
        "6"
    } else if value == 7 {
        "7"
    } else if value == 8 {
        "8"
    } else {
        "9"
    }
}

/// Writes a number in decimal digits.
pub fn render_decimal(value: u128) -> (text: String)
    ensures
        text@ == decimal(value as nat),
    decreases value,
{
    if value < 10 {
        String::from_str(digit_text(value as u8))
    } else {
        let mut text = render_decimal(value / 10);
        text.append(digit_text((value % 10) as u8));
        text
    }
}

/// Writes a number in decimal digits, with a minus sign before them where it
/// is negative.
pub fn render_signed(value: i128) -> (text: String)
    ensures
        text@ == signed_decimal(value as int),
{
    if value >= 0 {
        render_decimal(value as u128)
    } else {
        let magnitude: u128 = if value == i128::MIN {
            170141183460469231731687303715884105728u128
        } else {
            (-value) as u128
        };
        proof {
            reveal_strlit("-");
        }
        let mut text = String::from_str("-");
        text.append(render_decimal(magnitude).as_str());
        text
    }
}

/// Puts spaces before a text, up to `width` characters.
pub fn right_align(text: &str, width: usize) -> (aligned: String)
    ensures
        aligned@ == right_aligned(text@, width as nat),
{
    let length = text.unicode_len();
    if length >= width {
        String::from_str(text)
    } else {
        let mut aligned = blank(width - length);
        aligned.append(text);
        aligned
    }
}

/// Puts spaces around a text, up to `width` characters, the odd space after
/// the text.
pub fn center(text: &str, width: usize) -> (aligned: String)
    ensures
        aligned@ == centered(text@, width as nat),
{
    let length = text.unicode_len();
    if length >= width {
        String::from_str(text)
    } else {
        let before = (width - length) / 2;
        let after = (width - length) - before;
        let mut aligned = blank(before);
        aligned.append(text);
        aligned.append(blank(after).as_str());
        aligned
    }
}

} // verus!
