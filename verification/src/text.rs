//! Texts: joining them, and writing numbers in them.

use vstd::prelude::*;
use vstd::string::{StrSliceExecFns, StringExecFns};

verus! {

/// The texts of some strings.
pub open spec fn texts_of(strings: Seq<String>) -> Seq<Seq<char>> {
    strings.map_values(|s: String| s@)
}

/// The texts of some string slices.
pub open spec fn slices_of(slices: Seq<&str>) -> Seq<Seq<char>> {
    slices.map_values(|s: &str| s@)
}

/// The parts in a row with `separator` between each two of them.
pub open spec fn joined(parts: Seq<Seq<char>>, separator: Seq<char>) -> Seq<char>
    decreases parts.len(),
{
    if parts.len() == 0 {
        Seq::empty()
    } else if parts.len() == 1 {
        parts[0]
    } else {
        joined(parts.drop_last(), separator) + separator + parts.last()
    }
}

/// The character for a digit.
pub open spec fn digit(d: nat) -> char {
    if d == 0 {
        '0'
    } else if d == 1 {
        '1'
    } else if d == 2 {
        '2'
    } else if d == 3 {
        '3'
    } else if d == 4 {
        '4'
    } else if d == 5 {
        '5'
    } else if d == 6 {
        '6'
    } else if d == 7 {
        '7'
    } else if d == 8 {
        '8'
    } else {
        '9'
    }
}

/// A number in decimal digits, without leading zeros.
pub open spec fn decimal(n: nat) -> Seq<char>
    decreases n,
{
    if n < 10 {
        seq![digit(n)]
    } else {
        decimal(n / 10).push(digit(n % 10))
    }
}

/// The text of one digit.
fn digit_text(d: u128) -> (text: &'static str)
    requires
        d < 10,
    ensures
        text@ == seq![digit(d as nat)],
{
    proof {
        reveal_strlit("0");
        reveal_strlit("1");
        reveal_strlit("2");
        reveal_strlit("3");
        reveal_strlit("4");
        reveal_strlit("5");
        reveal_strlit("6");
        reveal_strlit("7");
        reveal_strlit("8");
        reveal_strlit("9");
    }
    let text = if d == 0 {
        "0"
    } else if d == 1 {
        "1"
    } else if d == 2 {
        "2"
    } else if d == 3 {
        "3"
    } else if d == 4 {
        "4"
    } else if d == 5 {
        "5"
    } else if d == 6 {
        "6"
    } else if d == 7 {
        "7"
    } else if d == 8 {
        "8"
    } else {
        "9"
    };
    text
}

/// Writes `n` in decimal digits at the end of `text`.
pub fn append_decimal(text: &mut String, n: u128)
    ensures
        final(text)@ == old(text)@ + decimal(n as nat),
    decreases n,
{
    if n >= 10 {
        append_decimal(text, n / 10);
    }
    text.append(digit_text(n % 10));
}

/// The last six decimal digits of a number, zeros in front where it is
/// short.
pub open spec fn six_digits(n: nat) -> Seq<char> {
    seq![
        digit(n / 100000 % 10),
        digit(n / 10000 % 10),
        digit(n / 1000 % 10),
        digit(n / 100 % 10),
        digit(n / 10 % 10),
        digit(n % 10),
    ]
}

/// Writes the last six decimal digits of `n` at the end of `text`.
pub fn append_six_digits(text: &mut String, n: u128)
    ensures
        final(text)@ == old(text)@ + six_digits(n as nat),
{
    text.append(digit_text(n / 100000 % 10));
    text.append(digit_text(n / 10000 % 10));
    text.append(digit_text(n / 1000 % 10));
    text.append(digit_text(n / 100 % 10));
    text.append(digit_text(n / 10 % 10));
    text.append(digit_text(n % 10));
}

/// A text filled up with spaces at its end to `width` characters; as it is
/// where it is that long already.
pub open spec fn padded(text: Seq<char>, width: nat) -> Seq<char> {
    if text.len() >= width {
        text
    } else {
        text + Seq::new((width - text.len()) as nat, |i: int| ' ')
    }
}

/// Writes `part` at the end of `text` and fills up with spaces to `width`
/// characters.
pub fn append_padded(text: &mut String, part: &str, width: usize)
    ensures
        final(text)@ == old(text)@ + padded(part@, width as nat),
{
    text.append(part);
    let mut len: usize = part.unicode_len();
    proof {
        reveal_strlit(" ");
    }
    while len < width
        invariant
            part@.len() <= len,
            len <= width || len == part@.len(),
            " "@ == seq![' '],
            text@ == old(text)@ + part@ + Seq::new((len - part@.len()) as nat, |i: int| ' '),
        decreases width - len,
    {
        text.append(" ");
        len = len + 1;
        assert(text@ =~= old(text)@ + part@ + Seq::new(
            (len - part@.len()) as nat,
            |i: int| ' ',
        ));
    }
}

/// Puts the parts in a row with `separator` between each two of them.
pub fn join(parts: &Vec<String>, separator: &str) -> (text: String)
    ensures
        text@ == joined(texts_of(parts@), separator@),
{
    let mut text = String::new();
    let mut i: usize = 0;
    while i < parts.len()
        invariant
            i <= parts.len(),
            text@ == joined(texts_of(parts@.take(i as int)), separator@),
        decreases parts.len() - i,
    {
        if i > 0 {
            text.append(separator);
        }
        text.append(parts[i].as_str());
        i = i + 1;
        proof {
            let now = texts_of(parts@.take(i as int));
            assert(now.drop_last() =~= texts_of(parts@.take(i - 1)));
        }
    }
    assert(parts@.take(i as int) =~= parts@);
    text
}

} // verus!
