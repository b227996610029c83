//! Numbers as text.
use vstd::prelude::*;
use vstd::string::StringExecFns;

verus! {

/// `String::push` puts one character behind those that are there.
pub assume_specification[ std::string::String::push ](s: &mut std::string::String, c: char)
    ensures
        final(s)@ == old(s)@.push(c),
;

/// The character of a decimal digit.
pub open spec fn digit_char(d: nat) -> char {
    (48 + d) as char
}

/// A number in decimal notation.
pub open spec fn decimal(n: nat) -> Seq<char>
    decreases n,
{
    if n < 10 {
        seq![digit_char(n)]
    } else {
        decimal(n / 10).push(digit_char(n % 10))
    }
}

/// `text` with blanks behind it, up to `width` characters in all.
pub open spec fn padded(text: Seq<char>, width: nat) -> Seq<char> {
    if text.len() >= width {
        text
    } else {
        text + Seq::new((width - text.len()) as nat, |i: int| ' ')
    }
}

/// Writes `n` behind `text`, in decimal notation.
pub fn push_decimal(text: &mut String, n: u64)
    ensures
        final(text)@ == old(text)@ + decimal(n as nat),
    decreases n,
{
    let last: u8 = (n % 10) as u8;
    if n >= 10 {
        push_decimal(text, n / 10);
        text.push((48 + last) as char);
        proof {
            assert(final(text)@ =~= old(text)@ + decimal(n as nat));
        }
    } else {
        text.push((48 + last) as char);
        proof {
            assert(final(text)@ =~= old(text)@ + decimal(n as nat));
        }
    }
}

/// `n` in decimal notation.
pub fn decimal_text(n: u64) -> (r: String)
    ensures
        r@ == decimal(n as nat),
{
    let mut text = String::new();
    push_decimal(&mut text, n);
    assert(text@ =~= decimal(n as nat));
    text
}

/// Writes `part` behind `text`, and blanks behind it up to `width` characters
/// for the two together.
pub fn push_padded(text: &mut String, part: &str, width: usize)
    ensures
        final(text)@ == old(text)@ + padded(part@, width as nat),
{
    let len = part.unicode_len();
    text.append(part);
    let mut i: usize = len;
    let ghost before = old(text)@;
    assert(text@ =~= before + part@ + Seq::new(0, |k: int| ' '));
    while i < width
        invariant
            before == old(text)@,
            len == part@.len(),
            len <= i,
            i <= width || i == len,
            text@ =~= before + part@ + Seq::new((i - len) as nat, |k: int| ' '),
        decreases width - i,
    {
        text.push(' ');
        i = i + 1;
    }
    assert(text@ =~= before + padded(part@, width as nat));
}

} // verus!
