//! Fields of a score sheet as text: surrounding white space, and decimal
//! placements.

use vstd::prelude::*;

verus! {

/// The characters with the Unicode property `White_Space`.
pub open spec fn is_white_space(c: char) -> bool {
    let u = c as u32;
    ||| 0x09 <= u <= 0x0d
    ||| u == 0x20
    ||| u == 0x85
    ||| u == 0xa0
    ||| u == 0x1680
    ||| 0x2000 <= u <= 0x200a
    ||| u == 0x2028
    ||| u == 0x2029
    ||| u == 0x202f
    ||| u == 0x205f
    ||| u == 0x3000
}

/// How many white space characters open the text.
pub open spec fn leading_space(text: Seq<char>) -> nat
    decreases text.len(),
{
    if text.len() > 0 && is_white_space(text.first()) {
        1 + leading_space(text.drop_first())
    } else {
        0
    }
}

/// How many white space characters close the text.
pub open spec fn trailing_space(text: Seq<char>) -> nat
    decreases text.len(),
{
    if text.len() > 0 && is_white_space(text.last()) {
        1 + trailing_space(text.drop_last())
    } else {
        0
    }
}

/// The text without the white space that opens and closes it.
pub open spec fn trimmed(text: Seq<char>) -> Seq<char> {
    let rest = text.skip(leading_space(text) as int);
    rest.take(rest.len() - trailing_space(rest))
}

/// The number that a string of decimal digits writes, nothing when the
/// string is empty or holds another character.
pub open spec fn decimal(digits: Seq<char>) -> Option<nat>
    decreases digits.len(),
{
    if digits.len() == 0 {
        None
    } else if !('0' <= digits.last() <= '9') {
        None
    } else if digits.len() == 1 {
        Some((digits.last() as u32 - '0' as u32) as nat)
    } else {
        match decimal(digits.drop_last()) {
            Some(high) => Some(high * 10 + (digits.last() as u32 - '0' as u32) as nat),
            None => None,
        }
    }
}

/// The placement that a field writes: decimal digits, with or without a `+`
/// before them, for a number that fits in 32 bits.
pub open spec fn placement(field: Seq<char>) -> Option<u32> {
    let digits = if field.len() > 0 && field.first() == '+' {
        field.drop_first()
    } else {
        field
    };
    match decimal(digits) {
        Some(n) => if n <= u32::MAX {
            Some(n as u32)
        } else {
            None
        },
        None => None,
    }
}

/// `str::trim` of std: the slice of `text` without leading and trailing
/// white space, where white space is what Unicode gives the property
/// `White_Space`.
#[verifier::external_body]
pub(crate) fn trim(text: &str) -> (inner: &str)
    ensures
        inner@ == trimmed(text@),
{
    text.trim()
}

/// `str::parse::<u32>` of std, without its error value: the number that the
/// whole of `field` writes in decimal digits, after at most one `+`, when it
/// fits in a `u32`; nothing for any other text, the empty one included.
#[verifier::external_body]
pub(crate) fn parse_placement(field: &str) -> (value: Option<u32>)
    ensures
        value == placement(field@),
{
    field.parse::<u32>().ok()
}

} // verus!
