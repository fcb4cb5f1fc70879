//! Character classes of the tokenizer.
//!
//! Whitespace is decided first, the decimal digits next, letters last, so no
//! character falls into two classes. Within ASCII every class is written
//! out here; only for a character beyond ASCII is the table of alphabetic
//! characters asked.

use vstd::prelude::*;

verus! {

/// Whether `c` has the Unicode property `Alphabetic`.
pub uninterp spec fn char_is_alphabetic(c: char) -> bool;

/// `char::is_alphabetic`: the result is a function of the character alone;
/// the table behind it is long, so the result is only named.
pub assume_specification[ char::is_alphabetic ](c: char) -> (b: bool)
    ensures
        b == char_is_alphabetic(c),
;

/// The code points with the Unicode property `White_Space`.
pub open spec fn is_whitespace(c: char) -> bool {
    let n = c as u32;
    ||| 0x09 <= n <= 0x0d
    ||| n == 0x20
    ||| n == 0x85
    ||| n == 0xa0
    ||| n == 0x1680
    ||| 0x2000 <= n <= 0x200a
    ||| n == 0x2028
    ||| n == 0x2029
    ||| n == 0x202f
    ||| n == 0x205f
    ||| n == 0x3000
}

/// Decides `is_whitespace`.
pub fn whitespace(c: char) -> (b: bool)
    ensures
        b == is_whitespace(c),
{
    let n: u32 = c as u32;
    (0x09 <= n && n <= 0x0d) || n == 0x20 || n == 0x85 || n == 0xa0 || n == 0x1680 || (0x2000 <= n
        && n <= 0x200a) || n == 0x2028 || n == 0x2029 || n == 0x202f || n == 0x205f || n == 0x3000
}

/// `c` with the ASCII letters `a` to `z` replaced by `A` to `Z`.
pub open spec fn ascii_uppercase(c: char) -> char {
    if 'a' <= c <= 'z' {
        ((c as u32) - 32) as char
    } else {
        c
    }
}

/// `char::to_ascii_uppercase`: the letters `a` to `z` become `A` to `Z`, and
/// every other character comes back unchanged.
pub assume_specification[ char::to_ascii_uppercase ](c: &char) -> (u: char)
    ensures
        u == ascii_uppercase(*c),
;

/// `String::push`: the character is appended at the end.
pub assume_specification[ String::push ](s: &mut String, c: char)
    ensures
        final(s)@ == old(s)@.push(c),
;

/// One of the decimal digits `0` to `9`.
pub open spec fn is_decimal_digit(c: char) -> bool {
    '0' <= c <= '9'
}

/// A letter: within ASCII one of `a` to `z` and `A` to `Z`, beyond ASCII a
/// character with the property `Alphabetic`.
pub open spec fn is_letter(c: char) -> bool {
    if (c as u32) < 0x80 {
        'a' <= c <= 'z' || 'A' <= c <= 'Z'
    } else {
        char_is_alphabetic(c)
    }
}

/// What the tokenizer takes a character for.
#[derive(Clone, Copy, Debug, PartialEq, Eq, Structural)]
pub enum CharClass {
    /// Separates tokens and belongs to none.
    Space,
    /// A decimal digit.
    Digit,
    /// A letter that is not whitespace.
    Letter,
    /// Any other character: a token of its own.
    Other,
}

/// The class of `c`: whitespace before digits, digits before letters.
pub open spec fn class_of(c: char) -> CharClass {
    if is_whitespace(c) {
        CharClass::Space
    } else if is_decimal_digit(c) {
        CharClass::Digit
    } else if is_letter(c) {
        CharClass::Letter
    } else {
        CharClass::Other
    }
}

/// Computes `class_of`.
pub fn classify(c: char) -> (class: CharClass)
    ensures
        class == class_of(c),
{
    let n: u32 = c as u32;
    if whitespace(c) {
        CharClass::Space
    } else if 0x30 <= n && n <= 0x39 {
        CharClass::Digit
    } else if n < 0x80 {
        if (0x61 <= n && n <= 0x7a) || (0x41 <= n && n <= 0x5a) {
            CharClass::Letter
        } else {
            CharClass::Other
        }
    } else if c.is_alphabetic() {
        CharClass::Letter
    } else {
        CharClass::Other
    }
}

/// An ASCII capital is not whitespace, so folding a character that is not
/// whitespace to upper case gives one that is not whitespace either.
pub proof fn lemma_uppercase_keeps_solid(c: char)
    requires
        !is_whitespace(c),
    ensures
        !is_whitespace(ascii_uppercase(c)),
{
}

} // verus!
