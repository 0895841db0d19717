//! Character classes used by the lexers, as std's `char` methods define them.
use vstd::prelude::*;

verus! {

/// Whether a character outside ASCII has Unicode's `White_Space` property.
pub uninterp spec fn unicode_white_space(c: char) -> bool;

/// Whether a character outside ASCII is in one of Unicode's number categories.
pub uninterp spec fn unicode_numeric(c: char) -> bool;

/// Whether a character outside ASCII has Unicode's `Alphabetic` property.
pub uninterp spec fn unicode_alphabetic(c: char) -> bool;

/// What `char::is_whitespace` answers: the ASCII space, tab, line feed,
/// vertical tab, form feed and carriage return, and Unicode's `White_Space`
/// beyond ASCII.
pub open spec fn is_space(c: char) -> bool {
    if c <= '\x7f' {
        c == ' ' || ('\t' <= c && c <= '\r')
    } else {
        unicode_white_space(c)
    }
}

/// What `char::is_numeric` answers: the ASCII digits, and Unicode's number
/// categories beyond ASCII.
pub open spec fn is_numeric(c: char) -> bool {
    if c <= '\x7f' {
        '0' <= c && c <= '9'
    } else {
        unicode_numeric(c)
    }
}

/// What `char::is_alphabetic` answers: the ASCII letters, and Unicode's
/// `Alphabetic` property beyond ASCII.
pub open spec fn is_alphabetic(c: char) -> bool {
    if c <= '\x7f' {
        ('a' <= c && c <= 'z') || ('A' <= c && c <= 'Z')
    } else {
        unicode_alphabetic(c)
    }
}

/// Relies on `char::is_whitespace`: `' '` and `'\t'..='\r'` in ASCII, the
/// `White_Space` property beyond it.
#[verifier::external_body]
pub(crate) fn char_is_whitespace(c: char) -> (r: bool)
    ensures
        c <= '\x7f' ==> (r <==> (c == ' ' || ('\t' <= c && c <= '\r'))),
        c > '\x7f' ==> r == unicode_white_space(c),
{
    c.is_whitespace()
}

/// Relies on `char::is_numeric`: `'0'..='9'` in ASCII, the general
/// categories `Nd`, `Nl` and `No` beyond it.
#[verifier::external_body]
pub(crate) fn char_is_numeric(c: char) -> (r: bool)
    ensures
        c <= '\x7f' ==> (r <==> ('0' <= c && c <= '9')),
        c > '\x7f' ==> r == unicode_numeric(c),
{
    c.is_numeric()
}

/// Relies on `char::is_alphabetic`: `'a'..='z'` and `'A'..='Z'` in ASCII,
/// the `Alphabetic` property beyond it.
#[verifier::external_body]
pub(crate) fn char_is_alphabetic(c: char) -> (r: bool)
    ensures
        c <= '\x7f' ==> (r <==> (('a' <= c && c <= 'z') || ('A' <= c && c <= 'Z'))),
        c > '\x7f' ==> r == unicode_alphabetic(c),
{
    c.is_alphabetic()
}

/// Relies on `String::push`: appends one character.
#[verifier::external_body]
pub(crate) fn push_char(s: &mut String, c: char)
    ensures
        final(s)@ == old(s)@.push(c),
{
    s.push(c);
}

} // verus!
