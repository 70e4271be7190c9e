//! Character-like types: `char` and bytes.
use vstd::prelude::*;

use crate::into_usize::{char_from_u32, is_scalar, lemma_char_code};

verus! {

/// The ASCII lowercase of a code point: `A` to `Z` map to `a` to `z`, all
/// else is unchanged.
pub open spec fn ascii_lower(v: int) -> int {
    if 65 <= v <= 90 {
        v + 32
    } else {
        v
    }
}

/// The ASCII uppercase of a code point: `a` to `z` map to `A` to `Z`, all
/// else is unchanged.
pub open spec fn ascii_upper(v: int) -> int {
    if 97 <= v <= 122 {
        v - 32
    } else {
        v
    }
}

/// The Unicode `White_Space` property, as the Unicode Character Database
/// lists it: the controls from tab to carriage return, space, next line,
/// no-break space, the Ogham space mark, the spaces from en quad to hair
/// space, the line and paragraph separators, the narrow no-break space, the
/// medium mathematical space and the ideographic space.
pub open spec fn unicode_whitespace(c: char) -> bool {
    let v = c as int;
    ||| 0x09 <= v <= 0x0D
    ||| v == 0x20
    ||| v == 0x85
    ||| v == 0xA0
    ||| v == 0x1680
    ||| 0x2000 <= v <= 0x200A
    ||| v == 0x2028
    ||| v == 0x2029
    ||| v == 0x202F
    ||| v == 0x205F
    ||| v == 0x3000
}

/// What `char::is_alphanumeric` says of `c` (the Unicode `Alphabetic` or
/// `Numeric` property).
pub uninterp spec fn unicode_alphanumeric(c: char) -> bool;

/// Whether the character has the Unicode `White_Space` property, as
/// `char::is_whitespace` says.
fn char_is_whitespace(c: char) -> (r: bool)
    ensures
        r == unicode_whitespace(c),
{
    ('\u{9}' <= c && c <= '\u{D}') || c == ' ' || c == '\u{85}' || c == '\u{A0}' || c == '\u{1680}'
        || ('\u{2000}' <= c && c <= '\u{200A}') || c == '\u{2028}' || c == '\u{2029}' || c == '\u{202F}'
        || c == '\u{205F}' || c == '\u{3000}'
}

/// `char::is_alphanumeric`; its result is named `unicode_alphanumeric`.
#[verifier::external_body]
fn char_is_alphanumeric(c: char) -> (r: bool)
    ensures
        r == unicode_alphanumeric(c),
{
    c.is_alphanumeric()
}

/// Trait defining a char-like type.
pub trait CharLike: Copy + Sized {
    /// The space character.
    spec fn space_char() -> Self;

    /// The NUL character.
    spec fn nul_char() -> Self;

    /// Returns the space character.
    fn space() -> (r: Self)
        ensures
            r == Self::space_char(),
    ;

    /// Returns the NUL character.
    fn nul() -> (r: Self)
        ensures
            r == Self::nul_char(),
    ;

    /// The lowercase version of the character.
    spec fn lowered(self) -> Self;

    /// The uppercase version of the character.
    spec fn uppered(self) -> Self;

    /// Whether the character is space-like.
    spec fn space_like(self) -> bool;

    /// Whether the character is alphanumeric.
    spec fn alphanumeric(self) -> bool;

    /// Returns the lowercase version of the character.
    fn to_lowercase(self) -> (r: Self)
        ensures
            r == self.lowered(),
    ;

    /// Returns the uppercase version of the character.
    fn to_uppercase(self) -> (r: Self)
        ensures
            r == self.uppered(),
    ;

    /// Returns whether the current character is a space-like.
    fn is_space_like(self) -> (r: bool)
        ensures
            r == self.space_like(),
    ;

    /// Returns whether the current character is alphanumeric.
    fn is_alphanumeric(self) -> (r: bool)
        ensures
            r == self.alphanumeric(),
    ;

    /// Returns whether the current character is a NUL.
    fn is_nul(self) -> (r: bool)
        ensures
            r == (self == Self::nul_char()),
    ;
}

impl CharLike for char {
    open spec fn space_char() -> char {
        ' '
    }

    open spec fn nul_char() -> char {
        '\0'
    }

    fn space() -> (r: char) {
        ' '
    }

    fn nul() -> (r: char) {
        '\0'
    }

    open spec fn lowered(self) -> char {
        ascii_lower(self as int) as char
    }

    open spec fn uppered(self) -> char {
        ascii_upper(self as int) as char
    }

    open spec fn space_like(self) -> bool {
        unicode_whitespace(self)
    }

    open spec fn alphanumeric(self) -> bool {
        unicode_alphanumeric(self)
    }

    fn to_lowercase(self) -> (r: char) {
        proof {
            lemma_char_code(self);
        }
        if 'A' <= self && self <= 'Z' {
            let v = ((self as usize) as u32) + 32;
            assert(is_scalar(v));
            char_from_u32(v).unwrap()
        } else {
            self
        }
    }

    fn to_uppercase(self) -> (r: char) {
        proof {
            lemma_char_code(self);
        }
        if 'a' <= self && self <= 'z' {
            let v = ((self as usize) as u32) - 32;
            assert(is_scalar(v));
            char_from_u32(v).unwrap()
        } else {
            self
        }
    }

    fn is_space_like(self) -> (r: bool) {
        char_is_whitespace(self)
    }

    fn is_alphanumeric(self) -> (r: bool) {
        char_is_alphanumeric(self)
    }

    fn is_nul(self) -> (r: bool) {
        self == '\0'
    }
}

impl CharLike for u8 {
    open spec fn space_char() -> u8 {
        32
    }

    open spec fn nul_char() -> u8 {
        0
    }

    fn space() -> (r: u8) {
        32
    }

    fn nul() -> (r: u8) {
        0
    }

    open spec fn lowered(self) -> u8 {
        ascii_lower(self as int) as u8
    }

    open spec fn uppered(self) -> u8 {
        ascii_upper(self as int) as u8
    }

    /// Space, horizontal tab, line feed, form feed or carriage return.
    open spec fn space_like(self) -> bool {
        self == 32 || self == 9 || self == 10 || self == 12 || self == 13
    }

    /// An ASCII digit or letter.
    open spec fn alphanumeric(self) -> bool {
        (48 <= self <= 57) || (65 <= self <= 90) || (97 <= self <= 122)
    }

    fn to_lowercase(self) -> (r: u8) {
        if 65 <= self && self <= 90 {
            self + 32
        } else {
            self
        }
    }

    fn to_uppercase(self) -> (r: u8) {
        if 97 <= self && self <= 122 {
            self - 32
        } else {
            self
        }
    }

    fn is_space_like(self) -> (r: bool) {
        self == 32 || self == 9 || self == 10 || self == 12 || self == 13
    }

    fn is_alphanumeric(self) -> (r: bool) {
        (48 <= self && self <= 57) || (65 <= self && self <= 90) || (97 <= self && self <= 122)
    }

    fn is_nul(self) -> (r: bool) {
        self == 0
    }
}

} // verus!
