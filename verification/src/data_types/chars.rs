//! The code units of the two firmware text encodings.
//!
//! A kind of character is modelled by two partial maps between Unicode
//! scalar values and code units, together with its two reserved units.

use vstd::prelude::*;

verus! {

/// A kind of fixed-width firmware character.
pub trait Character: Copy + Sized {
    /// The integer that carries one code unit of this kind.
    type IntRepr: Copy;

    /// The scalar value that `code` stands for, if `code` is a character of this kind.
    spec fn decodes(code: Self::IntRepr) -> Option<char>;

    /// The code unit of `c`, if this kind can represent `c`.
    spec fn encodes(c: char) -> Option<Self::IntRepr>;

    /// The code unit that ends a string.
    spec fn nul_code() -> Self::IntRepr;

    /// The code unit of a carriage return.
    spec fn cr_code() -> Self::IntRepr;

    /// The code unit that this character holds.
    spec fn code(self) -> Self::IntRepr;

    /// A representable scalar value is read back from its code unit.
    proof fn lemma_encodes_decodes(c: char)
        ensures
            Self::encodes(c) matches Some(u) ==> Self::decodes(u) == Some(c),
    ;

    /// A valid code unit is the code unit of the scalar value it stands for.
    proof fn lemma_decodes_encodes(code: Self::IntRepr)
        ensures
            Self::decodes(code) matches Some(c) ==> Self::encodes(c) == Some(code),
    ;

    /// The reserved units stand for the null character and the carriage return.
    proof fn lemma_sentinels()
        ensures
            Self::decodes(Self::nul_code()) == Some('\0'),
            Self::decodes(Self::cr_code()) == Some('\r'),
    ;

    /// Reads a character from its integer representation.
    fn try_from_int(code: Self::IntRepr) -> (r: Option<Self>)
        ensures
            match r {
                Some(ch) => ch.code() == code && Self::decodes(code) is Some,
                None => Self::decodes(code) is None,
            },
    ;

    /// Converts a Rust character, if this kind can represent it.
    fn try_from_char(c: char) -> (r: Option<Self>)
        ensures
            match r {
                Some(ch) => Self::encodes(c) == Some(ch.code()),
                None => Self::encodes(c) is None,
            },
    ;

    /// The integer representation of this character.
    fn to_int(self) -> (code: Self::IntRepr)
        ensures
            code == self.code(),
    ;

    /// The Rust character that this character stands for.
    fn to_char(self) -> (c: char)
        ensures
            Self::decodes(self.code()) == Some(c),
    ;

    /// The null character.
    fn nul() -> (ch: Self)
        ensures
            ch.code() == Self::nul_code(),
    ;

    /// The carriage return.
    fn carriage_return() -> (ch: Self)
        ensures
            ch.code() == Self::cr_code(),
    ;

    /// Whether two characters are the same code unit.
    fn equals(self, other: Self) -> (same: bool)
        ensures
            same == (self.code() == other.code()),
    ;
}

/// `char::from_u32` of the standard library: the character with the given
/// scalar value, and `None` for a number that is no scalar value (a
/// surrogate, or one above U+10FFFF).
pub assume_specification[ char::from_u32 ](i: u32) -> (r: Option<char>)
    ensures
        r == if vstd::utf8::is_scalar(i) {
            Some(i as char)
        } else {
            None
        },
;

/// Whether `code` lies in the range that UTF-16 reserves for surrogates.
pub open spec fn is_surrogate(code: u16) -> bool {
    0xD800 <= code <= 0xDFFF
}

/// A Latin-1 character: the scalar values up to U+00FF, one byte each.
#[derive(Clone, Copy, Debug, PartialEq, Eq, Structural)]
pub struct Char8(u8);

/// A UCS-2 character: a scalar value of the basic multilingual plane.
#[derive(Clone, Copy, Debug, PartialEq, Eq, Structural)]
pub struct Char16(u16);

impl Char8 {
    fn from_scalar(c: char) -> (r: Option<Self>)
        ensures
            match r {
                Some(ch) => Self::encodes(c) == Some(ch.code()),
                None => Self::encodes(c) is None,
            },
    {
        let scalar: u32 = c as u32;
        if scalar <= 0xFF {
            Some(Char8(scalar as u8))
        } else {
            None
        }
    }
}

proof fn lemma_latin1_round_trip(c: char)
    ensures
        Char8::encodes(c) matches Some(u) ==> Char8::decodes(u) == Some(c),
{
    if c as u32 <= 0xFF {
        assert((c as u8) as char == c);
    }
}

proof fn lemma_ucs2_round_trip(c: char)
    ensures
        Char16::encodes(c) matches Some(u) ==> Char16::decodes(u) == Some(c),
{
    if c as u32 <= 0xFFFF {
        assert((c as u16) as char == c);
    }
}

impl Character for Char8 {
    type IntRepr = u8;

    open spec fn decodes(code: u8) -> Option<char> {
        Some(code as char)
    }

    open spec fn encodes(c: char) -> Option<u8> {
        if c as u32 <= 0xFF {
            Some(c as u8)
        } else {
            None
        }
    }

    open spec fn nul_code() -> u8 {
        0
    }

    open spec fn cr_code() -> u8 {
        13
    }

    closed spec fn code(self) -> u8 {
        self.0
    }

    proof fn lemma_encodes_decodes(c: char) {
        lemma_latin1_round_trip(c);
    }

    proof fn lemma_decodes_encodes(code: u8) {
        assert((code as char) as u8 == code);
    }

    proof fn lemma_sentinels() {
    }

    fn try_from_int(code: u8) -> (r: Option<Self>) {
        Some(Char8(code))
    }

    fn try_from_char(c: char) -> (r: Option<Self>) {
        Char8::from_scalar(c)
    }

    fn to_int(self) -> (code: u8) {
        self.0
    }

    fn to_char(self) -> (c: char) {
        self.0 as char
    }

    fn nul() -> (ch: Self) {
        Char8(0)
    }

    fn carriage_return() -> (ch: Self) {
        Char8(13)
    }

    fn equals(self, other: Self) -> (same: bool) {
        self.0 == other.0
    }
}

impl Char16 {
    #[verifier::type_invariant]
    spec fn valid(self) -> bool {
        !is_surrogate(self.0)
    }

    fn from_scalar(c: char) -> (r: Option<Self>)
        ensures
            match r {
                Some(ch) => Self::encodes(c) == Some(ch.code()),
                None => Self::encodes(c) is None,
            },
    {
        let scalar: u32 = c as u32;
        if scalar <= 0xFFFF {
            Some(Char16(scalar as u16))
        } else {
            None
        }
    }
}

impl Character for Char16 {
    type IntRepr = u16;

    open spec fn decodes(code: u16) -> Option<char> {
        if is_surrogate(code) {
            None
        } else {
            Some(code as char)
        }
    }

    open spec fn encodes(c: char) -> Option<u16> {
        if c as u32 <= 0xFFFF {
            Some(c as u16)
        } else {
            None
        }
    }

    open spec fn nul_code() -> u16 {
        0
    }

    open spec fn cr_code() -> u16 {
        13
    }

    closed spec fn code(self) -> u16 {
        self.0
    }

    proof fn lemma_encodes_decodes(c: char) {
        lemma_ucs2_round_trip(c);
    }

    proof fn lemma_decodes_encodes(code: u16) {
        if !is_surrogate(code) {
            assert((code as char) as u16 == code);
        }
    }

    proof fn lemma_sentinels() {
    }

    fn try_from_int(code: u16) -> (r: Option<Self>) {
        if 0xD800 <= code && code <= 0xDFFF {
            None
        } else {
            Some(Char16(code))
        }
    }

    fn try_from_char(c: char) -> (r: Option<Self>) {
        Char16::from_scalar(c)
    }

    fn to_int(self) -> (code: u16) {
        self.0
    }

    fn to_char(self) -> (c: char) {
        proof {
            use_type_invariant(&self);
        }
        char::from_u32(self.0 as u32).unwrap()
    }

    fn nul() -> (ch: Self) {
        Char16(0)
    }

    fn carriage_return() -> (ch: Self) {
        Char16(13)
    }

    fn equals(self, other: Self) -> (same: bool) {
        self.0 == other.0
    }
}

} // verus!
