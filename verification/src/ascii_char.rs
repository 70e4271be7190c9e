//! A small ASCII character type, stored in one byte.
use vstd::prelude::*;

use crate::char_like::{ascii_lower, ascii_upper, CharLike};
use crate::gram::{BiGram, HeptaGram, HexaGram, MonoGram, OctaGram, PentaGram, TetraGram, TriGram};
use crate::into_usize::{lemma_char_code, IntoUsize};

verus! {

/// Represents an ASCII character.
#[derive(Default, Clone, Copy, PartialEq, Eq, PartialOrd, Ord, Hash, Debug, Structural)]
pub struct ASCIIChar {
    /// The character.
    character: u8,
}

/// The character with the given byte.
pub closed spec fn ascii_of(b: u8) -> ASCIIChar {
    ASCIIChar { character: b }
}

/// A character is given back by its own byte.
pub proof fn lemma_ascii_of_byte(c: ASCIIChar)
    ensures
        ascii_of(c.byte()) == c,
        ascii_of(c.byte()).byte() == c.byte(),
{
}

/// The byte of a character with the given byte.
pub proof fn lemma_byte_of_ascii(b: u8)
    ensures
        ascii_of(b).byte() == b,
{
}

impl ASCIIChar {
    /// The byte of the character.
    pub closed spec fn byte(self) -> u8 {
        self.character
    }

    /// The NUL character.
    pub fn nul() -> (r: Self)
        ensures
            r.byte() == 0,
    {
        ASCIIChar { character: 0 }
    }

    /// The space character.
    pub fn space() -> (r: Self)
        ensures
            r.byte() == 32,
    {
        ASCIIChar { character: 32 }
    }

    /// Returns the lowercase version of the character.
    pub fn to_lowercase(self) -> (r: Self)
        ensures
            r.byte() == ascii_lower(self.byte() as int),
    {
        ASCIIChar { character: CharLike::to_lowercase(self.character) }
    }

    /// Returns the uppercase version of the character.
    pub fn to_uppercase(self) -> (r: Self)
        ensures
            r.byte() == ascii_upper(self.byte() as int),
    {
        ASCIIChar { character: CharLike::to_uppercase(self.character) }
    }

    /// Returns whether the current character is a space-like: space,
    /// horizontal tab, line feed, form feed or carriage return.
    pub fn is_space_like(self) -> (r: bool)
        ensures
            r == self.byte().space_like(),
    {
        CharLike::is_space_like(self.character)
    }

    /// Returns whether the current character is an ASCII digit or letter.
    pub fn is_alphanumeric(self) -> (r: bool)
        ensures
            r == self.byte().alphanumeric(),
    {
        CharLike::is_alphanumeric(self.character)
    }

    /// The character as a one-character string.
    pub fn to_string(&self) -> (r: String)
        ensures
            r@ == seq![self.byte() as char],
    {
        let mut out = String::new();
        crate::text::push_char(&mut out, self.character as char);
        out
    }

    /// The ASCII character for `character`, or an error when it is not ASCII.
    pub fn try_from_char(character: char) -> (r: Result<Self, &'static str>)
        ensures
            r is Ok <==> character as int <= 127,
            r is Ok ==> r.unwrap().byte() == character as int,
    {
        proof {
            lemma_char_code(character);
        }
        let code = (character as usize) as u32;
        if code <= 127 {
            Ok(ASCIIChar { character: code as u8 })
        } else {
            Err("Character is not ASCII")
        }
    }
}

impl From<u8> for ASCIIChar {
    fn from(character: u8) -> (r: Self) {
        ASCIIChar { character }
    }
}

impl vstd::std_specs::convert::FromSpecImpl<u8> for ASCIIChar {
    open spec fn obeys_from_spec() -> bool {
        true
    }

    open spec fn from_spec(character: u8) -> Self {
        ascii_of(character)
    }
}

impl From<ASCIIChar> for u8 {
    fn from(ascii_char: ASCIIChar) -> (r: u8) {
        ascii_char.character
    }
}

impl vstd::std_specs::convert::FromSpecImpl<ASCIIChar> for u8 {
    open spec fn obeys_from_spec() -> bool {
        true
    }

    open spec fn from_spec(ascii_char: ASCIIChar) -> u8 {
        ascii_char.byte()
    }
}

/// The code points of the ASCII characters of `s`, in order.
pub open spec fn ascii_codes(s: Seq<char>) -> Seq<int>
    decreases s.len(),
{
    if s.len() == 0 {
        Seq::empty()
    } else if s.last() as int <= 127 {
        ascii_codes(s.drop_last()).push(s.last() as int)
    } else {
        ascii_codes(s.drop_last())
    }
}

/// The ASCII characters among `chars`, in order; the others are left out.
pub fn ascii(chars: &Vec<char>) -> (r: Vec<ASCIIChar>)
    ensures
        r@.map_values(|c: ASCIIChar| c.byte() as int) == ascii_codes(chars@),
{
    let mut out: Vec<ASCIIChar> = Vec::new();
    let mut k: usize = 0;
    while k < chars.len()
        invariant
            k <= chars@.len(),
            out@.map_values(|c: ASCIIChar| c.byte() as int) == ascii_codes(chars@.take(k as int)),
        decreases chars@.len() - k,
    {
        let c = chars[k];
        proof {
            assert(chars@.take(k + 1).drop_last() =~= chars@.take(k as int));
            assert(chars@.take(k + 1).last() == c);
        }
        let ghost before = out@;
        match ASCIIChar::try_from_char(c) {
            Ok(a) => {
                out.push(a);
                proof {
                    assert(out@.map_values(|c: ASCIIChar| c.byte() as int) =~= before.map_values(
                        |c: ASCIIChar| c.byte() as int,
                    ).push(c as int));
                }
            },
            Err(_) => {},
        }
        k = k + 1;
    }
    proof {
        assert(chars@.take(k as int) =~= chars@);
    }
    out
}

impl CharLike for ASCIIChar {
    open spec fn space_char() -> ASCIIChar {
        ascii_of(32)
    }

    open spec fn nul_char() -> ASCIIChar {
        ascii_of(0)
    }

    fn space() -> (r: ASCIIChar) {
        ASCIIChar { character: 32 }
    }

    fn nul() -> (r: ASCIIChar) {
        ASCIIChar { character: 0 }
    }

    open spec fn lowered(self) -> ASCIIChar {
        ascii_of(ascii_lower(self.byte() as int) as u8)
    }

    open spec fn uppered(self) -> ASCIIChar {
        ascii_of(ascii_upper(self.byte() as int) as u8)
    }

    open spec fn space_like(self) -> bool {
        self.byte().space_like()
    }

    open spec fn alphanumeric(self) -> bool {
        self.byte().alphanumeric()
    }

    fn to_lowercase(self) -> (r: ASCIIChar) {
        ASCIIChar::to_lowercase(self)
    }

    fn to_uppercase(self) -> (r: ASCIIChar) {
        ASCIIChar::to_uppercase(self)
    }

    fn is_space_like(self) -> (r: bool) {
        ASCIIChar::is_space_like(self)
    }

    fn is_alphanumeric(self) -> (r: bool) {
        ASCIIChar::is_alphanumeric(self)
    }

    fn is_nul(self) -> (r: bool) {
        self.character == 0
    }
}

impl IntoUsize for ASCIIChar {
    open spec fn encodable(self) -> bool {
        true
    }

    open spec fn code(self) -> usize {
        self.byte() as usize
    }

    open spec fn decodable(value: usize) -> bool {
        true
    }

    open spec fn decode(value: usize) -> ASCIIChar {
        ascii_of(value as u8)
    }

    fn into_usize(self) -> (r: usize) {
        self.character as usize
    }

    fn from_usize(value: usize) -> (r: Self) {
        ASCIIChar { character: value as u8 }
    }

    proof fn lemma_roundtrip(x: Self) {
        let a0 = x.byte();
        assert((a0 as usize) as u8 == a0) by (bit_vector);
        lemma_ascii_of_byte(x);
    }
}

impl IntoUsize for MonoGram<ASCIIChar> {
    open spec fn encodable(self) -> bool {
        true
    }

    open spec fn code(self) -> usize {
        self[0].byte() as usize
    }

    open spec fn decodable(value: usize) -> bool {
        true
    }

    open spec fn decode(value: usize) -> MonoGram<ASCIIChar> {
        [ascii_of(value as u8)]
    }

    fn into_usize(self) -> (r: usize) {
        self[0].character as usize
    }

    fn from_usize(value: usize) -> (r: Self) {
        [ASCIIChar { character: value as u8 }]
    }

    proof fn lemma_roundtrip(x: Self) {
        let a0 = x[0].byte();
        assert((a0 as usize) as u8 == a0) by (bit_vector);
        lemma_ascii_of_byte(x[0]);
        assert(Self::decode(x.code())@ =~= x@);
    }
}

impl IntoUsize for BiGram<ASCIIChar> {
    open spec fn encodable(self) -> bool {
        true
    }

    open spec fn code(self) -> usize {
        (self[0].byte() as usize) << 8usize | self[1].byte() as usize
    }

    open spec fn decodable(value: usize) -> bool {
        true
    }

    open spec fn decode(value: usize) -> BiGram<ASCIIChar> {
        [ascii_of((value >> 8usize) as u8), ascii_of(value as u8)]
    }

    fn into_usize(self) -> (r: usize) {
        (self[0].character as usize) << 8usize | self[1].character as usize
    }

    fn from_usize(value: usize) -> (r: Self) {
        [ASCIIChar { character: (value >> 8usize) as u8 }, ASCIIChar { character: value as u8 }]
    }

    proof fn lemma_roundtrip(x: Self) {
        let a0 = x[0].byte();
        let a1 = x[1].byte();
        assert((((a0 as usize) << 8usize | a1 as usize) >> 8usize) as u8 == a0 && ((a0 as usize) << 8usize | a1 as usize) as u8 == a1) by (bit_vector);
        lemma_ascii_of_byte(x[0]);
        lemma_ascii_of_byte(x[1]);
        assert(Self::decode(x.code())@ =~= x@);
    }
}

impl IntoUsize for TriGram<ASCIIChar> {
    open spec fn encodable(self) -> bool {
        true
    }

    open spec fn code(self) -> usize {
        (self[0].byte() as usize) << 16usize | (self[1].byte() as usize) << 8usize | self[2].byte() as usize
    }

    open spec fn decodable(value: usize) -> bool {
        true
    }

    open spec fn decode(value: usize) -> TriGram<ASCIIChar> {
        [ascii_of((value >> 16usize) as u8), ascii_of((value >> 8usize) as u8), ascii_of(value as u8)]
    }

    fn into_usize(self) -> (r: usize) {
        (self[0].character as usize) << 16usize | (self[1].character as usize) << 8usize | self[2].character as usize
    }

    fn from_usize(value: usize) -> (r: Self) {
        [ASCIIChar { character: (value >> 16usize) as u8 }, ASCIIChar { character: (value >> 8usize) as u8 }, ASCIIChar { character: value as u8 }]
    }

    proof fn lemma_roundtrip(x: Self) {
        let a0 = x[0].byte();
        let a1 = x[1].byte();
        let a2 = x[2].byte();
        assert((((a0 as usize) << 16usize | (a1 as usize) << 8usize | a2 as usize) >> 16usize) as u8 == a0 && (((a0 as usize) << 16usize | (a1 as usize) << 8usize | a2 as usize) >> 8usize) as u8 == a1 && ((a0 as usize) << 16usize | (a1 as usize) << 8usize | a2 as usize) as u8 == a2) by (bit_vector);
        lemma_ascii_of_byte(x[0]);
        lemma_ascii_of_byte(x[1]);
        lemma_ascii_of_byte(x[2]);
        assert(Self::decode(x.code())@ =~= x@);
    }
}

impl IntoUsize for TetraGram<ASCIIChar> {
    open spec fn encodable(self) -> bool {
        true
    }

    open spec fn code(self) -> usize {
        (self[0].byte() as usize) << 24usize | (self[1].byte() as usize) << 16usize | (self[2].byte() as usize) << 8usize | self[3].byte() as usize
    }

    open spec fn decodable(value: usize) -> bool {
        true
    }

    open spec fn decode(value: usize) -> TetraGram<ASCIIChar> {
        [ascii_of((value >> 24usize) as u8), ascii_of((value >> 16usize) as u8), ascii_of((value >> 8usize) as u8), ascii_of(value as u8)]
    }

    fn into_usize(self) -> (r: usize) {
        (self[0].character as usize) << 24usize | (self[1].character as usize) << 16usize | (self[2].character as usize) << 8usize | self[3].character as usize
    }

    fn from_usize(value: usize) -> (r: Self) {
        [ASCIIChar { character: (value >> 24usize) as u8 }, ASCIIChar { character: (value >> 16usize) as u8 }, ASCIIChar { character: (value >> 8usize) as u8 }, ASCIIChar { character: value as u8 }]
    }

    proof fn lemma_roundtrip(x: Self) {
        let a0 = x[0].byte();
        let a1 = x[1].byte();
        let a2 = x[2].byte();
        let a3 = x[3].byte();
        assert((((a0 as usize) << 24usize | (a1 as usize) << 16usize | (a2 as usize) << 8usize | a3 as usize) >> 24usize) as u8 == a0 && (((a0 as usize) << 24usize | (a1 as usize) << 16usize | (a2 as usize) << 8usize | a3 as usize) >> 16usize) as u8 == a1 && (((a0 as usize) << 24usize | (a1 as usize) << 16usize | (a2 as usize) << 8usize | a3 as usize) >> 8usize) as u8 == a2 && ((a0 as usize) << 24usize | (a1 as usize) << 16usize | (a2 as usize) << 8usize | a3 as usize) as u8 == a3) by (bit_vector);
        lemma_ascii_of_byte(x[0]);
        lemma_ascii_of_byte(x[1]);
        lemma_ascii_of_byte(x[2]);
        lemma_ascii_of_byte(x[3]);
        assert(Self::decode(x.code())@ =~= x@);
    }
}

impl IntoUsize for PentaGram<ASCIIChar> {
    open spec fn encodable(self) -> bool {
        usize::BITS == 64
    }

    open spec fn code(self) -> usize {
        (self[0].byte() as usize) << 32usize | (self[1].byte() as usize) << 24usize | (self[2].byte() as usize) << 16usize | (self[3].byte() as usize) << 8usize | self[4].byte() as usize
    }

    open spec fn decodable(value: usize) -> bool {
        usize::BITS == 64
    }

    open spec fn decode(value: usize) -> PentaGram<ASCIIChar> {
        [ascii_of((value >> 32usize) as u8), ascii_of((value >> 24usize) as u8), ascii_of((value >> 16usize) as u8), ascii_of((value >> 8usize) as u8), ascii_of(value as u8)]
    }

    fn into_usize(self) -> (r: usize) {
        (self[0].character as usize) << 32usize | (self[1].character as usize) << 24usize | (self[2].character as usize) << 16usize | (self[3].character as usize) << 8usize | self[4].character as usize
    }

    fn from_usize(value: usize) -> (r: Self) {
        [ASCIIChar { character: (value >> 32usize) as u8 }, ASCIIChar { character: (value >> 24usize) as u8 }, ASCIIChar { character: (value >> 16usize) as u8 }, ASCIIChar { character: (value >> 8usize) as u8 }, ASCIIChar { character: value as u8 }]
    }

    proof fn lemma_roundtrip(x: Self) {
        let a0 = x[0].byte();
        let a1 = x[1].byte();
        let a2 = x[2].byte();
        let a3 = x[3].byte();
        let a4 = x[4].byte();
        assert((((a0 as usize) << 32usize | (a1 as usize) << 24usize | (a2 as usize) << 16usize | (a3 as usize) << 8usize | a4 as usize) >> 32usize) as u8 == a0 && (((a0 as usize) << 32usize | (a1 as usize) << 24usize | (a2 as usize) << 16usize | (a3 as usize) << 8usize | a4 as usize) >> 24usize) as u8 == a1 && (((a0 as usize) << 32usize | (a1 as usize) << 24usize | (a2 as usize) << 16usize | (a3 as usize) << 8usize | a4 as usize) >> 16usize) as u8 == a2 && (((a0 as usize) << 32usize | (a1 as usize) << 24usize | (a2 as usize) << 16usize | (a3 as usize) << 8usize | a4 as usize) >> 8usize) as u8 == a3 && ((a0 as usize) << 32usize | (a1 as usize) << 24usize | (a2 as usize) << 16usize | (a3 as usize) << 8usize | a4 as usize) as u8 == a4) by (bit_vector)
            requires
                usize::BITS == 64,
        ;
        lemma_ascii_of_byte(x[0]);
        lemma_ascii_of_byte(x[1]);
        lemma_ascii_of_byte(x[2]);
        lemma_ascii_of_byte(x[3]);
        lemma_ascii_of_byte(x[4]);
        assert(Self::decode(x.code())@ =~= x@);
    }
}

impl IntoUsize for HexaGram<ASCIIChar> {
    open spec fn encodable(self) -> bool {
        usize::BITS == 64
    }

    open spec fn code(self) -> usize {
        (self[0].byte() as usize) << 40usize | (self[1].byte() as usize) << 32usize | (self[2].byte() as usize) << 24usize | (self[3].byte() as usize) << 16usize | (self[4].byte() as usize) << 8usize | self[5].byte() as usize
    }

    open spec fn decodable(value: usize) -> bool {
        usize::BITS == 64
    }

    open spec fn decode(value: usize) -> HexaGram<ASCIIChar> {
        [ascii_of((value >> 40usize) as u8), ascii_of((value >> 32usize) as u8), ascii_of((value >> 24usize) as u8), ascii_of((value >> 16usize) as u8), ascii_of((value >> 8usize) as u8), ascii_of(value as u8)]
    }

    fn into_usize(self) -> (r: usize) {
        (self[0].character as usize) << 40usize | (self[1].character as usize) << 32usize | (self[2].character as usize) << 24usize | (self[3].character as usize) << 16usize | (self[4].character as usize) << 8usize | self[5].character as usize
    }

    fn from_usize(value: usize) -> (r: Self) {
        [ASCIIChar { character: (value >> 40usize) as u8 }, ASCIIChar { character: (value >> 32usize) as u8 }, ASCIIChar { character: (value >> 24usize) as u8 }, ASCIIChar { character: (value >> 16usize) as u8 }, ASCIIChar { character: (value >> 8usize) as u8 }, ASCIIChar { character: value as u8 }]
    }

    proof fn lemma_roundtrip(x: Self) {
        let a0 = x[0].byte();
        let a1 = x[1].byte();
        let a2 = x[2].byte();
        let a3 = x[3].byte();
        let a4 = x[4].byte();
        let a5 = x[5].byte();
        assert((((a0 as usize) << 40usize | (a1 as usize) << 32usize | (a2 as usize) << 24usize | (a3 as usize) << 16usize | (a4 as usize) << 8usize | a5 as usize) >> 40usize) as u8 == a0 && (((a0 as usize) << 40usize | (a1 as usize) << 32usize | (a2 as usize) << 24usize | (a3 as usize) << 16usize | (a4 as usize) << 8usize | a5 as usize) >> 32usize) as u8 == a1 && (((a0 as usize) << 40usize | (a1 as usize) << 32usize | (a2 as usize) << 24usize | (a3 as usize) << 16usize | (a4 as usize) << 8usize | a5 as usize) >> 24usize) as u8 == a2 && (((a0 as usize) << 40usize | (a1 as usize) << 32usize | (a2 as usize) << 24usize | (a3 as usize) << 16usize | (a4 as usize) << 8usize | a5 as usize) >> 16usize) as u8 == a3 && (((a0 as usize) << 40usize | (a1 as usize) << 32usize | (a2 as usize) << 24usize | (a3 as usize) << 16usize | (a4 as usize) << 8usize | a5 as usize) >> 8usize) as u8 == a4 && ((a0 as usize) << 40usize | (a1 as usize) << 32usize | (a2 as usize) << 24usize | (a3 as usize) << 16usize | (a4 as usize) << 8usize | a5 as usize) as u8 == a5) by (bit_vector)
            requires
                usize::BITS == 64,
        ;
        lemma_ascii_of_byte(x[0]);
        lemma_ascii_of_byte(x[1]);
        lemma_ascii_of_byte(x[2]);
        lemma_ascii_of_byte(x[3]);
        lemma_ascii_of_byte(x[4]);
        lemma_ascii_of_byte(x[5]);
        assert(Self::decode(x.code())@ =~= x@);
    }
}

impl IntoUsize for HeptaGram<ASCIIChar> {
    open spec fn encodable(self) -> bool {
        usize::BITS == 64
    }

    open spec fn code(self) -> usize {
        (self[0].byte() as usize) << 48usize | (self[1].byte() as usize) << 40usize | (self[2].byte() as usize) << 32usize | (self[3].byte() as usize) << 24usize | (self[4].byte() as usize) << 16usize | (self[5].byte() as usize) << 8usize | self[6].byte() as usize
    }

    open spec fn decodable(value: usize) -> bool {
        usize::BITS == 64
    }

    open spec fn decode(value: usize) -> HeptaGram<ASCIIChar> {
        [ascii_of((value >> 48usize) as u8), ascii_of((value >> 40usize) as u8), ascii_of((value >> 32usize) as u8), ascii_of((value >> 24usize) as u8), ascii_of((value >> 16usize) as u8), ascii_of((value >> 8usize) as u8), ascii_of(value as u8)]
    }

    fn into_usize(self) -> (r: usize) {
        (self[0].character as usize) << 48usize | (self[1].character as usize) << 40usize | (self[2].character as usize) << 32usize | (self[3].character as usize) << 24usize | (self[4].character as usize) << 16usize | (self[5].character as usize) << 8usize | self[6].character as usize
    }

    fn from_usize(value: usize) -> (r: Self) {
        [ASCIIChar { character: (value >> 48usize) as u8 }, ASCIIChar { character: (value >> 40usize) as u8 }, ASCIIChar { character: (value >> 32usize) as u8 }, ASCIIChar { character: (value >> 24usize) as u8 }, ASCIIChar { character: (value >> 16usize) as u8 }, ASCIIChar { character: (value >> 8usize) as u8 }, ASCIIChar { character: value as u8 }]
    }

    proof fn lemma_roundtrip(x: Self) {
        let a0 = x[0].byte();
        let a1 = x[1].byte();
        let a2 = x[2].byte();
        let a3 = x[3].byte();
        let a4 = x[4].byte();
        let a5 = x[5].byte();
        let a6 = x[6].byte();
        assert((((a0 as usize) << 48usize | (a1 as usize) << 40usize | (a2 as usize) << 32usize | (a3 as usize) << 24usize | (a4 as usize) << 16usize | (a5 as usize) << 8usize | a6 as usize) >> 48usize) as u8 == a0 && (((a0 as usize) << 48usize | (a1 as usize) << 40usize | (a2 as usize) << 32usize | (a3 as usize) << 24usize | (a4 as usize) << 16usize | (a5 as usize) << 8usize | a6 as usize) >> 40usize) as u8 == a1 && (((a0 as usize) << 48usize | (a1 as usize) << 40usize | (a2 as usize) << 32usize | (a3 as usize) << 24usize | (a4 as usize) << 16usize | (a5 as usize) << 8usize | a6 as usize) >> 32usize) as u8 == a2 && (((a0 as usize) << 48usize | (a1 as usize) << 40usize | (a2 as usize) << 32usize | (a3 as usize) << 24usize | (a4 as usize) << 16usize | (a5 as usize) << 8usize | a6 as usize) >> 24usize) as u8 == a3 && (((a0 as usize) << 48usize | (a1 as usize) << 40usize | (a2 as usize) << 32usize | (a3 as usize) << 24usize | (a4 as usize) << 16usize | (a5 as usize) << 8usize | a6 as usize) >> 16usize) as u8 == a4 && (((a0 as usize) << 48usize | (a1 as usize) << 40usize | (a2 as usize) << 32usize | (a3 as usize) << 24usize | (a4 as usize) << 16usize | (a5 as usize) << 8usize | a6 as usize) >> 8usize) as u8 == a5 && ((a0 as usize) << 48usize | (a1 as usize) << 40usize | (a2 as usize) << 32usize | (a3 as usize) << 24usize | (a4 as usize) << 16usize | (a5 as usize) << 8usize | a6 as usize) as u8 == a6) by (bit_vector)
            requires
                usize::BITS == 64,
        ;
        lemma_ascii_of_byte(x[0]);
        lemma_ascii_of_byte(x[1]);
        lemma_ascii_of_byte(x[2]);
        lemma_ascii_of_byte(x[3]);
        lemma_ascii_of_byte(x[4]);
        lemma_ascii_of_byte(x[5]);
        lemma_ascii_of_byte(x[6]);
        assert(Self::decode(x.code())@ =~= x@);
    }
}

impl IntoUsize for OctaGram<ASCIIChar> {
    open spec fn encodable(self) -> bool {
        usize::BITS == 64
    }

    open spec fn code(self) -> usize {
        (self[0].byte() as usize) << 56usize | (self[1].byte() as usize) << 48usize | (self[2].byte() as usize) << 40usize | (self[3].byte() as usize) << 32usize | (self[4].byte() as usize) << 24usize | (self[5].byte() as usize) << 16usize | (self[6].byte() as usize) << 8usize | self[7].byte() as usize
    }

    open spec fn decodable(value: usize) -> bool {
        usize::BITS == 64
    }

    open spec fn decode(value: usize) -> OctaGram<ASCIIChar> {
        [ascii_of((value >> 56usize) as u8), ascii_of((value >> 48usize) as u8), ascii_of((value >> 40usize) as u8), ascii_of((value >> 32usize) as u8), ascii_of((value >> 24usize) as u8), ascii_of((value >> 16usize) as u8), ascii_of((value >> 8usize) as u8), ascii_of(value as u8)]
    }

    fn into_usize(self) -> (r: usize) {
        (self[0].character as usize) << 56usize | (self[1].character as usize) << 48usize | (self[2].character as usize) << 40usize | (self[3].character as usize) << 32usize | (self[4].character as usize) << 24usize | (self[5].character as usize) << 16usize | (self[6].character as usize) << 8usize | self[7].character as usize
    }

    fn from_usize(value: usize) -> (r: Self) {
        [ASCIIChar { character: (value >> 56usize) as u8 }, ASCIIChar { character: (value >> 48usize) as u8 }, ASCIIChar { character: (value >> 40usize) as u8 }, ASCIIChar { character: (value >> 32usize) as u8 }, ASCIIChar { character: (value >> 24usize) as u8 }, ASCIIChar { character: (value >> 16usize) as u8 }, ASCIIChar { character: (value >> 8usize) as u8 }, ASCIIChar { character: value as u8 }]
    }

    proof fn lemma_roundtrip(x: Self) {
        let a0 = x[0].byte();
        let a1 = x[1].byte();
        let a2 = x[2].byte();
        let a3 = x[3].byte();
        let a4 = x[4].byte();
        let a5 = x[5].byte();
        let a6 = x[6].byte();
        let a7 = x[7].byte();
        assert((((a0 as usize) << 56usize | (a1 as usize) << 48usize | (a2 as usize) << 40usize | (a3 as usize) << 32usize | (a4 as usize) << 24usize | (a5 as usize) << 16usize | (a6 as usize) << 8usize | a7 as usize) >> 56usize) as u8 == a0 && (((a0 as usize) << 56usize | (a1 as usize) << 48usize | (a2 as usize) << 40usize | (a3 as usize) << 32usize | (a4 as usize) << 24usize | (a5 as usize) << 16usize | (a6 as usize) << 8usize | a7 as usize) >> 48usize) as u8 == a1 && (((a0 as usize) << 56usize | (a1 as usize) << 48usize | (a2 as usize) << 40usize | (a3 as usize) << 32usize | (a4 as usize) << 24usize | (a5 as usize) << 16usize | (a6 as usize) << 8usize | a7 as usize) >> 40usize) as u8 == a2 && (((a0 as usize) << 56usize | (a1 as usize) << 48usize | (a2 as usize) << 40usize | (a3 as usize) << 32usize | (a4 as usize) << 24usize | (a5 as usize) << 16usize | (a6 as usize) << 8usize | a7 as usize) >> 32usize) as u8 == a3 && (((a0 as usize) << 56usize | (a1 as usize) << 48usize | (a2 as usize) << 40usize | (a3 as usize) << 32usize | (a4 as usize) << 24usize | (a5 as usize) << 16usize | (a6 as usize) << 8usize | a7 as usize) >> 24usize) as u8 == a4 && (((a0 as usize) << 56usize | (a1 as usize) << 48usize | (a2 as usize) << 40usize | (a3 as usize) << 32usize | (a4 as usize) << 24usize | (a5 as usize) << 16usize | (a6 as usize) << 8usize | a7 as usize) >> 16usize) as u8 == a5 && (((a0 as usize) << 56usize | (a1 as usize) << 48usize | (a2 as usize) << 40usize | (a3 as usize) << 32usize | (a4 as usize) << 24usize | (a5 as usize) << 16usize | (a6 as usize) << 8usize | a7 as usize) >> 8usize) as u8 == a6 && ((a0 as usize) << 56usize | (a1 as usize) << 48usize | (a2 as usize) << 40usize | (a3 as usize) << 32usize | (a4 as usize) << 24usize | (a5 as usize) << 16usize | (a6 as usize) << 8usize | a7 as usize) as u8 == a7) by (bit_vector)
            requires
                usize::BITS == 64,
        ;
        lemma_ascii_of_byte(x[0]);
        lemma_ascii_of_byte(x[1]);
        lemma_ascii_of_byte(x[2]);
        lemma_ascii_of_byte(x[3]);
        lemma_ascii_of_byte(x[4]);
        lemma_ascii_of_byte(x[5]);
        lemma_ascii_of_byte(x[6]);
        lemma_ascii_of_byte(x[7]);
        assert(Self::decode(x.code())@ =~= x@);
    }
}

} // verus!
