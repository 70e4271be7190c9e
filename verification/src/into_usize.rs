//! Packing grams into integers and back.
use vstd::prelude::*;

use crate::gram::{BiGram, HeptaGram, HexaGram, MonoGram, OctaGram, PentaGram, TetraGram, TriGram};

verus! {

/// Conversion of a value into a `usize` code, and back.
pub trait IntoUsize: Sized {
    /// Whether the code of this value fits in a `usize` of this platform.
    spec fn encodable(self) -> bool;

    /// The code of a value.
    spec fn code(self) -> usize;

    /// Whether `value` can be decoded on this platform.
    spec fn decodable(value: usize) -> bool;

    /// The value decoded from `value`.
    spec fn decode(value: usize) -> Self;

    /// Convert the object into a usize.
    fn into_usize(self) -> (r: usize)
        requires
            self.encodable(),
        ensures
            r == self.code(),
    ;

    /// Convert the object from an usize.
    fn from_usize(value: usize) -> (r: Self)
        requires
            Self::decodable(value),
        ensures
            r == Self::decode(value),
    ;

    /// Decoding the code of a value gives the value back.
    proof fn lemma_roundtrip(x: Self)
        requires
            x.encodable(),
        ensures
            Self::decodable(x.code()),
            Self::decode(x.code()) == x,
    ;
}

/// Whether `v` is the code point of a `char`.
pub open spec fn is_scalar(v: u32) -> bool {
    v < 0xD800 || (0xE000 <= v && v <= 0x10FFFF)
}

/// `char::from_u32`: the `char` with code point `v`, when there is one.
#[verifier::external_body]
pub(crate) fn char_from_u32(v: u32) -> (r: Option<char>)
    ensures
        r is Some == is_scalar(v),
        r is Some ==> r.unwrap() == v as char,
{
    char::from_u32(v)
}

/// A `char` goes through `usize` and `u32` unchanged.
pub(crate) proof fn lemma_char_code(c: char)
    ensures
        c as int <= 0x10FFFF,
        ((c as usize) as u32) as int == c as int,
        is_scalar((c as usize) as u32),
        ((c as usize) as u32) as char == c,
{
    let u = c as usize;
    assert(u <= 0x10FFFF);
    assert((u as u32) as int == u as int) by (bit_vector)
        requires
            u <= 0x10FFFF,
    ;
    let v = u as u32;
    assert(v as int == c as int);
    assert(v as char == c);
}

impl IntoUsize for u8 {
    open spec fn encodable(self) -> bool {
        true
    }

    open spec fn code(self) -> usize {
        self as usize
    }

    open spec fn decodable(value: usize) -> bool {
        true
    }

    open spec fn decode(value: usize) -> u8 {
        value as u8
    }

    fn into_usize(self) -> (r: usize) {
        self as usize
    }

    fn from_usize(value: usize) -> (r: Self) {
        value as u8
    }

    proof fn lemma_roundtrip(x: Self) {
        assert((x as usize) as u8 == x) by (bit_vector);
    }
}

impl IntoUsize for char {
    open spec fn encodable(self) -> bool {
        true
    }

    open spec fn code(self) -> usize {
        self as usize
    }

    open spec fn decodable(value: usize) -> bool {
        is_scalar(value as u32)
    }

    open spec fn decode(value: usize) -> char {
        (value as u32) as char
    }

    fn into_usize(self) -> (r: usize) {
        self as usize
    }

    fn from_usize(value: usize) -> (r: Self) {
        char_from_u32(value as u32).unwrap()
    }

    proof fn lemma_roundtrip(x: Self) {
        lemma_char_code(x);
    }
}

impl IntoUsize for MonoGram<char> {
    open spec fn encodable(self) -> bool {
        true
    }

    open spec fn code(self) -> usize {
        self[0] as usize
    }

    open spec fn decodable(value: usize) -> bool {
        is_scalar(value as u32)
    }

    open spec fn decode(value: usize) -> MonoGram<char> {
        [(value as u32) as char]
    }

    fn into_usize(self) -> (r: usize) {
        self[0] as usize
    }

    fn from_usize(value: usize) -> (r: Self) {
        [char::from_usize(value)]
    }

    proof fn lemma_roundtrip(x: Self) {
        lemma_char_code(x[0]);
        assert(Self::decode(x.code())@ =~= x@);
    }
}

impl IntoUsize for BiGram<char> {
    open spec fn encodable(self) -> bool {
        usize::BITS == 64
    }

    open spec fn code(self) -> usize {
        (self[0] as usize) << 32usize | self[1] as usize
    }

    open spec fn decodable(value: usize) -> bool {
        &&& usize::BITS == 64
        &&& is_scalar((value >> 32usize) as u32)
        &&& is_scalar(value as u32)
    }

    open spec fn decode(value: usize) -> BiGram<char> {
        [((value >> 32usize) as u32) as char, (value as u32) as char]
    }

    fn into_usize(self) -> (r: usize) {
        (self[0] as usize) << 32usize | self[1] as usize
    }

    fn from_usize(value: usize) -> (r: Self) {
        [char::from_usize(value >> 32usize), char::from_usize(value)]
    }

    proof fn lemma_roundtrip(x: Self) {
        lemma_char_code(x[0]);
        lemma_char_code(x[1]);
        let a = x[0] as usize;
        let b = x[1] as usize;
        assert((a << 32usize | b) >> 32usize == a && (a << 32usize | b) as u32 == b as u32)
            by (bit_vector)
            requires
                usize::BITS == 64,
                a <= 0x10FFFF,
                b <= 0x10FFFF,
        ;
        assert(Self::decode(x.code())@ =~= x@);
    }
}

impl IntoUsize for MonoGram<u8> {
    open spec fn encodable(self) -> bool {
        true
    }

    open spec fn code(self) -> usize {
        self[0] as usize
    }

    open spec fn decodable(value: usize) -> bool {
        true
    }

    open spec fn decode(value: usize) -> MonoGram<u8> {
        [value as u8]
    }

    fn into_usize(self) -> (r: usize) {
        self[0] as usize
    }

    fn from_usize(value: usize) -> (r: Self) {
        [value as u8]
    }

    proof fn lemma_roundtrip(x: Self) {
        let a0 = x[0];
        assert((a0 as usize) as u8 == a0) by (bit_vector);
        assert(Self::decode(x.code())@ =~= x@);
    }
}

impl IntoUsize for BiGram<u8> {
    open spec fn encodable(self) -> bool {
        true
    }

    open spec fn code(self) -> usize {
        (self[0] as usize) << 8usize | self[1] as usize
    }

    open spec fn decodable(value: usize) -> bool {
        true
    }

    open spec fn decode(value: usize) -> BiGram<u8> {
        [(value >> 8usize) as u8, value as u8]
    }

    fn into_usize(self) -> (r: usize) {
        (self[0] as usize) << 8usize | self[1] as usize
    }

    fn from_usize(value: usize) -> (r: Self) {
        [(value >> 8usize) as u8, value as u8]
    }

    proof fn lemma_roundtrip(x: Self) {
        let a0 = x[0];
        let a1 = x[1];
        assert((((a0 as usize) << 8usize | a1 as usize) >> 8usize) as u8 == a0 && ((a0 as usize) << 8usize | a1 as usize) as u8 == a1) by (bit_vector);
        assert(Self::decode(x.code())@ =~= x@);
    }
}

impl IntoUsize for TriGram<u8> {
    open spec fn encodable(self) -> bool {
        true
    }

    open spec fn code(self) -> usize {
        (self[0] as usize) << 16usize | (self[1] as usize) << 8usize | self[2] as usize
    }

    open spec fn decodable(value: usize) -> bool {
        true
    }

    open spec fn decode(value: usize) -> TriGram<u8> {
        [(value >> 16usize) as u8, (value >> 8usize) as u8, value as u8]
    }

    fn into_usize(self) -> (r: usize) {
        (self[0] as usize) << 16usize | (self[1] as usize) << 8usize | self[2] as usize
    }

    fn from_usize(value: usize) -> (r: Self) {
        [(value >> 16usize) as u8, (value >> 8usize) as u8, value as u8]
    }

    proof fn lemma_roundtrip(x: Self) {
        let a0 = x[0];
        let a1 = x[1];
        let a2 = x[2];
        assert((((a0 as usize) << 16usize | (a1 as usize) << 8usize | a2 as usize) >> 16usize) as u8 == a0 && (((a0 as usize) << 16usize | (a1 as usize) << 8usize | a2 as usize) >> 8usize) as u8 == a1 && ((a0 as usize) << 16usize | (a1 as usize) << 8usize | a2 as usize) as u8 == a2) by (bit_vector);
        assert(Self::decode(x.code())@ =~= x@);
    }
}

impl IntoUsize for TetraGram<u8> {
    open spec fn encodable(self) -> bool {
        true
    }

    open spec fn code(self) -> usize {
        (self[0] as usize) << 24usize | (self[1] as usize) << 16usize | (self[2] as usize) << 8usize | self[3] as usize
    }

    open spec fn decodable(value: usize) -> bool {
        true
    }

    open spec fn decode(value: usize) -> TetraGram<u8> {
        [(value >> 24usize) as u8, (value >> 16usize) as u8, (value >> 8usize) as u8, value as u8]
    }

    fn into_usize(self) -> (r: usize) {
        (self[0] as usize) << 24usize | (self[1] as usize) << 16usize | (self[2] as usize) << 8usize | self[3] as usize
    }

    fn from_usize(value: usize) -> (r: Self) {
        [(value >> 24usize) as u8, (value >> 16usize) as u8, (value >> 8usize) as u8, value as u8]
    }

    proof fn lemma_roundtrip(x: Self) {
        let a0 = x[0];
        let a1 = x[1];
        let a2 = x[2];
        let a3 = x[3];
        assert((((a0 as usize) << 24usize | (a1 as usize) << 16usize | (a2 as usize) << 8usize | a3 as usize) >> 24usize) as u8 == a0 && (((a0 as usize) << 24usize | (a1 as usize) << 16usize | (a2 as usize) << 8usize | a3 as usize) >> 16usize) as u8 == a1 && (((a0 as usize) << 24usize | (a1 as usize) << 16usize | (a2 as usize) << 8usize | a3 as usize) >> 8usize) as u8 == a2 && ((a0 as usize) << 24usize | (a1 as usize) << 16usize | (a2 as usize) << 8usize | a3 as usize) as u8 == a3) by (bit_vector);
        assert(Self::decode(x.code())@ =~= x@);
    }
}

impl IntoUsize for PentaGram<u8> {
    open spec fn encodable(self) -> bool {
        usize::BITS == 64
    }

    open spec fn code(self) -> usize {
        (self[0] as usize) << 32usize | (self[1] as usize) << 24usize | (self[2] as usize) << 16usize | (self[3] as usize) << 8usize | self[4] as usize
    }

    open spec fn decodable(value: usize) -> bool {
        usize::BITS == 64
    }

    open spec fn decode(value: usize) -> PentaGram<u8> {
        [(value >> 32usize) as u8, (value >> 24usize) as u8, (value >> 16usize) as u8, (value >> 8usize) as u8, value as u8]
    }

    fn into_usize(self) -> (r: usize) {
        (self[0] as usize) << 32usize | (self[1] as usize) << 24usize | (self[2] as usize) << 16usize | (self[3] as usize) << 8usize | self[4] as usize
    }

    fn from_usize(value: usize) -> (r: Self) {
        [(value >> 32usize) as u8, (value >> 24usize) as u8, (value >> 16usize) as u8, (value >> 8usize) as u8, value as u8]
    }

    proof fn lemma_roundtrip(x: Self) {
        let a0 = x[0];
        let a1 = x[1];
        let a2 = x[2];
        let a3 = x[3];
        let a4 = x[4];
        assert((((a0 as usize) << 32usize | (a1 as usize) << 24usize | (a2 as usize) << 16usize | (a3 as usize) << 8usize | a4 as usize) >> 32usize) as u8 == a0 && (((a0 as usize) << 32usize | (a1 as usize) << 24usize | (a2 as usize) << 16usize | (a3 as usize) << 8usize | a4 as usize) >> 24usize) as u8 == a1 && (((a0 as usize) << 32usize | (a1 as usize) << 24usize | (a2 as usize) << 16usize | (a3 as usize) << 8usize | a4 as usize) >> 16usize) as u8 == a2 && (((a0 as usize) << 32usize | (a1 as usize) << 24usize | (a2 as usize) << 16usize | (a3 as usize) << 8usize | a4 as usize) >> 8usize) as u8 == a3 && ((a0 as usize) << 32usize | (a1 as usize) << 24usize | (a2 as usize) << 16usize | (a3 as usize) << 8usize | a4 as usize) as u8 == a4) by (bit_vector)
            requires
                usize::BITS == 64,
        ;
        assert(Self::decode(x.code())@ =~= x@);
    }
}

impl IntoUsize for HexaGram<u8> {
    open spec fn encodable(self) -> bool {
        usize::BITS == 64
    }

    open spec fn code(self) -> usize {
        (self[0] as usize) << 40usize | (self[1] as usize) << 32usize | (self[2] as usize) << 24usize | (self[3] as usize) << 16usize | (self[4] as usize) << 8usize | self[5] as usize
    }

    open spec fn decodable(value: usize) -> bool {
        usize::BITS == 64
    }

    open spec fn decode(value: usize) -> HexaGram<u8> {
        [(value >> 40usize) as u8, (value >> 32usize) as u8, (value >> 24usize) as u8, (value >> 16usize) as u8, (value >> 8usize) as u8, value as u8]
    }

    fn into_usize(self) -> (r: usize) {
        (self[0] as usize) << 40usize | (self[1] as usize) << 32usize | (self[2] as usize) << 24usize | (self[3] as usize) << 16usize | (self[4] as usize) << 8usize | self[5] as usize
    }

    fn from_usize(value: usize) -> (r: Self) {
        [(value >> 40usize) as u8, (value >> 32usize) as u8, (value >> 24usize) as u8, (value >> 16usize) as u8, (value >> 8usize) as u8, value as u8]
    }

    proof fn lemma_roundtrip(x: Self) {
        let a0 = x[0];
        let a1 = x[1];
        let a2 = x[2];
        let a3 = x[3];
        let a4 = x[4];
        let a5 = x[5];
        assert((((a0 as usize) << 40usize | (a1 as usize) << 32usize | (a2 as usize) << 24usize | (a3 as usize) << 16usize | (a4 as usize) << 8usize | a5 as usize) >> 40usize) as u8 == a0 && (((a0 as usize) << 40usize | (a1 as usize) << 32usize | (a2 as usize) << 24usize | (a3 as usize) << 16usize | (a4 as usize) << 8usize | a5 as usize) >> 32usize) as u8 == a1 && (((a0 as usize) << 40usize | (a1 as usize) << 32usize | (a2 as usize) << 24usize | (a3 as usize) << 16usize | (a4 as usize) << 8usize | a5 as usize) >> 24usize) as u8 == a2 && (((a0 as usize) << 40usize | (a1 as usize) << 32usize | (a2 as usize) << 24usize | (a3 as usize) << 16usize | (a4 as usize) << 8usize | a5 as usize) >> 16usize) as u8 == a3 && (((a0 as usize) << 40usize | (a1 as usize) << 32usize | (a2 as usize) << 24usize | (a3 as usize) << 16usize | (a4 as usize) << 8usize | a5 as usize) >> 8usize) as u8 == a4 && ((a0 as usize) << 40usize | (a1 as usize) << 32usize | (a2 as usize) << 24usize | (a3 as usize) << 16usize | (a4 as usize) << 8usize | a5 as usize) as u8 == a5) by (bit_vector)
            requires
                usize::BITS == 64,
        ;
        assert(Self::decode(x.code())@ =~= x@);
    }
}

impl IntoUsize for HeptaGram<u8> {
    open spec fn encodable(self) -> bool {
        usize::BITS == 64
    }

    open spec fn code(self) -> usize {
        (self[0] as usize) << 48usize | (self[1] as usize) << 40usize | (self[2] as usize) << 32usize | (self[3] as usize) << 24usize | (self[4] as usize) << 16usize | (self[5] as usize) << 8usize | self[6] as usize
    }

    open spec fn decodable(value: usize) -> bool {
        usize::BITS == 64
    }

    open spec fn decode(value: usize) -> HeptaGram<u8> {
        [(value >> 48usize) as u8, (value >> 40usize) as u8, (value >> 32usize) as u8, (value >> 24usize) as u8, (value >> 16usize) as u8, (value >> 8usize) as u8, value as u8]
    }

    fn into_usize(self) -> (r: usize) {
        (self[0] as usize) << 48usize | (self[1] as usize) << 40usize | (self[2] as usize) << 32usize | (self[3] as usize) << 24usize | (self[4] as usize) << 16usize | (self[5] as usize) << 8usize | self[6] as usize
    }

    fn from_usize(value: usize) -> (r: Self) {
        [(value >> 48usize) as u8, (value >> 40usize) as u8, (value >> 32usize) as u8, (value >> 24usize) as u8, (value >> 16usize) as u8, (value >> 8usize) as u8, value as u8]
    }

    proof fn lemma_roundtrip(x: Self) {
        let a0 = x[0];
        let a1 = x[1];
        let a2 = x[2];
        let a3 = x[3];
        let a4 = x[4];
        let a5 = x[5];
        let a6 = x[6];
        assert((((a0 as usize) << 48usize | (a1 as usize) << 40usize | (a2 as usize) << 32usize | (a3 as usize) << 24usize | (a4 as usize) << 16usize | (a5 as usize) << 8usize | a6 as usize) >> 48usize) as u8 == a0 && (((a0 as usize) << 48usize | (a1 as usize) << 40usize | (a2 as usize) << 32usize | (a3 as usize) << 24usize | (a4 as usize) << 16usize | (a5 as usize) << 8usize | a6 as usize) >> 40usize) as u8 == a1 && (((a0 as usize) << 48usize | (a1 as usize) << 40usize | (a2 as usize) << 32usize | (a3 as usize) << 24usize | (a4 as usize) << 16usize | (a5 as usize) << 8usize | a6 as usize) >> 32usize) as u8 == a2 && (((a0 as usize) << 48usize | (a1 as usize) << 40usize | (a2 as usize) << 32usize | (a3 as usize) << 24usize | (a4 as usize) << 16usize | (a5 as usize) << 8usize | a6 as usize) >> 24usize) as u8 == a3 && (((a0 as usize) << 48usize | (a1 as usize) << 40usize | (a2 as usize) << 32usize | (a3 as usize) << 24usize | (a4 as usize) << 16usize | (a5 as usize) << 8usize | a6 as usize) >> 16usize) as u8 == a4 && (((a0 as usize) << 48usize | (a1 as usize) << 40usize | (a2 as usize) << 32usize | (a3 as usize) << 24usize | (a4 as usize) << 16usize | (a5 as usize) << 8usize | a6 as usize) >> 8usize) as u8 == a5 && ((a0 as usize) << 48usize | (a1 as usize) << 40usize | (a2 as usize) << 32usize | (a3 as usize) << 24usize | (a4 as usize) << 16usize | (a5 as usize) << 8usize | a6 as usize) as u8 == a6) by (bit_vector)
            requires
                usize::BITS == 64,
        ;
        assert(Self::decode(x.code())@ =~= x@);
    }
}

impl IntoUsize for OctaGram<u8> {
    open spec fn encodable(self) -> bool {
        usize::BITS == 64
    }

    open spec fn code(self) -> usize {
        (self[0] as usize) << 56usize | (self[1] as usize) << 48usize | (self[2] as usize) << 40usize | (self[3] as usize) << 32usize | (self[4] as usize) << 24usize | (self[5] as usize) << 16usize | (self[6] as usize) << 8usize | self[7] as usize
    }

    open spec fn decodable(value: usize) -> bool {
        usize::BITS == 64
    }

    open spec fn decode(value: usize) -> OctaGram<u8> {
        [(value >> 56usize) as u8, (value >> 48usize) as u8, (value >> 40usize) as u8, (value >> 32usize) as u8, (value >> 24usize) as u8, (value >> 16usize) as u8, (value >> 8usize) as u8, value as u8]
    }

    fn into_usize(self) -> (r: usize) {
        (self[0] as usize) << 56usize | (self[1] as usize) << 48usize | (self[2] as usize) << 40usize | (self[3] as usize) << 32usize | (self[4] as usize) << 24usize | (self[5] as usize) << 16usize | (self[6] as usize) << 8usize | self[7] as usize
    }

    fn from_usize(value: usize) -> (r: Self) {
        [(value >> 56usize) as u8, (value >> 48usize) as u8, (value >> 40usize) as u8, (value >> 32usize) as u8, (value >> 24usize) as u8, (value >> 16usize) as u8, (value >> 8usize) as u8, value as u8]
    }

    proof fn lemma_roundtrip(x: Self) {
        let a0 = x[0];
        let a1 = x[1];
        let a2 = x[2];
        let a3 = x[3];
        let a4 = x[4];
        let a5 = x[5];
        let a6 = x[6];
        let a7 = x[7];
        assert((((a0 as usize) << 56usize | (a1 as usize) << 48usize | (a2 as usize) << 40usize | (a3 as usize) << 32usize | (a4 as usize) << 24usize | (a5 as usize) << 16usize | (a6 as usize) << 8usize | a7 as usize) >> 56usize) as u8 == a0 && (((a0 as usize) << 56usize | (a1 as usize) << 48usize | (a2 as usize) << 40usize | (a3 as usize) << 32usize | (a4 as usize) << 24usize | (a5 as usize) << 16usize | (a6 as usize) << 8usize | a7 as usize) >> 48usize) as u8 == a1 && (((a0 as usize) << 56usize | (a1 as usize) << 48usize | (a2 as usize) << 40usize | (a3 as usize) << 32usize | (a4 as usize) << 24usize | (a5 as usize) << 16usize | (a6 as usize) << 8usize | a7 as usize) >> 40usize) as u8 == a2 && (((a0 as usize) << 56usize | (a1 as usize) << 48usize | (a2 as usize) << 40usize | (a3 as usize) << 32usize | (a4 as usize) << 24usize | (a5 as usize) << 16usize | (a6 as usize) << 8usize | a7 as usize) >> 32usize) as u8 == a3 && (((a0 as usize) << 56usize | (a1 as usize) << 48usize | (a2 as usize) << 40usize | (a3 as usize) << 32usize | (a4 as usize) << 24usize | (a5 as usize) << 16usize | (a6 as usize) << 8usize | a7 as usize) >> 24usize) as u8 == a4 && (((a0 as usize) << 56usize | (a1 as usize) << 48usize | (a2 as usize) << 40usize | (a3 as usize) << 32usize | (a4 as usize) << 24usize | (a5 as usize) << 16usize | (a6 as usize) << 8usize | a7 as usize) >> 16usize) as u8 == a5 && (((a0 as usize) << 56usize | (a1 as usize) << 48usize | (a2 as usize) << 40usize | (a3 as usize) << 32usize | (a4 as usize) << 24usize | (a5 as usize) << 16usize | (a6 as usize) << 8usize | a7 as usize) >> 8usize) as u8 == a6 && ((a0 as usize) << 56usize | (a1 as usize) << 48usize | (a2 as usize) << 40usize | (a3 as usize) << 32usize | (a4 as usize) << 24usize | (a5 as usize) << 16usize | (a6 as usize) << 8usize | a7 as usize) as u8 == a7) by (bit_vector)
            requires
                usize::BITS == 64,
        ;
        assert(Self::decode(x.code())@ =~= x@);
    }
}

} // verus!
