use ngrammatic::gram::{BiGram, HeptaGram, HexaGram, MonoGram, OctaGram, PentaGram, TetraGram, TriGram};
use ngrammatic::into_usize::IntoUsize;

#[test]
fn test_u8() {
    let value = 42_u8;
    let converted = value.into_usize();
    let expected = 42;
    assert_eq!(converted, expected);
    let value = 42;
    let converted = u8::from_usize(value);
    let expected = 42_u8;
    assert_eq!(converted, expected);
}

#[test]
fn test_char() {
    let value = 'a';
    let converted = value.into_usize();
    let expected = 97;
    assert_eq!(converted, expected);
    let value = 97;
    let converted = char::from_usize(value);
    let expected = 'a';
    assert_eq!(converted, expected);
}

#[test]
fn test_monogram_u8() {
    let value = [42_u8];
    let converted = value.into_usize();
    let expected = 42;
    assert_eq!(converted, expected);
    let value = 42;
    let converted = MonoGram::<u8>::from_usize(value);
    let expected = [42_u8];
    assert_eq!(converted, expected);
}

#[test]
fn test_monogram_char() {
    let value = ['a'];
    let converted = value.into_usize();
    let expected = 97;
    assert_eq!(converted, expected);
    let value = 97;
    let converted = MonoGram::<char>::from_usize(value);
    let expected = ['a'];
    assert_eq!(converted, expected);
}

#[test]
fn test_bigram_u8() {
    let value = [42_u8, 43_u8];
    let converted = value.into_usize();
    let expected = 42 << 8 | 43;
    assert_eq!(converted, expected);
    let value = 42 << 8 | 43;
    let converted = BiGram::<u8>::from_usize(value);
    let expected = [42_u8, 43_u8];
    assert_eq!(converted, expected);
}

#[test]
fn test_bigram_char() {
    let value = ['a', 'b'];
    let converted = value.into_usize();
    let expected = 97 << 32 | 98;
    assert_eq!(converted, expected);
    let value = 97 << 32 | 98;
    let converted = BiGram::<char>::from_usize(value);
    let expected = ['a', 'b'];
    assert_eq!(converted, expected);
}

#[test]
fn test_trigram_u8() {
    let value = [42_u8, 43_u8, 44_u8];
    let converted = value.into_usize();
    let expected = 42 << 16 | 43 << 8 | 44;
    assert_eq!(converted, expected);
    let value = 42 << 16 | 43 << 8 | 44;
    let converted = TriGram::<u8>::from_usize(value);
    let expected = [42_u8, 43_u8, 44_u8];
    assert_eq!(converted, expected);
}

#[test]
fn test_tetragram_u8() {
    let value = [42_u8, 43_u8, 44_u8, 45_u8];
    let converted = value.into_usize();
    let expected = 42 << 24 | 43 << 16 | 44 << 8 | 45;
    assert_eq!(converted, expected);
    let value = 42 << 24 | 43 << 16 | 44 << 8 | 45;
    let converted = TetraGram::<u8>::from_usize(value);
    let expected = [42_u8, 43_u8, 44_u8, 45_u8];
    assert_eq!(converted, expected);
}

#[test]
fn test_pentagram_u8() {
    let value = [42_u8, 43_u8, 44_u8, 45_u8, 46_u8];
    let converted = value.into_usize();
    let expected = 42 << 32 | 43 << 24 | 44 << 16 | 45 << 8 | 46;
    assert_eq!(converted, expected);
    let value = 42 << 32 | 43 << 24 | 44 << 16 | 45 << 8 | 46;
    let converted = PentaGram::<u8>::from_usize(value);
    let expected = [42_u8, 43_u8, 44_u8, 45_u8, 46_u8];
    assert_eq!(converted, expected);
}

#[test]
fn test_hexagram_u8() {
    let value = [42_u8, 43_u8, 44_u8, 45_u8, 46_u8, 47_u8];
    let converted = value.into_usize();
    let expected = 42 << 40 | 43 << 32 | 44 << 24 | 45 << 16 | 46 << 8 | 47;
    assert_eq!(converted, expected);
    let value = 42 << 40 | 43 << 32 | 44 << 24 | 45 << 16 | 46 << 8 | 47;
    let converted = HexaGram::<u8>::from_usize(value);
    let expected = [42_u8, 43_u8, 44_u8, 45_u8, 46_u8, 47_u8];
    assert_eq!(converted, expected);
}

#[test]
fn test_heptagram_u8() {
    let value = [42_u8, 43_u8, 44_u8, 45_u8, 46_u8, 47_u8, 48_u8];
    let converted = value.into_usize();
    let expected = 42 << 48 | 43 << 40 | 44 << 32 | 45 << 24 | 46 << 16 | 47 << 8 | 48;
    assert_eq!(converted, expected);
    let value = 42 << 48 | 43 << 40 | 44 << 32 | 45 << 24 | 46 << 16 | 47 << 8 | 48;
    let converted = HeptaGram::<u8>::from_usize(value);
    let expected = [42_u8, 43_u8, 44_u8, 45_u8, 46_u8, 47_u8, 48_u8];
    assert_eq!(converted, expected);
}

#[test]
fn test_octagram_u8() {
    let value = [42_u8, 43_u8, 44_u8, 45_u8, 46_u8, 47_u8, 48_u8, 49_u8];
    let converted = value.into_usize();
    let expected =
        42 << 56 | 43 << 48 | 44 << 40 | 45 << 32 | 46 << 24 | 47 << 16 | 48 << 8 | 49;
    assert_eq!(converted, expected);
    let value = 42 << 56 | 43 << 48 | 44 << 40 | 45 << 32 | 46 << 24 | 47 << 16 | 48 << 8 | 49;
    let converted = OctaGram::<u8>::from_usize(value);
    let expected = [42_u8, 43_u8, 44_u8, 45_u8, 46_u8, 47_u8, 48_u8, 49_u8];
    assert_eq!(converted, expected);
}
