use ngrammatic::ascii_char::ASCIIChar;
use ngrammatic::gram::{BiGram, HeptaGram, HexaGram, MonoGram, OctaGram, PentaGram, TetraGram, TriGram};
use ngrammatic::into_usize::IntoUsize;

#[test]
fn test_ascii_char() {
    let value = ASCIIChar::from(42_u8);
    let converted = value.into_usize();
    let expected = 42;
    assert_eq!(converted, expected);
    let value = 42;
    let converted = ASCIIChar::from_usize(value);
    let expected = ASCIIChar::from(42_u8);
    assert_eq!(converted, expected);
}

#[test]
fn test_monogram_ascii_char() {
    let value = [ASCIIChar::from(42_u8)];
    let converted = value.into_usize();
    let expected = 42;
    assert_eq!(converted, expected);
    let value = 42;
    let converted = MonoGram::<ASCIIChar>::from_usize(value);
    let expected = [ASCIIChar::from(42_u8)];
    assert_eq!(converted, expected);
}

#[test]
fn test_bigram_ascii_char() {
    let value = [ASCIIChar::from(42_u8), ASCIIChar::from(43_u8)];
    let converted = value.into_usize();
    let expected = 42 << 8 | 43;
    assert_eq!(converted, expected);
    let value = 42 << 8 | 43;
    let converted = BiGram::<ASCIIChar>::from_usize(value);
    let expected = [ASCIIChar::from(42_u8), ASCIIChar::from(43_u8)];
    assert_eq!(converted, expected);
}

#[test]
fn test_trigram_ascii_char() {
    let value = [
        ASCIIChar::from(42_u8),
        ASCIIChar::from(43_u8),
        ASCIIChar::from(44_u8),
    ];
    let converted = value.into_usize();
    let expected = 42 << 16 | 43 << 8 | 44;
    assert_eq!(converted, expected);
    let value = 42 << 16 | 43 << 8 | 44;
    let converted = TriGram::<ASCIIChar>::from_usize(value);
    let expected = [
        ASCIIChar::from(42_u8),
        ASCIIChar::from(43_u8),
        ASCIIChar::from(44_u8),
    ];
    assert_eq!(converted, expected);
}

#[test]
fn test_tetragram_ascii_char() {
    let value = [
        ASCIIChar::from(42_u8),
        ASCIIChar::from(43_u8),
        ASCIIChar::from(44_u8),
        ASCIIChar::from(45_u8),
    ];
    let converted = value.into_usize();
    let expected = 42 << 24 | 43 << 16 | 44 << 8 | 45;
    assert_eq!(converted, expected);
    let value = 42 << 24 | 43 << 16 | 44 << 8 | 45;
    let converted = TetraGram::<ASCIIChar>::from_usize(value);
    let expected = [
        ASCIIChar::from(42_u8),
        ASCIIChar::from(43_u8),
        ASCIIChar::from(44_u8),
        ASCIIChar::from(45_u8),
    ];
    assert_eq!(converted, expected);
}

#[test]
fn test_pentagram_ascii_char() {
    let value = [
        ASCIIChar::from(42_u8),
        ASCIIChar::from(43_u8),
        ASCIIChar::from(44_u8),
        ASCIIChar::from(45_u8),
        ASCIIChar::from(46_u8),
    ];
    let converted = value.into_usize();
    let expected = 42 << 32 | 43 << 24 | 44 << 16 | 45 << 8 | 46;
    assert_eq!(converted, expected);
    let value = 42 << 32 | 43 << 24 | 44 << 16 | 45 << 8 | 46;
    let converted = PentaGram::<ASCIIChar>::from_usize(value);
    let expected = [
        ASCIIChar::from(42_u8),
        ASCIIChar::from(43_u8),
        ASCIIChar::from(44_u8),
        ASCIIChar::from(45_u8),
        ASCIIChar::from(46_u8),
    ];
    assert_eq!(converted, expected);
}

#[test]
fn test_hexagram_ascii_char() {
    let value = [
        ASCIIChar::from(42_u8),
        ASCIIChar::from(43_u8),
        ASCIIChar::from(44_u8),
        ASCIIChar::from(45_u8),
        ASCIIChar::from(46_u8),
        ASCIIChar::from(47_u8),
    ];
    let converted = value.into_usize();
    let expected = 42 << 40 | 43 << 32 | 44 << 24 | 45 << 16 | 46 << 8 | 47;
    assert_eq!(converted, expected);
    let value = 42 << 40 | 43 << 32 | 44 << 24 | 45 << 16 | 46 << 8 | 47;
    let converted = HexaGram::<ASCIIChar>::from_usize(value);
    let expected = [
        ASCIIChar::from(42_u8),
        ASCIIChar::from(43_u8),
        ASCIIChar::from(44_u8),
        ASCIIChar::from(45_u8),
        ASCIIChar::from(46_u8),
        ASCIIChar::from(47_u8),
    ];
    assert_eq!(converted, expected);
}

#[test]
fn test_heptagram_ascii_char() {
    let value = [
        ASCIIChar::from(42_u8),
        ASCIIChar::from(43_u8),
        ASCIIChar::from(44_u8),
        ASCIIChar::from(45_u8),
        ASCIIChar::from(46_u8),
        ASCIIChar::from(47_u8),
        ASCIIChar::from(48_u8),
    ];
    let converted = value.into_usize();
    let expected = 42 << 48 | 43 << 40 | 44 << 32 | 45 << 24 | 46 << 16 | 47 << 8 | 48;
    assert_eq!(converted, expected);
    let value = 42 << 48 | 43 << 40 | 44 << 32 | 45 << 24 | 46 << 16 | 47 << 8 | 48;
    let converted = HeptaGram::<ASCIIChar>::from_usize(value);
    let expected = [
        ASCIIChar::from(42_u8),
        ASCIIChar::from(43_u8),
        ASCIIChar::from(44_u8),
        ASCIIChar::from(45_u8),
        ASCIIChar::from(46_u8),
        ASCIIChar::from(47_u8),
        ASCIIChar::from(48_u8),
    ];
    assert_eq!(converted, expected);
}

#[test]
fn test_octagram_ascii_char() {
    let value = [
        ASCIIChar::from(42_u8),
        ASCIIChar::from(43_u8),
        ASCIIChar::from(44_u8),
        ASCIIChar::from(45_u8),
        ASCIIChar::from(46_u8),
        ASCIIChar::from(47_u8),
        ASCIIChar::from(48_u8),
        ASCIIChar::from(49_u8),
    ];
    let converted = value.into_usize();
    let expected =
        42 << 56 | 43 << 48 | 44 << 40 | 45 << 32 | 46 << 24 | 47 << 16 | 48 << 8 | 49;
    assert_eq!(converted, expected);
    let value = 42 << 56 | 43 << 48 | 44 << 40 | 45 << 32 | 46 << 24 | 47 << 16 | 48 << 8 | 49;
    let converted = OctaGram::<ASCIIChar>::from_usize(value);
    let expected = [
        ASCIIChar::from(42_u8),
        ASCIIChar::from(43_u8),
        ASCIIChar::from(44_u8),
        ASCIIChar::from(45_u8),
        ASCIIChar::from(46_u8),
        ASCIIChar::from(47_u8),
        ASCIIChar::from(48_u8),
        ASCIIChar::from(49_u8),
    ];
    assert_eq!(converted, expected);
}

#[test]
fn ascii_char_operations() {
    let upper = ASCIIChar::from(b'A');
    assert_eq!(upper.to_lowercase(), ASCIIChar::from(b'a'));
    assert_eq!(ASCIIChar::from(b'a').to_uppercase(), upper);
    assert!(ASCIIChar::from(b' ').is_space_like());
    assert!(!ASCIIChar::from(b'a').is_space_like());
    assert!(ASCIIChar::from(b'a').is_alphanumeric());
    assert!(!ASCIIChar::from(b' ').is_alphanumeric());
    assert_eq!(u8::from(upper), b'A');
    assert_eq!(ASCIIChar::try_from_char('c'), Ok(ASCIIChar::from(b'c')));
    assert!(ASCIIChar::try_from_char('Ω').is_err());
    assert_eq!(upper.to_string(), "A");
    let chars: Vec<char> = "ab∂Ωc".chars().collect();
    assert_eq!(
        ngrammatic::ascii_char::ascii(&chars),
        vec![ASCIIChar::from(b'a'), ASCIIChar::from(b'b'), ASCIIChar::from(b'c')]
    );
}
