use ngrammatic::warp::integer_warp;
use ngrammatic::char_like::CharLike;
use ngrammatic::char_normalizer::{alphanumeric, dedup_spaces, lower, Alphanumeric, Lowercase, SpaceNormalizer};
use ngrammatic::key_transformers::{Identity, KeyTransformer, Linked, Lower, PadBoth, Trim};
use ngrammatic::offsettable::{Offset, Offsettable};
use ngrammatic::report::CorpusReport;
use ngrammatic::underscored::Underscored;

#[test]
fn underscored_integers() {
    assert_eq!(0u8.underscored(), "0");
    assert_eq!(999u16.underscored(), "999");
    assert_eq!(1000u32.underscored(), "1_000");
    assert_eq!(1234567u64.underscored(), "1_234_567");
    assert_eq!(12345usize.underscored(), "12_345");
    assert_eq!(u128::MAX.underscored(), "340_282_366_920_938_463_463_374_607_431_768_211_455");
    assert_eq!((-1234i32).underscored(), "-1_234");
    assert_eq!((-123i16).underscored(), "-_123");
    assert_eq!(i8::MIN.underscored(), "-_128");
    assert_eq!(i64::MIN.underscored(), "-9_223_372_036_854_775_808");
    assert_eq!(i128::MIN.underscored(), "-_170_141_183_460_469_231_731_687_303_715_884_105_728");
    assert_eq!((-7isize).underscored(), "-7");
}

#[test]
fn report_text() {
    let report = CorpusReport { number_of_keys: 699, number_of_grams: 2534, number_of_edges: 18080 };
    assert_eq!(
        report.to_string(),
        "# Corpus Report\n* Number of keys: 699\n* Number of grams: 2_534\n* Number of edges: 18_080\n"
    );
}

#[test]
fn linked_transformers() {
    let t = Identity.lower();
    assert_eq!(t.transform("AbC"), "abc");
    let padded = Linked::new(Lower, PadBoth::new("-"));
    assert_eq!(padded.transform("Ab"), "-ab-");
    assert_eq!(PadBoth::new("-").transform("ab"), "-ab-");
}

#[test]
fn char_like_ascii() {
    assert_eq!(CharLike::to_lowercase('A'), 'a');
    assert_eq!(CharLike::to_uppercase('z'), 'Z');
    assert_eq!(CharLike::to_lowercase('É'), 'É');
    assert_eq!(CharLike::to_lowercase(b'Q'), b'q');
    assert_eq!(CharLike::to_uppercase(b'q'), b'Q');
    assert!(b'\t'.is_space_like());
    assert!(!b'\x0b'.is_space_like());
    assert!(CharLike::is_space_like(' '));
    // The White_Space characters beyond ASCII count too; a zero width space
    // does not.
    assert!(CharLike::is_space_like('\u{85}'));
    assert!(CharLike::is_space_like('\u{3000}'));
    assert!(!CharLike::is_space_like('\u{200B}'));
    assert!(CharLike::is_alphanumeric('7'));
    assert!(!CharLike::is_alphanumeric(b'-'));
    assert!('\0'.is_nul());
    assert!(!b'0'.is_nul());
}

#[test]
fn normalizers() {
    let spaced: Vec<char> = "a  b   c g g ".chars().collect();
    let deduped: String = dedup_spaces(&spaced).into_iter().collect();
    assert_eq!(deduped, "a b c g g ");
    let bytes: Vec<u8> = "a  b   c g g ".bytes().collect();
    assert_eq!(
        dedup_spaces(&bytes),
        vec![b'a', b' ', b'b', b' ', b'c', b' ', b'g', b' ', b'g', b' ']
    );
    let mixed: Vec<char> = "a-b!c".chars().collect();
    let cleaned: String = alphanumeric(&mixed).into_iter().collect();
    assert_eq!(cleaned, "a b c");
    let wrapped = Alphanumeric::new(vec![1u8]);
    assert_eq!(wrapped.inner(), &vec![1u8]);
    let mut normalizer = SpaceNormalizer::new(());
    assert!(normalizer.accepts(' '));
    assert!(!normalizer.accepts(' '));
    assert!(normalizer.accepts('x'));
}

#[test]
fn offsets() {
    let offset = Offset::new(3, vec![1usize, 2].into_iter());
    assert_eq!(offset.shift(4), 7);
    let back = vec![5usize].into_iter().offset(-2);
    assert_eq!(back.shift(5), 3);
}

#[test]
fn trim_key_transformer() {
    assert_eq!(Trim.transform("  Cat \t\n"), "Cat");
    assert_eq!(Trim.transform(" a b "), "a b");
    assert_eq!(Trim.transform("   "), "");
    let linked = Trim.link(Lower);
    assert_eq!(linked.transform("  CaT "), "cat");
}

#[test]
fn lowercase_characters() {
    let s: Vec<char> = "CaT 9!".chars().collect();
    assert_eq!(lower(&s), "cat 9!".chars().collect::<Vec<_>>());
    let bytes = b"AbZ".to_vec();
    assert_eq!(lower(&bytes), b"abz".to_vec());
    let wrapped = Lowercase::new(7u8);
    assert_eq!(*wrapped.inner(), 7u8);
}

#[test]
fn integer_warps_lie_between_one_and_three() {
    assert_eq!(integer_warp(1), Ok(1));
    assert_eq!(integer_warp(3), Ok(3));
    assert_eq!(integer_warp(0), Err("Warp factor must be in the range 1 to 3"));
    assert!(integer_warp(4).is_err());
}
