use ngrammatic::ngram::NgramBuilder;
use ngrammatic::{IdentityKeyTransformer, LinkedKeyTransformer, LowerKeyTransformer, Pad};

#[test]
fn arity_clamp_empty_string_nopad() {
    let ngram = NgramBuilder::new("").arity(1).pad_full(Pad::NoPad).finish();
    assert!(ngram.is_empty());
}

#[test]
fn arity_clamp_empty_string_padded() {
    let ngram = NgramBuilder::new("")
        .arity(2)
        .pad_left(Pad::Pad("--".to_string()))
        .pad_right(Pad::Pad("++".to_string()))
        .finish();
    assert!(ngram.contains("--"));
    assert!(ngram.contains("-+"));
    assert!(ngram.contains("++"));
}

#[test]
fn empty_string_nopad() {
    let ngram = NgramBuilder::new("").arity(2).pad_full(Pad::NoPad).finish();
    assert!(ngram.is_empty());
}

#[test]
fn empty_string_autopad() {
    let ngram = NgramBuilder::new("").arity(2).finish();
    assert!(ngram.contains("  "));
}

#[test]
fn empty_string_strpad() {
    let ngram = NgramBuilder::new("")
        .arity(2)
        .pad_left(Pad::Pad("--".to_string()))
        .pad_right(Pad::Pad("++".to_string()))
        .finish();
    assert!(ngram.contains("--"));
    assert!(ngram.contains("-+"));
    assert!(ngram.contains("++"));
}

#[test]
fn ngram_short_string_nopad() {
    let ngram = NgramBuilder::new("ab")
        .arity(2)
        .pad_full(Pad::NoPad)
        .finish();
    assert!(ngram.contains("ab"));
}

#[test]
fn ngram_short_string_autopad() {
    let ngram = NgramBuilder::new("ab").arity(2).finish();
    assert!(ngram.contains(" a"));
    assert!(ngram.contains("ab"));
    assert!(ngram.contains("b "));
}

#[test]
fn ngram_short_string_strpad() {
    let ngram = NgramBuilder::new("ab")
        .arity(2)
        .pad_left(Pad::Pad("--".to_string()))
        .pad_right(Pad::Pad("++".to_string()))
        .finish();
    assert!(ngram.contains("--"));
    assert!(ngram.contains("-a"));
    assert!(ngram.contains("ab"));
    assert!(ngram.contains("b+"));
    assert!(ngram.contains("++"));
}

#[test]
fn gram_counts_of_a_padded_word() {
    let ngram = NgramBuilder::new("abab").arity(2).pad_full(Pad::NoPad).finish();
    assert_eq!(ngram.count_gram("ab"), 2);
    assert_eq!(ngram.count_gram("ba"), 1);
    assert_eq!(ngram.count_gram("zz"), 0);
    assert_eq!(ngram.count_grams(), 3);
}

#[test]
fn shared_and_total_grams() {
    let a = NgramBuilder::new("ab").arity(2).finish();
    let b = NgramBuilder::new("ab").arity(2).finish();
    let c = NgramBuilder::new("cd").arity(2).finish();
    // " a", "ab", "b " are shared with an identical word.
    assert_eq!(a.count_samegrams(&b), 3);
    assert_eq!(a.count_allgrams(&b), 3);
    assert_eq!(a.count_diffgrams(&b), 0);
    // Nothing is shared with a word of other letters.
    assert_eq!(a.count_samegrams(&c), 0);
    assert_eq!(a.count_allgrams(&c), 6);
    assert_eq!(a.count_diffgrams(&c), 6);
}

#[test]
fn too_short_for_the_arity() {
    let a = NgramBuilder::new("ab").arity(5).pad_full(Pad::NoPad).finish();
    let b = NgramBuilder::new("abcdef").arity(5).pad_full(Pad::NoPad).finish();
    assert!(a.is_empty());
    assert_eq!(a.count_allgrams(&b), 0);
}

#[test]
fn ngrammatic_tests_short_string_nopad() {
    let ngram = NgramBuilder::new("ab").arity(2).finish();
    assert!(ngram.contains("ab"));
}

#[test]
fn ngrammatic_tests_short_string_autopad() {
    let ngram = NgramBuilder::new("ab").arity(2).finish();
    assert!(ngram.contains(" a"));
    assert!(ngram.contains("ab"));
    assert!(ngram.contains("b "));
}

#[test]
fn ngrammatic_tests_short_string_strpad() {
    let ngram = NgramBuilder::new("ab")
        .arity(2)
        .pad_left(Pad::Pad("--".to_string()))
        .pad_right(Pad::Pad("++".to_string()))
        .finish();
    assert!(ngram.contains("--"));
    assert!(ngram.contains("-a"));
    assert!(ngram.contains("ab"));
    assert!(ngram.contains("b+"));
    assert!(ngram.contains("++"));
}

#[test]
fn builder_settings_come_back() {
    let (text, arity, left, right) = NgramBuilder::new("ab").arity(3).pad_left(Pad::NoPad).into_parts();
    assert_eq!(text, "ab");
    assert_eq!(arity, 3);
    assert!(matches!(left, Pad::NoPad));
    assert!(matches!(right, Pad::Auto));
    let (_, clamped, _, _) = NgramBuilder::new("ab").arity(0).into_parts();
    assert_eq!(clamped, 1);
}

#[test]
fn linked_transformers_come_back() {
    let linked = LinkedKeyTransformer::new(IdentityKeyTransformer, LowerKeyTransformer);
    let (src, dst) = linked.into_parts();
    assert_eq!(src, IdentityKeyTransformer);
    assert_eq!(dst, LowerKeyTransformer);
}
