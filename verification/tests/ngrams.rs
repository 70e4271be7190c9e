use ngrammatic::ngrams::Ngram;
use ngrammatic::trigram_similarity::contains_any;

#[test]
fn ngram_from_bytes_is_sorted() {
    let ngram = Ngram::from_bytes(b"abab", 2);
    // Windows "ab", "ba", "ab".
    assert_eq!(ngram.iter_grams(), vec![97 * 256 + 98, 98 * 256 + 97]);
    assert_eq!(ngram.number_of_grams(), 3);
    let short = Ngram::from_bytes(b"a", 2);
    assert_eq!(short.number_of_grams(), 0);
}

#[test]
fn shared_grams_between_ngrams() {
    let a = Ngram::from_bytes(b"abab", 2);
    let b = Ngram::from_bytes(b"abc", 2);
    assert_eq!(a.number_of_shared_grams(&b), 1);
    assert_eq!(a.number_of_shared_grams(&a), 3);
    let c = Ngram::from_counts(vec![(5, 2), (1, 1)]);
    assert_eq!(c.iter_grams(), vec![1, 5]);
}

#[test]
fn any_gram_in_common() {
    let a = Ngram::from_bytes(b"abab", 2);
    assert!(a.contains_any_grams(&[1, 97 * 256 + 98]));
    assert!(!a.contains_any_grams(&[1, 2, 3]));
    assert!(contains_any(&[1, 4, 9], &[2, 3, 9]));
    assert!(!contains_any(&[1, 4, 9], &[]));
}
