use ngrammatic::search::{MaxNgramDegree, QueryHashmap};
use ngrammatic::similarity;
use ngrammatic::trigram_similarity::{matching_items, number_of_shared_items};

#[test]
fn test_number_of_shared_items() {
    let left = vec![(1, 1), (2, 1), (3, 1), (4, 1), (5, 1)];
    let right = vec![(1, 1), (3, 1), (5, 1), (7, 1), (9, 1)];

    let (count, other_count) = number_of_shared_items(&left, &right);

    assert_eq!(count, 3);
    assert_eq!(other_count, 5);

    let left = vec![(1, 1), (2, 1), (3, 1), (4, 1), (5, 1)];
    let right = vec![(1, 1), (2, 1), (3, 1), (4, 1), (5, 1)];

    let (count, other_count) = number_of_shared_items(&left, &right);

    assert_eq!(count, 5);
    assert_eq!(other_count, 5);

    let left = vec![(1, 1), (2, 1), (3, 1), (4, 1), (5, 1)];
    let right = vec![(6, 1), (7, 1), (8, 1), (9, 1), (10, 1)];

    let (count, other_count) = number_of_shared_items(&left, &right);

    assert_eq!(count, 0);
    assert_eq!(other_count, 5);
}

#[test]
fn shared_items_take_the_smaller_count() {
    let left = vec![(1, 3), (4, 1), (9, 2)];
    let right = vec![(1, 2), (4, 5), (8, 7)];
    assert_eq!(number_of_shared_items(&left, &right), (3, 14));
    assert_eq!(similarity::number_of_shared_items(&left, &right), 3);
    assert_eq!(similarity::number_of_shared_items(&right, &left), 3);
    assert_eq!(number_of_shared_items(&[], &right), (0, 14));
}

#[test]
fn query_counts() {
    let query = QueryHashmap::new(vec![(1, 2), (3, 1), (7, 4)], 5, 2);
    assert_eq!(query.ngram_ids(), vec![1, 3, 7]);
    assert_eq!(query.ngram_ids_and_counts(), vec![(1, 2), (3, 1), (7, 4)]);
    let identified: usize = query.ngram_ids_and_counts().iter().map(|(_, c)| c).sum();
    assert_eq!(identified, 7);
    // Three identified grams and two unknown ones.
    assert_eq!(query.total_count(), 5);
    assert_eq!(query.total_gram_count(), 12);
}

#[test]
fn self_shared_items_are_all_items() {
    let ngrams = vec![(1, 1), (2, 1), (3, 1), (4, 1), (5, 1)];
    let query = QueryHashmap::new(ngrams.clone(), 0, 0);
    let (shared, other) = number_of_shared_items(&query.ngram_ids_and_counts(), &ngrams);
    assert_eq!(shared, query.total_gram_count());
    assert_eq!(other, query.total_gram_count());
}

#[test]
fn query_from_ngram_counts_sorts_known_and_totals_unknown() {
    // Gram codes 10, 20, 30 are known at indices 0, 1, 2; 25 and 99 are not.
    let ngrams = vec![10, 20, 30];
    let counts = vec![(30, 2), (25, 4), (10, 1), (99, 3), (20, 5)];
    let query = QueryHashmap::from_ngram_counts(&ngrams, counts);
    assert_eq!(query.ngram_ids_and_counts(), vec![(0, 1), (1, 5), (2, 2)]);
    assert_eq!(query.ngram_ids(), vec![0, 1, 2]);
    // Five distinct grams, known or not.
    assert_eq!(query.total_count(), 5);
    assert_eq!(query.total_gram_count(), 15);
}

#[test]
fn query_from_ngram_counts_with_no_known_gram() {
    let ngrams = vec![1, 2];
    let query = QueryHashmap::from_ngram_counts(&ngrams, vec![(7, 2), (9, 1)]);
    assert!(query.ngram_ids_and_counts().is_empty());
    assert_eq!(query.total_count(), 2);
    assert_eq!(query.total_gram_count(), 3);
}

#[test]
fn max_ngram_degree_limits() {
    assert_eq!(MaxNgramDegree::Default.max_ngram_degree(999), 100);
    assert_eq!(MaxNgramDegree::Default.max_ngram_degree(5_000), 500);
    assert_eq!(MaxNgramDegree::NoLimit.max_ngram_degree(5), usize::MAX);
    assert_eq!(MaxNgramDegree::Custom(7).max_ngram_degree(5_000), 7);
}

#[test]
fn matching_items_pairs_the_counts_of_shared_ids() {
    let left = vec![(1, 4), (3, 1), (5, 2)];
    let right = vec![(2, 7), (3, 9), (5, 1), (6, 1)];
    assert_eq!(matching_items(&left, &right), vec![(3, 1, 9), (5, 2, 1)]);
    assert!(matching_items(&left, &[]).is_empty());
}
