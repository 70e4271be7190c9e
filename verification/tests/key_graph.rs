use ngrammatic::key_counts::byte_key_counts;
use ngrammatic::corpus_from::parse_keys;
use ngrammatic::key_graph_build::graph_from_keys;

/// Three keys with their gram codes and counts, in no particular order.
fn keys() -> Vec<Vec<(usize, usize)>> {
    vec![
        vec![(30, 1), (10, 2)],
        vec![(20, 1), (10, 1), (40, 3)],
        vec![(40, 1)],
    ]
}

#[test]
fn parsing_sorts_each_key() {
    let (ngrams, cooccurrences, key_offsets, maximal, key_to_ngrams) = parse_keys(&keys());
    assert_eq!(ngrams, vec![10, 20, 30, 40]);
    assert_eq!(key_to_ngrams, vec![10, 30, 10, 20, 40, 40]);
    assert_eq!(cooccurrences.len(), 6);
    assert_eq!(key_offsets.len(), 4);
    assert_eq!(maximal, 2);
}

#[test]
fn graph_of_keys_and_grams() {
    let (ngrams, graph) = graph_from_keys(&keys());
    assert_eq!(ngrams, vec![10, 20, 30, 40]);
    assert_eq!(graph.number_of_source_nodes(), 3);
    assert_eq!(graph.number_of_destination_nodes(), 4);
    assert_eq!(graph.number_of_edges(), 6);
    // The grams of each key, by index, in increasing order.
    assert_eq!(graph.dsts_from_src(0), vec![0, 2]);
    assert_eq!(graph.dsts_from_src(1), vec![0, 1, 3]);
    assert_eq!(graph.dsts_from_src(2), vec![3]);
    // Counts are stored less one.
    assert_eq!(graph.weights_from_src(0), vec![1, 0]);
    assert_eq!(graph.weights_from_src(1), vec![0, 0, 2]);
    // The keys of each gram, in increasing order.
    assert_eq!(graph.srcs_from_dst(0), vec![0, 1]);
    assert_eq!(graph.srcs_from_dst(1), vec![1]);
    assert_eq!(graph.srcs_from_dst(2), vec![0]);
    assert_eq!(graph.srcs_from_dst(3), vec![1, 2]);
    assert_eq!(graph.degrees(), vec![2, 3, 1, 2, 1, 1, 2]);
    assert_eq!(graph.edges().len(), 12);
}

#[test]
fn byte_key_counts_of_a_word() {
    let mut counts = byte_key_counts("abc", 2);
    counts.sort();
    // NUL-padded windows: "\0a", "ab", "bc", "c\0".
    assert_eq!(
        counts,
        vec![(97, 1), (97 * 256 + 98, 1), (98 * 256 + 99, 1), (99 * 256, 1)]
    );
    let mut repeated = byte_key_counts("aaa", 1);
    repeated.sort();
    assert_eq!(repeated, vec![(97, 3)]);
}

#[test]
fn graph_of_byte_keys() {
    let keys: Vec<Vec<(usize, usize)>> = ["ab", "ba"].iter().map(|k| byte_key_counts(k, 2)).collect();
    let (ngrams, graph) = graph_from_keys(&keys);
    // "\0a", "\0b", "a\0", "ab", "b\0", "ba", sorted by code.
    assert_eq!(ngrams.len(), 6);
    assert_eq!(graph.number_of_edges(), 6);
    let shared = ngrams.iter().position(|&c| c == 97 * 256 + 98).unwrap();
    assert_eq!(graph.srcs_from_dst(shared), vec![0]);
}

#[test]
fn byte_key_counts_add_up_to_the_windows() {
    let total: usize = byte_key_counts("abcab", 2).iter().map(|(_, c)| c).sum();
    assert_eq!(total, 6);
}
