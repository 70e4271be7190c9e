use ngrammatic::char_normalizer::{trim, trim_left, trim_null, trim_null_left, trim_null_right, trim_right};
use ngrammatic::key_counts::{char_key_counts, normalize_chars};
use ngrammatic::rasterized::Corpus;

const BASE: usize = 0x110000;

fn code(s: &str) -> usize {
    s.chars().fold(0, |acc, c| acc * BASE + c as usize)
}

fn strings(keys: &[&str]) -> Vec<String> {
    keys.iter().map(|k| k.to_string()).collect()
}

#[test]
fn trims_drop_spaces_and_nuls_at_the_ends() {
    let s: Vec<char> = "  a b \t".chars().collect();
    assert_eq!(trim_left(&s), "a b \t".chars().collect::<Vec<_>>());
    assert_eq!(trim_right(&s), "  a b".chars().collect::<Vec<_>>());
    assert_eq!(trim(&s), "a b".chars().collect::<Vec<_>>());
    let n: Vec<char> = "\0\0x\0y\0".chars().collect();
    assert_eq!(trim_null_left(&n), "x\0y\0".chars().collect::<Vec<_>>());
    assert_eq!(trim_null_right(&n), "\0\0x\0y".chars().collect::<Vec<_>>());
    assert_eq!(trim_null(&n), "x\0y".chars().collect::<Vec<_>>());
    let blank: Vec<char> = "   ".chars().collect();
    assert!(trim(&blank).is_empty());
    let bytes: Vec<u8> = b" ab ".to_vec();
    assert_eq!(trim(&bytes), b"ab".to_vec());
}

#[test]
fn normalize_chars_trims_replaces_and_dedups() {
    assert_eq!(normalize_chars("  Hello,  World! \0"), "Hello World ".chars().collect::<Vec<_>>());
    assert_eq!(normalize_chars("a--b"), "a b".chars().collect::<Vec<_>>());
    assert!(normalize_chars("   ").is_empty());
}

#[test]
fn char_key_counts_of_monograms_and_bigrams() {
    assert_eq!(char_key_counts("aba", 1), vec![(97, 2), (98, 1)]);
    let mut bigrams = char_key_counts("ab", 2);
    bigrams.sort();
    let mut expected = vec![(code("\0a"), 1), (code("ab"), 1), (code("b\0"), 1)];
    expected.sort();
    assert_eq!(bigrams, expected);
    assert!(char_key_counts("", 1).is_empty());
}

#[test]
fn rasterized_corpus_counts() {
    let corpus = Corpus::from_keys(strings(&["ab", "ba"]), 2);
    assert_eq!(corpus.number_of_keys(), 2);
    assert_eq!(corpus.number_of_ngrams(), 6);
    assert_eq!(corpus.number_of_edges(), 6);
    assert_eq!(corpus.key_from_id(1), "ba");
    assert_eq!(corpus.number_of_ngrams_from_key_id(0), 3);
}

#[test]
fn rasterized_corpus_gram_lookup() {
    let corpus = Corpus::from_keys(strings(&["ab", "abc"]), 2);
    let ab = code("ab");
    let id = corpus.ngram_id_from_ngram(ab).unwrap();
    assert_eq!(corpus.ngram_from_id(id), ab);
    assert_eq!(corpus.key_ids_from_ngram_id(id), vec![0, 1]);
    assert_eq!(corpus.number_of_keys_from_ngram_id(id), 2);
    let bc = corpus.ngram_id_from_ngram(code("bc")).unwrap();
    assert_eq!(corpus.key_ids_from_ngram_id(bc), vec![1]);
    assert!(corpus.ngram_id_from_ngram(code("zz")).is_err());
}

#[test]
fn rasterized_corpus_key_grams_are_sorted_with_counts() {
    let corpus = Corpus::from_keys(strings(&["aaa", "ab"]), 1);
    assert_eq!(corpus.ngrams_and_cooccurrences_from_key(0), vec![(97, 3)]);
    assert_eq!(corpus.ngram_cooccurrences_from_key(0), vec![3]);
    assert_eq!(corpus.ngrams_from_key(1), vec![97, 98]);
    let ids = corpus.ngram_ids_from_key(1);
    assert_eq!(ids.len(), 2);
    assert_eq!(
        corpus.ngram_ids_and_cooccurrences_from_key(1),
        vec![(ids[0], 1), (ids[1], 1)]
    );
    assert!(corpus.contains_any_ngrams(&[98, 99], 1));
    assert!(!corpus.contains_any_ngrams(&[98, 99], 0));
}

#[test]
fn search_candidates_visit_each_sharing_key_once() {
    let corpus = Corpus::from_keys(strings(&["ab", "abc", "xy"]), 2);
    let mut query: Vec<usize> = char_key_counts("ab", 2).into_iter().map(|(c, _)| c).collect();
    query.sort();
    let mut found = corpus.search_candidates(&query);
    found.sort();
    assert_eq!(found, vec![0, 1]);
    let unknown = vec![code("qq")];
    assert!(corpus.search_candidates(&unknown).is_empty());
}

#[test]
fn empty_rasterized_corpus() {
    // A corpus needs at least one gram: without keys there is none.
    assert!(Corpus::try_from_keys(Vec::new(), 3).is_none());
}

#[test]
fn test_query_hashmap() {
    let animals = [
        "Aardvark", "Albatross", "Alligator", "Alpaca", "Ant", "Anteater", "Antelope", "Ape", "Armadillo",
        "Baboon", "Badger", "Barracuda", "Bat", "Bear", "Beaver", "Bee", "Bison", "Boar", "Buffalo",
        "Butterfly", "Camel", "Capybara", "Caribou", "Cassowary", "Cat", "Caterpillar", "Cattle",
        "Chamois", "Cheetah", "Chicken", "Chimpanzee", "Chinchilla", "Cobra", "Cod", "Crab", "Crane",
        "Crocodile", "Crow", "Deer", "Dog", "Dogfish", "Dolphin", "Donkey", "Dove", "Duck", "Eagle",
        "Eel", "Elephant", "Elk", "Emu", "Falcon", "Ferret", "Finch", "Fish", "Flamingo", "Fox", "Frog",
        "Gazelle", "Gerbil", "Giraffe", "Goat", "Goose", "Gorilla", "Hamster", "Hare", "Hawk",
        "Hedgehog", "Heron", "Hippopotamus", "Horse", "Hyena", "Ibis", "Jackal", "Jaguar", "Kangaroo",
        "Koala", "Lemur", "Leopard", "Lion", "Llama", "Lobster", "Mole", "Mongoose", "Monkey", "Moose",
        "Mouse", "Octopus", "Ostrich", "Otter", "Owl", "Ox", "Panther", "Parrot", "Pelican", "Penguin",
        "Pig", "Polecat", "Rabbit", "Raccoon", "Rat", "Raven", "Seal", "Shark", "Sheep", "Snake",
        "Squirrel", "Swan", "Tiger", "Toad", "Turtle", "Walrus", "Wildcat", "Wolf", "Wombat", "Zebra",
    ];
    let keys: Vec<String> = animals.iter().map(|a| a.to_lowercase()).collect();
    let corpus = Corpus::from_keys(keys, 3);
    let query = corpus.ngram_ids_from_ngram_counts(char_key_counts("cat", 3));
    let ngram_ids = query.ngram_ids();
    let mut sorted_ngram_ids = ngram_ids.clone();
    sorted_ngram_ids.sort_unstable();
    assert_eq!(ngram_ids, sorted_ngram_ids, "The ngram ids are not sorted");
    let total_count: usize = query.ngram_ids_and_counts().iter().map(|(_, count)| count).sum();
    // Every trigram of "cat" occurs in the corpus, so the identified grams
    // make up the whole count.
    assert_eq!(total_count, query.total_gram_count(), "The total count is incorrect");
    assert_eq!(query.total_count(), ngram_ids.len());
}

#[test]
fn query_from_corpus_ngram_counts() {
    let corpus = Corpus::from_keys(strings(&["cat", "caterpillar", "dog"]), 3);
    let query = corpus.ngram_ids_from_ngram_counts(char_key_counts("cat", 3));
    let ngram_ids = query.ngram_ids();
    let mut sorted_ngram_ids = ngram_ids.clone();
    sorted_ngram_ids.sort_unstable();
    assert_eq!(ngram_ids, sorted_ngram_ids);
    let identified: usize = query.ngram_ids_and_counts().iter().map(|(_, c)| c).sum();
    // "cat" has five trigrams, all of them in the corpus.
    assert_eq!(identified, 5);
    assert_eq!(query.total_count(), 5);
}

#[test]
fn query_candidates_skip_frequent_grams() {
    let corpus = Corpus::from_keys(strings(&["cat", "car", "dog"]), 2);
    let query = corpus.ngram_ids_from_ngram_counts(char_key_counts("cat", 2));
    let mut all = corpus.query_candidates(&query, usize::MAX);
    all.sort();
    assert_eq!(all, vec![0, 1]);
    // With at most one key per gram, "\0c" and "ca" (in "cat" and "car") are
    // left out: "car" shares no other gram and is not reached, while "cat"
    // is still reached through its rarer gram "at".
    assert_eq!(corpus.query_candidates(&query, 1), vec![0]);
    assert!(corpus.query_candidates(&query, 0).is_empty());
    let rare_first = Corpus::from_keys(strings(&["ab", "xb"]), 1);
    let query = rare_first.ngram_ids_from_ngram_counts(char_key_counts("ab", 1));
    assert_eq!(rare_first.query_candidates(&query, 1), vec![0]);
    let mut both = rare_first.query_candidates(&query, 2);
    both.sort();
    assert_eq!(both, vec![0, 1]);
    assert!(rare_first.query_candidates(&query, 0).is_empty());
}

#[test]
fn contains_any_ngram_ids_of_a_key() {
    let corpus = Corpus::from_keys(strings(&["ab", "cd"]), 1);
    let a = corpus.ngram_id_from_ngram(97).unwrap();
    let d = corpus.ngram_id_from_ngram(100).unwrap();
    assert!(corpus.contains_any_ngram_ids(&[a], 0));
    assert!(!corpus.contains_any_ngram_ids(&[a], 1));
    assert!(corpus.contains_any_ngram_ids(&[a, d], 1));
}

#[test]
fn rasterized_corpus_report() {
    let corpus = Corpus::from_keys(strings(&["ab", "ba"]), 2);
    let report = corpus.report();
    assert_eq!(report.number_of_keys, 2);
    assert_eq!(report.number_of_grams, 6);
    assert_eq!(report.number_of_edges, 12);
    assert_eq!(
        report.to_string(),
        "# Corpus Report\n* Number of keys: 2\n* Number of grams: 6\n* Number of edges: 12\n"
    );
}

#[test]
fn try_from_keys_builds_small_corpora() {
    let corpus = Corpus::try_from_keys(strings(&["ab", "ba"]), 2).unwrap();
    assert_eq!(corpus.number_of_keys(), 2);
    assert_eq!(corpus.number_of_ngrams(), 6);
}

#[test]
fn char_key_counts_add_up_to_the_windows() {
    // "abcab" padded with one NUL on each side has six windows of two.
    let total: usize = char_key_counts("abcab", 2).iter().map(|(_, c)| c).sum();
    assert_eq!(total, 6);
    let total: usize = char_key_counts("abcab", 3).iter().map(|(_, c)| c).sum();
    assert_eq!(total, 7);
}
