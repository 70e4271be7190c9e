use ngrammatic::corpus::CorpusBuilder;
use ngrammatic::Pad;

#[test]
fn corpus_corpus_add_text_before_setting_arity() {
    let corpus = CorpusBuilder::new().fill(vec!["ab", "ba"]).finish();
    println!("{:?}", corpus);
}

#[test]
fn corpus_set_arity_after_adding_text() {
    let corpus = CorpusBuilder::new()
        .arity(2)
        .fill(vec!["ab", "ba"])
        .arity(3)
        .finish();
    println!("{:?}", corpus);
}

#[test]
fn corpus_corpus_set_padding_after_adding_text() {
    let corpus = CorpusBuilder::new()
        .arity(2)
        .fill(vec!["ab", "ba"])
        .pad_full(Pad::NoPad)
        .finish();
    println!("{:?}", corpus);
}

#[test]
fn corpus_corpus_add_multiple() {
    let corpus = CorpusBuilder::new()
        .arity(2)
        .pad_full(Pad::Auto)
        .fill(vec!["ab", "ba"])
        .finish();
    assert_eq!(corpus.is_empty(), false);
    assert_eq!(corpus.key("ab"), Some("ab".to_string()));
    assert_eq!(corpus.key("ba"), Some("ba".to_string()));
    assert_eq!(corpus.key("zabba"), None);
}

#[test]
fn case_insensitive_keys() {
    let corpus = CorpusBuilder::new()
        .arity(1)
        .pad_full(Pad::NoPad)
        .fill(vec!["Ab", "Ba", "Cd"])
        .case_insensitive()
        .finish();
    assert_eq!(corpus.key("ab"), Some("ab".to_string()));
    assert_eq!(corpus.key("AB"), Some("AB".to_string()));
    assert_eq!(corpus.key("ce"), None);
}

#[test]
fn candidates_share_a_gram() {
    let corpus = CorpusBuilder::new()
        .arity(1)
        .pad_full(Pad::NoPad)
        .fill(vec!["ab", "ba", "cd"])
        .finish();
    let query = corpus.query_ngram("b");
    let found = corpus.candidates(&query);
    assert_eq!(found.len(), 2);
    let query = corpus.query_ngram("ce");
    let found = corpus.candidates(&query);
    assert_eq!(found.len(), 1);
    assert_eq!(found[0].text, "cd");
    let query = corpus.query_ngram("xy");
    assert!(corpus.candidates(&query).is_empty());
}

#[test]
fn empty_corpus() {
    let corpus = CorpusBuilder::new().finish();
    assert!(corpus.is_empty());
    assert_eq!(corpus.key("a"), None);
}

#[test]
fn ngrammatic_tests_corpus_add_text_before_setting_arity() {
    let corpus = CorpusBuilder::new().arity(2).fill(vec!["ab", "ba"]).finish();
    println!("{:?}", corpus);
}

#[test]
fn ngrammatic_tests_corpus_set_padding_after_adding_text() {
    let corpus = CorpusBuilder::new()
        .arity(2)
        .fill(vec!["ab", "ba"])
        .pad_full(Pad::NoPad)
        .finish();
    println!("{:?}", corpus);
}

#[test]
fn ngrammatic_tests_corpus_add_multiple() {
    let corpus = CorpusBuilder::new()
        .arity(2)
        .pad_full(Pad::Auto)
        .fill(vec!["ab", "ba"])
        .finish();
    assert_eq!(corpus.is_empty(), false);
    assert_eq!(corpus.key("ab"), Some("ab".to_string()));
    assert_eq!(corpus.key("ba"), Some("ba".to_string()));
    assert_eq!(corpus.key("zabba"), None);
}

#[test]
fn accept_iterator_of_strings() {
    let provider = Vec::<String>::new().into_iter();
    // `fill` takes the strings as a vector of slices.
    let texts: Vec<String> = provider.collect();
    let _ = CorpusBuilder::new().fill(texts.iter().map(String::as_str).collect());
}

#[test]
fn accept_iterator_of_string_slices() {
    let provider = Vec::<String>::new();
    let _ = CorpusBuilder::new()
        .fill(provider.iter().map(String::as_str).collect())
        .fill(provider.iter().map(String::as_str).collect());
}

#[test]
fn builder_counts_its_distinct_strings() {
    let builder = CorpusBuilder::new();
    assert_eq!(builder.number_of_strings(), 0);
    let builder = builder.fill(vec!["ab", "ba", "ab"]);
    assert_eq!(builder.number_of_strings(), 2);
}
