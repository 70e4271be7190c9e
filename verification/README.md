# ngrammatic

Fuzzy string matching with character n-grams, written in Verus: the gram
counting, the corpus indexes and the choice of search candidates are proved
against their contracts; the floating-point scores live in `app/`.

A char gram is identified by one `usize` code, its characters packed at 21
bits each, so the corpora of `rasterized.rs` hold grams of one to three
characters (more than one only where `usize` has 64 bits); byte grams have
up to eight bytes (more than four only where `usize` has 64 bits).

Layout:

- `src/` — the verified library.
  - `ngram.rs`, `corpus.rs`: n-grams of padded strings and a corpus of them,
    with `NgramBuilder` and `CorpusBuilder`.
  - `key_counts.rs`, `char_normalizer.rs`, `char_like.rs`, `ascii_char.rs`:
    normalizing keys and counting their byte or char grams.
  - `corpus_from.rs`, `key_graph.rs`, `key_graph_build.rs`,
    `vec_bipartite_graph.rs`, `rasterized.rs`: the corpus as a weighted
    bipartite graph between keys and grams, and the search candidates.
  - `search.rs`, `trigram_similarity.rs`, `similarity.rs`: queries and the
    integer parts of the similarity measures.
  - `weights.rs`: the codes that write the weights of a node, and a
    decoder that reads them back one code at a time.
  - `adaptative_vector.rs`, `into_usize.rs`, `underscored.rs`, `report.rs`,
    and the smaller modules: supporting types.
- `app/` — similarity scores, ranking and parallel search, and the bit
  stream that the weight codes are written to and read from.
- `tests/` — tests of the library.
