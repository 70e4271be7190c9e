//! The gram ids of a query, with their counts.
use vstd::prelude::*;

use crate::corpus_from::{counts_wf, increasing_grams, lemma_sorted_key, sort_pairs};
use crate::key_graph::binary_search_codes;
use crate::trigram_similarity::{lemma_total_push, sum_of_counts, total_count};

verus! {

/// The total count of the grams of `counts` that are not among `ngrams`.
pub open spec fn unknown_total(ngrams: Seq<usize>, counts: Seq<(usize, usize)>) -> nat
    decreases counts.len(),
{
    if counts.len() == 0 {
        0
    } else {
        unknown_total(ngrams, counts.drop_last()) + if ngrams.contains(counts.last().0) {
            0nat
        } else {
            counts.last().1 as nat
        }
    }
}

/// The number of grams of `counts` that are not among `ngrams`.
pub open spec fn unknown_entries(ngrams: Seq<usize>, counts: Seq<(usize, usize)>) -> nat
    decreases counts.len(),
{
    if counts.len() == 0 {
        0
    } else {
        unknown_entries(ngrams, counts.drop_last()) + if ngrams.contains(counts.last().0) {
            0nat
        } else {
            1nat
        }
    }
}

/// The total count of the grams of `counts` that are among `ngrams`.
pub open spec fn known_total(ngrams: Seq<usize>, counts: Seq<(usize, usize)>) -> nat
    decreases counts.len(),
{
    if counts.len() == 0 {
        0
    } else {
        known_total(ngrams, counts.drop_last()) + if ngrams.contains(counts.last().0) {
            counts.last().1 as nat
        } else {
            0nat
        }
    }
}

/// The total of a prefix one longer.
proof fn lemma_total_take(s: Seq<(usize, usize)>, k: int)
    requires
        0 <= k < s.len(),
    ensures
        total_count(s.take(k + 1)) == total_count(s.take(k)) + s[k].1,
{
    assert(s.take(k + 1) =~= s.take(k).push(s[k]));
    lemma_total_push(s.take(k), s[k]);
}

/// Removing one pair takes its count off the total.
proof fn lemma_total_remove(s: Seq<(usize, usize)>, j: int)
    requires
        0 <= j < s.len(),
    ensures
        total_count(s) == total_count(s.remove(j)) + s[j].1,
    decreases s.len(),
{
    if j > 0 {
        lemma_total_remove(s.drop_first(), j - 1);
        assert(s.remove(j).drop_first() =~= s.drop_first().remove(j - 1));
    } else {
        assert(s.remove(0) =~= s.drop_first());
    }
}

/// Rearranging the pairs keeps their total.
proof fn lemma_total_permutation(a: Seq<(usize, usize)>, b: Seq<(usize, usize)>)
    requires
        a.to_multiset() == b.to_multiset(),
    ensures
        total_count(a) == total_count(b),
    decreases a.len(),
{
    broadcast use vstd::seq_lib::group_seq_properties;
    vstd::seq_lib::to_multiset_len(a);
    vstd::seq_lib::to_multiset_len(b);
    if a.len() > 0 {
        let x = a[0];
        vstd::seq_lib::to_multiset_contains(a, x);
        vstd::seq_lib::to_multiset_contains(b, x);
        assert(a.contains(x));
        let j = choose|j: int| 0 <= j < b.len() && b[j] == x;
        vstd::seq_lib::to_multiset_remove(b, j);
        vstd::seq_lib::to_multiset_remove(a, 0);
        assert(a.remove(0) =~= a.drop_first());
        lemma_total_permutation(a.drop_first(), b.remove(j));
        lemma_total_remove(b, j);
    }
}

/// The total of a prefix never exceeds the total.
proof fn lemma_total_prefix_bound(s: Seq<(usize, usize)>, k: int)
    requires
        0 <= k <= s.len(),
    ensures
        total_count(s.take(k)) <= total_count(s),
    decreases s.len() - k,
{
    if k < s.len() {
        lemma_total_take(s, k);
        lemma_total_prefix_bound(s, k + 1);
    } else {
        assert(s.take(k) =~= s);
    }
}

/// One step of building a query: the pairs found so far match the prefix
/// of the counts one longer.
proof fn lemma_query_step(ngrams: Seq<usize>, counts: Seq<(usize, usize)>, k: int, ids: Seq<(usize, usize)>)
    requires
        0 <= k < counts.len(),
    ensures
        unknown_total(ngrams, counts.take(k + 1)) == unknown_total(ngrams, counts.take(k)) + if ngrams.contains(
            counts[k].0,
        ) {
            0nat
        } else {
            counts[k].1 as nat
        },
        unknown_entries(ngrams, counts.take(k + 1)) == unknown_entries(ngrams, counts.take(k)) + if ngrams.contains(
            counts[k].0,
        ) {
            0nat
        } else {
            1nat
        },
        known_total(ngrams, counts.take(k + 1)) == known_total(ngrams, counts.take(k)) + if ngrams.contains(
            counts[k].0,
        ) {
            counts[k].1 as nat
        } else {
            0nat
        },
        forall|p: (usize, usize)| #[trigger] counts.take(k + 1).contains(p) <==> (counts.take(k).contains(p) || p == counts[k]),
{
    let t = counts.take(k + 1);
    let t0 = counts.take(k);
    assert(t.drop_last() =~= t0);
    assert(t.last() == counts[k]);
    assert forall|p: (usize, usize)| #[trigger] t.contains(p) <==> (t0.contains(p) || p == counts[k]) by {
        if t.contains(p) {
            let q = choose|q: int| 0 <= q < t.len() && t[q] == p;
            if q < k {
                assert(t0[q] == p);
            }
        }
        if t0.contains(p) {
            let q = choose|q: int| 0 <= q < t0.len() && t0[q] == p;
            assert(t[q] == p);
        }
        if p == counts[k] {
            assert(t[k] == p);
        }
    }
}

/// The pairs found for the grams of well-formed counts have positive counts.
proof fn lemma_ids_distinct(ngrams: Seq<usize>, counts: Seq<(usize, usize)>, ids: Seq<(usize, usize)>)
    requires
        counts_wf(counts),
        forall|p: (usize, usize)|
            #![trigger ids.contains(p)]
            ids.contains(p) <==> (p.0 < ngrams.len() && counts.contains((ngrams[p.0 as int], p.1))),
        forall|i: int, j: int| 0 <= i < j < ids.len() ==> ids[i].0 != ids[j].0,
    ensures
        counts_wf(ids),
{
    assert forall|i: int| 0 <= i < ids.len() implies #[trigger] ids[i].1 >= 1 by {
        let p = ids[i];
        assert(ids.contains(p));
        assert(counts.contains((ngrams[p.0 as int], p.1)));
        let q = choose|q: int| 0 <= q < counts.len() && counts[q] == (ngrams[p.0 as int], p.1);
        assert(counts[q].1 >= 1);
    }
}

/// A struct representing a query hashmap, with several values precomputed.
#[derive(Debug, Clone, PartialEq, PartialOrd, Ord, Eq)]
pub struct QueryHashmap {
    /// The identified ngram ids, each with its count.
    ngram_ids: Vec<(usize, usize)>,
    /// A total count of the unknown ngrams.
    total_unknown_count: usize,
    /// A total count of the identified ngrams.
    total_identified_count: usize,
    /// The number of distinct unknown ngrams.
    number_of_unknown_ngrams: usize,
}

impl QueryHashmap {
    /// The identified count is the sum of the counts of the identified ids,
    /// as `new` makes it.
    pub closed spec fn wf(&self) -> bool {
        self.total_identified_count == total_count(self.ngram_ids@)
    }

    /// The identified ngram ids, each with its count.
    pub closed spec fn entries(&self) -> Seq<(usize, usize)> {
        self.ngram_ids@
    }

    /// The total count of the unknown ngrams.
    pub closed spec fn unknown_count(&self) -> nat {
        self.total_unknown_count as nat
    }

    /// The total count of the identified ngrams.
    pub closed spec fn identified_count(&self) -> nat {
        self.total_identified_count as nat
    }

    /// The number of distinct unknown ngrams.
    pub closed spec fn unknown_grams(&self) -> nat {
        self.number_of_unknown_ngrams as nat
    }

    /// Builds the query from its identified ngram ids with their counts, the
    /// total count of the ngrams that were not identified, and how many
    /// distinct ngrams those are.
    pub fn new(ngram_ids: Vec<(usize, usize)>, total_unknown_count: usize, number_of_unknown_ngrams: usize) -> (q: Self)
        requires
            total_count(ngram_ids@) <= usize::MAX,
        ensures
            q.entries() == ngram_ids@,
            q.unknown_count() == total_unknown_count,
            q.unknown_grams() == number_of_unknown_ngrams,
            q.identified_count() == total_count(ngram_ids@),
            q.wf(),
    {
        let total_identified_count = sum_of_counts(ngram_ids.as_slice());
        QueryHashmap { ngram_ids, total_unknown_count, total_identified_count, number_of_unknown_ngrams }
    }

    /// Builds the query of the given ngram counts (no gram twice) against
    /// the sorted `ngrams` of a corpus: each known gram becomes its index
    /// among `ngrams`, with its count, sorted by index, and the counts of the
    /// unknown grams are totalled.
    pub fn from_ngram_counts(ngrams: &Vec<usize>, ngram_counts: Vec<(usize, usize)>) -> (q: Self)
        requires
            forall|i: int, j: int| 0 <= i < j < ngrams@.len() ==> ngrams@[i] < ngrams@[j],
            counts_wf(ngram_counts@),
            total_count(ngram_counts@) <= usize::MAX,
        ensures
            q.wf(),
            increasing_grams(q.entries()),
            forall|p: (usize, usize)|
                #![trigger q.entries().contains(p)]
                q.entries().contains(p) <==> (p.0 < ngrams@.len() && ngram_counts@.contains(
                    (ngrams@[p.0 as int], p.1),
                )),
            q.unknown_count() == unknown_total(ngrams@, ngram_counts@),
            q.identified_count() == known_total(ngrams@, ngram_counts@),
            q.unknown_count() + q.identified_count() == total_count(ngram_counts@),
            q.unknown_grams() == unknown_entries(ngrams@, ngram_counts@),
            q.entries().len() + q.unknown_grams() == ngram_counts@.len(),
    {
        let ghost counts = ngram_counts@;
        let mut number_of_unknown_ngrams: usize = 0;
        let mut ngram_ids: Vec<(usize, usize)> = Vec::new();
        let mut total_unknown_count: usize = 0;
        let mut total_identified_count: usize = 0;
        let mut k: usize = 0;
        proof {
            assert forall|i: int, j: int| 0 <= i <= j < ngrams@.len() implies ngrams@[i] <= ngrams@[j] by {
                if i < j {
                    assert(ngrams@[i] < ngrams@[j]);
                }
            }
        }
        while k < ngram_counts.len()
            invariant
                counts == ngram_counts@,
                forall|i: int, j: int| 0 <= i < j < ngrams@.len() ==> ngrams@[i] < ngrams@[j],
                forall|i: int, j: int| 0 <= i <= j < ngrams@.len() ==> ngrams@[i] <= ngrams@[j],
                counts_wf(counts),
                total_count(counts) <= usize::MAX,
                k <= counts.len(),
                total_unknown_count == unknown_total(ngrams@, counts.take(k as int)),
                total_identified_count == known_total(ngrams@, counts.take(k as int)),
                total_identified_count == total_count(ngram_ids@),
                number_of_unknown_ngrams == unknown_entries(ngrams@, counts.take(k as int)),
                ngram_ids@.len() + number_of_unknown_ngrams == k,
                total_unknown_count + total_identified_count == total_count(counts.take(k as int)),
                total_count(counts.take(k as int)) <= total_count(counts),
                forall|p: (usize, usize)|
                    #![trigger ngram_ids@.contains(p)]
                    ngram_ids@.contains(p) <==> (p.0 < ngrams@.len() && counts.take(k as int).contains(
                        (ngrams@[p.0 as int], p.1),
                    )),
                forall|i: int| 0 <= i < ngram_ids@.len() ==> (#[trigger] ngram_ids@[i]).0 < ngrams@.len(),
                forall|i: int, j: int| 0 <= i < j < ngram_ids@.len() ==> ngram_ids@[i].0 != ngram_ids@[j].0,
            decreases counts.len() - k,
        {
            let (code, count) = ngram_counts[k];
            proof {
                let t = counts.take(k + 1);
                assert(t.drop_last() =~= counts.take(k as int));
                lemma_total_take(counts, k as int);
                lemma_total_prefix_bound(counts, k + 1);
            }
            let ghost before = ngram_ids@;
            proof {
                lemma_query_step(ngrams@, counts, k as int, ngram_ids@);
            }
            match binary_search_codes(ngrams.as_slice(), code) {
                Ok(ngram_id) => {
                    proof {
                        lemma_total_push(ngram_ids@, (ngram_id, count));
                        assert(ngrams@.contains(code));
                    }
                    proof {
                        assert forall|i: int| 0 <= i < before.len() implies before[i].0 != ngram_id by {
                            let p = before[i];
                            assert(before.contains(p));
                            assert(counts.take(k as int).contains((ngrams@[p.0 as int], p.1)));
                            if p.0 == ngram_id {
                                let q = choose|q: int| 0 <= q < k && counts.take(k as int)[q] == (ngrams@[p.0 as int], p.1);
                                assert(counts[q].0 == counts[k as int].0);
                            }
                        }
                    }
                    ngram_ids.push((ngram_id, count));
                    total_identified_count = total_identified_count + count;
                    proof {
                        assert forall|p: (usize, usize)|
                            #![trigger ngram_ids@.contains(p)]
                            ngram_ids@.contains(p) <==> (p.0 < ngrams@.len() && counts.take(k + 1).contains(
                                (ngrams@[p.0 as int], p.1),
                            )) by {
                            assert(ngram_ids@ == before.push((ngram_id, count)));
                            if ngram_ids@.contains(p) {
                                let w = choose|w: int| 0 <= w < ngram_ids@.len() && ngram_ids@[w] == p;
                                if w < before.len() {
                                    assert(before[w] == p);
                                    assert(before.contains(p));
                                }
                            }
                            if p.0 < ngrams@.len() && counts.take(k + 1).contains((ngrams@[p.0 as int], p.1)) {
                                if (ngrams@[p.0 as int], p.1) == counts[k as int] {
                                    if p.0 != ngram_id {
                                        if p.0 < ngram_id {
                                            assert(ngrams@[p.0 as int] < ngrams@[ngram_id as int]);
                                        } else {
                                            assert(ngrams@[ngram_id as int] < ngrams@[p.0 as int]);
                                        }
                                    }
                                    assert(ngram_ids@[before.len() as int] == p);
                                } else {
                                    assert(before.contains(p));
                                    let w = choose|w: int| 0 <= w < before.len() && before[w] == p;
                                    assert(ngram_ids@[w] == p);
                                }
                            }
                        }
                    }
                },
                Err(i) => {
                    proof {
                        if ngrams@.contains(code) {
                            let w = choose|w: int| 0 <= w < ngrams@.len() && ngrams@[w] == code;
                            if w < i {
                                assert(ngrams@[w] < code);
                            } else {
                                assert(code < ngrams@[w]);
                            }
                        }
                    }
                    total_unknown_count = total_unknown_count + count;
                    number_of_unknown_ngrams = number_of_unknown_ngrams + 1;
                    proof {
                        assert forall|p: (usize, usize)|
                            #![trigger ngram_ids@.contains(p)]
                            ngram_ids@.contains(p) <==> (p.0 < ngrams@.len() && counts.take(k + 1).contains(
                                (ngrams@[p.0 as int], p.1),
                            )) by {
                            if p.0 < ngrams@.len() && (ngrams@[p.0 as int], p.1) == counts[k as int] {
                                assert(ngrams@.contains(code));
                            }
                        }
                    }
                },
            }
            k = k + 1;
        }
        proof {
            assert(counts.take(k as int) =~= counts);
        }
        let ghost unsorted = ngram_ids@;
        proof {
            lemma_ids_distinct(ngrams@, counts, unsorted);
        }
        sort_pairs(&mut ngram_ids);
        proof {
            lemma_sorted_key(unsorted, ngram_ids@);
            lemma_total_permutation(ngram_ids@, unsorted);
        }
        QueryHashmap { ngram_ids, total_unknown_count, total_identified_count, number_of_unknown_ngrams }
    }

    /// Returns the identified ngram ids.
    pub fn ngram_ids(&self) -> (r: Vec<usize>)
        ensures
            r@ == self.entries().map_values(|p: (usize, usize)| p.0),
    {
        let mut out: Vec<usize> = Vec::new();
        let mut k: usize = 0;
        while k < self.ngram_ids.len()
            invariant
                k <= self.ngram_ids@.len(),
                out@ == self.ngram_ids@.take(k as int).map_values(|p: (usize, usize)| p.0),
            decreases self.ngram_ids@.len() - k,
        {
            out.push(self.ngram_ids[k].0);
            k = k + 1;
            proof {
                assert(out@ =~= self.ngram_ids@.take(k as int).map_values(|p: (usize, usize)| p.0));
            }
        }
        proof {
            assert(self.ngram_ids@.take(k as int) =~= self.ngram_ids@);
        }
        out
    }

    /// Returns the ngram ids and their counts; the counts sum to the
    /// identified count.
    pub fn ngram_ids_and_counts(&self) -> (r: Vec<(usize, usize)>)
        ensures
            r@ == self.entries(),
            self.wf() ==> total_count(r@) == self.identified_count(),
    {
        let mut out: Vec<(usize, usize)> = Vec::new();
        let mut k: usize = 0;
        while k < self.ngram_ids.len()
            invariant
                k <= self.ngram_ids@.len(),
                out@ == self.ngram_ids@.take(k as int),
            decreases self.ngram_ids@.len() - k,
        {
            out.push(self.ngram_ids[k]);
            k = k + 1;
            proof {
                assert(out@ =~= self.ngram_ids@.take(k as int));
            }
        }
        proof {
            assert(self.ngram_ids@.take(k as int) =~= self.ngram_ids@);
        }
        out
    }

    /// Returns the total number of unique ngrams, including the unknown
    /// ngrams.
    pub fn total_count(&self) -> (r: usize)
        requires
            self.entries().len() + self.unknown_grams() <= usize::MAX,
        ensures
            r == self.entries().len() + self.unknown_grams(),
    {
        self.ngram_ids.len() + self.number_of_unknown_ngrams
    }

    /// Returns the total count of the ngrams, each counted as often as it
    /// occurs, including the unknown ngrams.
    pub fn total_gram_count(&self) -> (r: usize)
        requires
            self.unknown_count() + self.identified_count() <= usize::MAX,
        ensures
            r == self.unknown_count() + self.identified_count(),
    {
        self.total_unknown_count + self.total_identified_count
    }
}


/// The maximum degree of the ngrams to consider in a search: ngrams that
/// occur in more keys than this are left out, as they say little about the
/// key while costing much.
#[derive(Debug, Clone, Copy, PartialEq, Eq)]
pub enum MaxNgramDegree {
    /// 100 below a thousand keys, a tenth of the keys from there on.
    Default,
    /// No ngram is left out, however frequent.
    NoLimit,
    /// Ngrams with counts above the given value are left out.
    Custom(usize),
}

impl MaxNgramDegree {
    /// The limit this setting gives for a corpus of `number_of_keys` keys.
    pub open spec fn limit(&self, number_of_keys: nat) -> nat {
        match self {
            MaxNgramDegree::Default => if number_of_keys < 1000 {
                100
            } else {
                number_of_keys / 10
            },
            MaxNgramDegree::NoLimit => usize::MAX as nat,
            MaxNgramDegree::Custom(value) => *value as nat,
        }
    }

    /// Returns the maximum number of keys an ngram may occur in to be
    /// considered in a search.
    ///
    /// # Arguments
    /// * `number_of_keys` - The number of keys in the corpus.
    pub fn max_ngram_degree(&self, number_of_keys: usize) -> (r: usize)
        ensures
            r == self.limit(number_of_keys as nat),
    {
        match self {
            MaxNgramDegree::Default => {
                if number_of_keys < 1_000 {
                    100
                } else {
                    number_of_keys / 10
                }
            },
            MaxNgramDegree::NoLimit => usize::MAX,
            MaxNgramDegree::Custom(value) => *value,
        }
    }
}

} // verus!
