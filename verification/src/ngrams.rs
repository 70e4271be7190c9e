//! An ngram as a sorted list of gram codes with their counts.
use vstd::prelude::*;

use crate::corpus_from::{counts_wf, increasing_grams, lemma_sorted_key, same_pairs, sort_pairs};
use crate::key_counts::{tabulate_windows, tabulates_codes, window_codes};
use crate::similarity;
use crate::trigram_similarity::{contains_any, merged_any, merged_shared, sum_of_counts, total_count};

verus! {

/// The codes of a list of `(code, count)` pairs.
pub open spec fn codes_of(s: Seq<(usize, usize)>) -> Seq<usize> {
    s.map_values(|p: (usize, usize)| p.0)
}

/// An ngram, holding its grams sorted by code, each with its count.
#[derive(Debug, Clone, PartialEq, Eq)]
pub struct Ngram {
    /// The grams sorted by code, each with its count.
    grams: Vec<(usize, usize)>,
}

impl Ngram {
    /// The grams with their counts, sorted by code.
    pub closed spec fn grams_view(&self) -> Seq<(usize, usize)> {
        self.grams@
    }

    /// Create a new `Ngram` from the counts of its grams, given in any order,
    /// no gram twice: the grams are sorted by code.
    pub fn from_counts(counts: Vec<(usize, usize)>) -> (r: Self)
        requires
            counts_wf(counts@),
        ensures
            increasing_grams(r.grams_view()),
            same_pairs(r.grams_view(), counts@),
            r.grams_view().len() == counts@.len(),
    {
        let mut grams = counts;
        let ghost unsorted = grams@;
        sort_pairs(&mut grams);
        proof {
            lemma_sorted_key(unsorted, grams@);
        }
        Ngram { grams }
    }

    /// Create a new `Ngram` from the windows of `arity` bytes of `bytes`,
    /// each packed into its code: each distinct code with its number of
    /// occurrences, sorted by code. A code is one `usize`, eight bits per
    /// byte, so windows of more than four bytes need a 64-bit `usize`.
    pub fn from_bytes(bytes: &[u8], arity: usize) -> (r: Self)
        requires
            1 <= arity <= 8,
            arity <= 4 || usize::BITS == 64,
            bytes@.len() < usize::MAX,
        ensures
            increasing_grams(r.grams_view()),
            ({
                let codes = window_codes(bytes@, arity as nat);
                exists|table: Seq<(usize, usize)>| #[trigger]
                    tabulates_codes(table, codes) && same_pairs(r.grams_view(), table)
            }),
    {
        let mut v: Vec<u8> = Vec::new();
        let mut k: usize = 0;
        while k < bytes.len()
            invariant
                k <= bytes@.len(),
                v@ == bytes@.take(k as int),
            decreases bytes@.len() - k,
        {
            v.push(bytes[k]);
            k = k + 1;
            proof {
                assert(v@ =~= bytes@.take(k as int));
            }
        }
        proof {
            assert(bytes@.take(k as int) =~= bytes@);
        }
        let counts = tabulate_windows(&v, arity);
        let ghost table = counts@;
        let r = Ngram::from_counts(counts);
        proof {
            assert(tabulates_codes(table, window_codes(bytes@, arity as nat)));
        }
        r
    }

    /// Returns the number of grams in the `Ngram`: the sum of the counts.
    pub fn number_of_grams(&self) -> (r: usize)
        requires
            total_count(self.grams_view()) <= usize::MAX,
        ensures
            r == total_count(self.grams_view()),
    {
        sum_of_counts(self.grams.as_slice())
    }

    /// Returns a count of grams that are common between this `Ngram` and the
    /// `other` `Ngram`: for every gram of both, the smaller of its two counts.
    pub fn number_of_shared_grams(&self, other: &Self) -> (r: usize)
        requires
            merged_shared(self.grams_view(), other.grams_view()) <= usize::MAX,
        ensures
            r == merged_shared(self.grams_view(), other.grams_view()),
    {
        similarity::number_of_shared_items(self.grams.as_slice(), other.grams.as_slice())
    }

    /// Returns the codes of the grams, in order.
    pub fn iter_grams(&self) -> (r: Vec<usize>)
        ensures
            r@ == codes_of(self.grams_view()),
    {
        let mut out: Vec<usize> = Vec::new();
        let mut k: usize = 0;
        while k < self.grams.len()
            invariant
                k <= self.grams@.len(),
                out@ == codes_of(self.grams@.take(k as int)),
            decreases self.grams@.len() - k,
        {
            out.push(self.grams[k].0);
            k = k + 1;
            proof {
                assert(out@ =~= codes_of(self.grams@.take(k as int)));
            }
        }
        proof {
            assert(self.grams@.take(k as int) =~= self.grams@);
        }
        out
    }

    /// Returns whether any of the provided sorted gram codes is a gram of the
    /// `Ngram`, walking both in step.
    pub fn contains_any_grams(&self, sorted_grams: &[usize]) -> (r: bool)
        ensures
            r == merged_any(codes_of(self.grams_view()), sorted_grams@),
    {
        let codes = self.iter_grams();
        contains_any(codes.as_slice(), sorted_grams)
    }
}

} // verus!
