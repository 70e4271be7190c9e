//! Sorted storages of gram codes, and their builders.
use vstd::prelude::*;

use crate::key_graph::binary_search_codes;

verus! {

/// The codes never decrease.
pub open spec fn sorted_codes(s: Seq<usize>) -> bool {
    forall|i: int, j: int| 0 <= i <= j < s.len() ==> s[i] <= s[j]
}

/// Trait defining a builder of a sorted storage for gram codes.
pub trait SortedNgramStorageBuilder: Sized {
    /// The type of the storage.
    type Storage: SortedNgramStorage;

    /// The codes pushed so far.
    spec fn pushed(&self) -> Seq<usize>;

    /// Create a new builder.
    ///
    /// # Arguments
    /// * `number_of_ngrams` - The number of ngrams to store.
    /// * `maximal_ngram` - The maximal ngram to store.
    fn new_storage_builder(number_of_ngrams: usize, maximal_ngram: usize) -> (r: Self)
        ensures
            r.pushed() == Seq::<usize>::empty(),
    ;

    /// Push a new ngram into the storage. Whether the ngrams come sorted is
    /// not checked.
    fn push_unchecked(&mut self, ngram: usize)
        ensures
            final(self).pushed() == old(self).pushed().push(ngram),
    ;

    /// Build the storage.
    fn build(self) -> (r: Self::Storage)
        ensures
            r.stored() == self.pushed(),
    ;
}

/// Trait defining a builder of a sorted storage whose ngrams are set by
/// position.
pub trait ConcurrentSortedNgramStorageBuilder: Sized {
    /// The type of the storage.
    type Storage: SortedNgramStorage;

    /// The codes set so far, zero where none was.
    spec fn slots(&self) -> Seq<usize>;

    /// Create a new builder with room for `number_of_ngrams` ngrams.
    fn new_storage_builder(number_of_ngrams: usize, maximal_ngram: usize) -> (r: Self)
        ensures
            r.slots() == Seq::new(number_of_ngrams as nat, |i: int| 0usize),
    ;

    /// Set the ngram at `index`. Whether the ngrams end up sorted is not
    /// checked.
    fn set_unchecked(&mut self, ngram: usize, index: usize)
        requires
            index < old(self).slots().len(),
        ensures
            final(self).slots() == old(self).slots().update(index as int, ngram),
    ;

    /// Build the storage.
    fn build(self) -> (r: Self::Storage)
        ensures
            r.stored() == self.slots(),
    ;
}

/// Trait defining a sorted storage for gram codes.
pub trait SortedNgramStorage: Sized {
    /// The codes stored.
    spec fn stored(&self) -> Seq<usize>;

    /// Returns the number of ngrams in the storage.
    fn len(&self) -> (r: usize)
        ensures
            r == self.stored().len(),
    ;

    /// Returns true if the storage is empty.
    fn is_empty(&self) -> (r: bool)
        ensures
            r == (self.stored().len() == 0),
    ;

    /// Returns the index of the provided ngram, when it is stored; the
    /// storage must be sorted for this to be meaningful.
    fn index_of(&self, ngram: usize) -> (r: Option<usize>)
        ensures
            sorted_codes(self.stored()) ==> (r is Some <==> self.stored().contains(ngram)),
            sorted_codes(self.stored()) && r is Some ==> r.unwrap() < self.stored().len()
                && self.stored()[r.unwrap() as int] == ngram,
    ;

    /// Returns the index of a stored ngram.
    fn index_of_unchecked(&self, ngram: usize) -> (r: usize)
        requires
            sorted_codes(self.stored()),
            self.stored().contains(ngram),
        ensures
            r < self.stored().len(),
            self.stored()[r as int] == ngram,
    ;

    /// Returns the i-th ngram in the storage.
    fn get_unchecked(&self, i: usize) -> (r: usize)
        requires
            i < self.stored().len(),
        ensures
            r == self.stored()[i as int],
    ;

    /// The ngrams in the storage, in order.
    fn iter(&self) -> (r: Vec<usize>)
        ensures
            r@ == self.stored(),
    ;
}

impl SortedNgramStorageBuilder for Vec<usize> {
    type Storage = Vec<usize>;

    open spec fn pushed(&self) -> Seq<usize> {
        self@
    }

    fn new_storage_builder(number_of_ngrams: usize, maximal_ngram: usize) -> (r: Self) {
        Vec::with_capacity(number_of_ngrams)
    }

    fn push_unchecked(&mut self, ngram: usize) {
        self.push(ngram);
    }

    fn build(self) -> (r: Self::Storage) {
        self
    }
}

impl SortedNgramStorage for Vec<usize> {
    open spec fn stored(&self) -> Seq<usize> {
        self@
    }

    fn len(&self) -> (r: usize) {
        self.len()
    }

    fn is_empty(&self) -> (r: bool) {
        self.len() == 0
    }

    fn index_of(&self, ngram: usize) -> (r: Option<usize>) {
        match binary_search_codes(self.as_slice(), ngram) {
            Ok(i) => Some(i),
            Err(i) => {
                proof {
                    if sorted_codes(self@) && self@.contains(ngram) {
                        let w = choose|w: int| 0 <= w < self@.len() && self@[w] == ngram;
                        if w < i {
                            assert(self@[w] < ngram);
                        } else {
                            assert(ngram < self@[w]);
                        }
                    }
                }
                None
            },
        }
    }

    fn index_of_unchecked(&self, ngram: usize) -> (r: usize) {
        match self.index_of(ngram) {
            Some(i) => i,
            None => {
                proof {
                    assert(false);
                }
                0
            },
        }
    }

    fn get_unchecked(&self, i: usize) -> (r: usize) {
        self[i]
    }

    fn iter(&self) -> (r: Vec<usize>) {
        let mut out: Vec<usize> = Vec::new();
        let mut k: usize = 0;
        while k < self.len()
            invariant
                k <= self@.len(),
                out@ == self@.take(k as int),
            decreases self@.len() - k,
        {
            out.push(self[k]);
            k = k + 1;
            proof {
                assert(out@ =~= self@.take(k as int));
            }
        }
        proof {
            assert(self@.take(k as int) =~= self@);
        }
        out
    }
}

/// A vector whose slots are set by position, to build a storage.
#[derive(Debug, Clone)]
pub struct SharedVec {
    storage: Vec<usize>,
}

impl ConcurrentSortedNgramStorageBuilder for SharedVec {
    type Storage = Vec<usize>;

    closed spec fn slots(&self) -> Seq<usize> {
        self.storage@
    }

    fn new_storage_builder(number_of_ngrams: usize, maximal_ngram: usize) -> (r: Self) {
        let mut storage: Vec<usize> = Vec::with_capacity(number_of_ngrams);
        let mut i: usize = 0;
        while i < number_of_ngrams
            invariant
                i <= number_of_ngrams,
                storage@ == Seq::new(i as nat, |j: int| 0usize),
            decreases number_of_ngrams - i,
        {
            storage.push(0);
            i = i + 1;
            proof {
                assert(storage@ =~= Seq::new(i as nat, |j: int| 0usize));
            }
        }
        SharedVec { storage }
    }

    fn set_unchecked(&mut self, ngram: usize, index: usize) {
        self.storage.set(index, ngram);
    }

    fn build(self) -> (r: Self::Storage) {
        self.storage
    }
}

} // verus!
