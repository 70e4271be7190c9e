//! A corpus of words and their n-grams, indexed for fuzzy matching.
use vstd::prelude::*;

use crate::interner::{self, interned, Interner};
use crate::ngram::{has_key, lemma_keys_are_windows, windows, Ngram, NgramBuilder};
use crate::{IdentityKeyTransformer, KeyTransformer, LowerKeyTransformer, Pad};

verus! {

/// No string occurs twice.
pub open spec fn distinct(s: Seq<Seq<char>>) -> bool {
    forall|i: int, j: int| 0 <= i < j < s.len() ==> s[i] != s[j]
}

/// The position of `t` in `s`, when `s` holds it.
pub open spec fn position(s: Seq<Seq<char>>, t: Seq<char>) -> int {
    choose|i: int| 0 <= i < s.len() && s[i] == t
}

/// In a sequence without repetitions, the position of an element is the one index holding it.
pub proof fn lemma_position(s: Seq<Seq<char>>, i: int)
    requires
        distinct(s),
        0 <= i < s.len(),
    ensures
        position(s, s[i]) == i,
{
    let p = position(s, s[i]);
    assert(0 <= p < s.len() && s[p] == s[i]);
    if p < i {
        assert(s[p] != s[i]);
    } else if p > i {
        assert(s[i] != s[p]);
    }
}

/// The text an ngram is built from for key `key`, with the given arity and paddings.
pub open spec fn padded_key(pad_left: Pad, pad_right: Pad, arity: usize, key: Seq<char>) -> Seq<char> {
    pad_left.padding((arity - 1) as nat) + key + pad_right.padding((arity - 1) as nat)
}

/// `n` is the ngram of `key` for the given arity and paddings.
pub open spec fn is_ngram_of(n: Ngram, pad_left: Pad, pad_right: Pad, arity: usize, key: Seq<char>) -> bool {
    &&& n.wf()
    &&& n.arity == arity
    &&& n.text@ == key
    &&& n.text_padded@ == padded_key(pad_left, pad_right, arity, key)
}

/// Holds a corpus of words and their ngrams, allowing fuzzy matches of
/// candidate strings against known strings in the corpus.
#[derive(Debug)]
pub struct Corpus<T = IdentityKeyTransformer> {
    arity: usize,
    pad_left: Pad,
    pad_right: Pad,
    strings: Interner,
    /// The ngram of each word, at the symbol of the word.
    ngrams: Vec<Option<Ngram>>,
    /// The words holding each gram, at the symbol of the gram.
    gram_to_words: Vec<Vec<usize>>,
    key_trans: T,
}

impl<T: KeyTransformer> Corpus<T> {
    /// The strings interned by the corpus, words and grams alike.
    pub closed spec fn strings_view(&self) -> Seq<Seq<char>> {
        interned(self.strings)
    }

    /// The arity of the ngrams of the corpus.
    pub closed spec fn arity_of(&self) -> usize {
        self.arity
    }

    /// The left padding of the ngrams of the corpus.
    pub closed spec fn pad_left_of(&self) -> Pad {
        self.pad_left
    }

    /// The right padding of the ngrams of the corpus.
    pub closed spec fn pad_right_of(&self) -> Pad {
        self.pad_right
    }

    /// The transformation applied to keys before they are added or searched.
    pub closed spec fn key_trans_of(&self) -> T {
        self.key_trans
    }

    /// The ngram stored for word `t`, if any.
    pub closed spec fn word_ngram(&self, t: Seq<char>) -> Option<Ngram> {
        table_word_ngram(interned(self.strings), self.ngrams@, t)
    }

    /// The words recorded for gram `g`, in the order they were recorded.
    pub closed spec fn posting(&self, g: Seq<char>) -> Seq<Seq<char>> {
        table_posting(interned(self.strings), self.gram_to_words@, g)
    }

    /// The number of strings the corpus has interned.
    pub closed spec fn string_count(&self) -> nat {
        interned(self.strings).len()
    }

    /// Whether `text`, once transformed, is a word of the corpus.
    pub open spec fn finds(&self, text: Seq<char>) -> bool {
        self.word_ngram(self.key_trans_of().transformed(text)) is Some
    }

    /// The ngram `key` gets in this corpus.
    pub open spec fn ngram_of_key(&self, n: Ngram, key: Seq<char>) -> bool {
        is_ngram_of(n, self.pad_left_of(), self.pad_right_of(), self.arity_of(), key)
    }

    /// The padded form of the transformation of `text` in this corpus.
    pub open spec fn padded_text(&self, text: Seq<char>) -> Seq<char> {
        padded_key(
            self.pad_left_of(),
            self.pad_right_of(),
            self.arity_of(),
            self.key_trans_of().transformed(text),
        )
    }

    /// The internal tables agree with the interner.
    pub closed spec fn wf(&self) -> bool {
        &&& self.arity >= 1
        &&& tables_wf(interned(self.strings), self.ngrams@, self.gram_to_words@, -1)
    }
}

/// The ngram stored for word `t` in the tables.
pub open spec fn table_word_ngram(s: Seq<Seq<char>>, ngrams: Seq<Option<Ngram>>, t: Seq<char>) -> Option<Ngram> {
    if s.contains(t) {
        ngrams[position(s, t)]
    } else {
        None
    }
}

/// The words recorded for gram `g` in the tables.
pub open spec fn table_posting(s: Seq<Seq<char>>, g2w: Seq<Vec<usize>>, g: Seq<char>) -> Seq<Seq<char>> {
    if s.contains(g) {
        g2w[position(s, g)]@.map_values(|w: usize| s[w as int])
    } else {
        Seq::empty()
    }
}

/// `s0` is a prefix of `s`.
pub open spec fn extends(s: Seq<Seq<char>>, s0: Seq<Seq<char>>) -> bool {
    &&& s0.len() <= s.len()
    &&& forall|q: int| 0 <= q < s0.len() ==> s[q] == s0[q]
}

/// Positions of old strings do not move when an interner grows.
proof fn lemma_position_extends(s: Seq<Seq<char>>, s0: Seq<Seq<char>>, t: Seq<char>)
    requires
        distinct(s),
        extends(s, s0),
        s0.contains(t),
    ensures
        s.contains(t),
        position(s, t) == position(s0, t),
        0 <= position(s0, t) < s0.len(),
        s0[position(s0, t)] == t,
{
    let p = position(s0, t);
    assert(s[p] == s0[p]);
    lemma_position(s, p);
}

/// Some key among the first `i` entries of a gram table equals `x`.
pub open spec fn key_in_prefix(e: Seq<(String, usize)>, i: int, x: Seq<char>) -> bool {
    exists|j: int| 0 <= j < i && #[trigger] e[j].0@ == x
}

impl<T: KeyTransformer> Corpus<T> {
    /// Add the supplied `ngram` to the `Corpus`: it becomes the ngram of the
    /// word `ngram.text`, and that word is recorded once more for each of its
    /// distinct grams.
    pub fn add_ngram(&mut self, ngram: Ngram)
        requires
            old(self).wf(),
            ngram.wf(),
            old(self).string_count() + ngram.grams@.len() < u32::MAX,
        ensures
            final(self).wf(),
            final(self).string_count() <= old(self).string_count() + ngram.grams@.len() + 1,
            extends(final(self).strings_view(), old(self).strings_view()),
            final(self).arity_of() == old(self).arity_of(),
            final(self).pad_left_of() == old(self).pad_left_of(),
            final(self).pad_right_of() == old(self).pad_right_of(),
            final(self).key_trans_of() == old(self).key_trans_of(),
            forall|t: Seq<char>| #[trigger]
                final(self).word_ngram(t) == if t == ngram.text@ {
                    Some(ngram)
                } else {
                    old(self).word_ngram(t)
                },
            forall|g: Seq<char>| #[trigger]
                final(self).posting(g) == if has_key(ngram.grams@, g) {
                    old(self).posting(g).push(ngram.text@)
                } else {
                    old(self).posting(g)
                },
    {
        let ghost s0 = interned(self.strings);
        let ghost n0 = self.ngrams@;
        let ghost p0 = self.gram_to_words@;
        let ghost keys = ngram.grams@;
        let w = intern_slot(
            &mut self.strings,
            &mut self.ngrams,
            &mut self.gram_to_words,
            ngram.text.as_str(),
            Ghost(-1),
        );
        proof {
            let s1 = interned(self.strings);
            assert forall|q: int| 0 <= q < s1.len() implies #[trigger] self.gram_to_words@[q]@ == (
            if q < p0.len() {
                p0[q]@
            } else {
                Seq::<usize>::empty()
            }) + if key_in_prefix(keys, 0, s1[q]) {
                seq![w]
            } else {
                Seq::<usize>::empty()
            } by {
                if q < p0.len() {
                    if !s0.contains(ngram.text@) {
                        assert(self.gram_to_words@.drop_last()[q] == p0[q]);
                    }
                }
            }
        }
        let mut i: usize = 0;
        while i < ngram.grams.len()
            invariant
                ngram.wf(),
                keys == ngram.grams@,
                self.arity == old(self).arity,
                self.arity >= 1,
                self.pad_left == old(self).pad_left,
                self.pad_right == old(self).pad_right,
                self.key_trans == old(self).key_trans,
                0 <= i <= keys.len(),
                s0.len() + keys.len() < u32::MAX,
                tables_wf(interned(self.strings), self.ngrams@, self.gram_to_words@, w as int),
                s0.len() <= interned(self.strings).len() <= s0.len() + 1 + i,
                forall|q: int| 0 <= q < s0.len() ==> interned(self.strings)[q] == s0[q],
                w < interned(self.strings).len(),
                interned(self.strings)[w as int] == ngram.text@,
                forall|q: int|
                    0 <= q < interned(self.strings).len() ==> #[trigger] self.ngrams@[q] == if q
                        < n0.len() {
                        n0[q]
                    } else {
                        None
                    },
                n0.len() == s0.len(),
                p0.len() == s0.len(),
                forall|q: int|
                    0 <= q < interned(self.strings).len() ==> #[trigger] self.gram_to_words@[q]@ == (
                    if q < p0.len() {
                        p0[q]@
                    } else {
                        Seq::<usize>::empty()
                    }) + if key_in_prefix(keys, i as int, interned(self.strings)[q]) {
                        seq![w]
                    } else {
                        Seq::<usize>::empty()
                    },
                forall|j: int| 0 <= j < i ==> interned(self.strings).contains(#[trigger] keys[j].0@),
                forall|q: int|
                    s0.len() <= q < interned(self.strings).len() ==> (interned(self.strings)[q]
                        == ngram.text@ || key_in_prefix(keys, i as int, #[trigger] interned(self.strings)[q])),
            decreases keys.len() - i,
        {
            let ghost sb = interned(self.strings);
            let ghost gb = self.gram_to_words@;
            let ghost nb = self.ngrams@;
            let g = intern_slot(
                &mut self.strings,
                &mut self.ngrams,
                &mut self.gram_to_words,
                ngram.grams[i].0.as_str(),
                Ghost(w as int),
            );
            let ghost gm = self.gram_to_words@;
            push_posting(&mut self.gram_to_words, g, w);
            proof {
                let sa = interned(self.strings);
                let k = keys[i as int].0@;
                assert(sa[g as int] == k);
                assert forall|j: int| 0 <= j < i implies keys[j].0@ != k by {
                    assert(keys[j].0@ != keys[i as int].0@);
                }
                assert(!key_in_prefix(keys, i as int, k));
                assert forall|q: int| 0 <= q < sa.len() implies #[trigger] self.gram_to_words@[q]@ == (
                if q < p0.len() {
                    p0[q]@
                } else {
                    Seq::<usize>::empty()
                }) + if key_in_prefix(keys, i + 1, sa[q]) {
                    seq![w]
                } else {
                    Seq::<usize>::empty()
                } by {
                    if q != g {
                        assert(sa[q] != k) by {
                            if q < g {
                                assert(sa[q] != sa[g as int]);
                            } else {
                                assert(sa[g as int] != sa[q]);
                            }
                        }
                        if key_in_prefix(keys, i + 1, sa[q]) {
                            let j = choose|j: int| 0 <= j < i + 1 && #[trigger] keys[j].0@ == sa[q];
                            assert(j < i);
                        }
                        if key_in_prefix(keys, i as int, sa[q]) {
                            let j = choose|j: int| 0 <= j < i && #[trigger] keys[j].0@ == sa[q];
                            assert(j < i + 1);
                        }
                        if q < sb.len() {
                            assert(sa[q] == sb[q]);
                            assert(gm[q] == gb[q]) by {
                                if !sb.contains(k) {
                                    assert(gm.drop_last()[q] == gb[q]);
                                }
                            }
                        } else {
                            assert(false);
                        }
                    } else {
                        assert(key_in_prefix(keys, i + 1, sa[q])) by {
                            assert(keys[i as int].0@ == sa[q]);
                        }
                        if q < sb.len() {
                            assert(sb[q] == k);
                            assert(gm[q] == gb[q]) by {
                                if !sb.contains(k) {
                                    assert(gm.drop_last()[q] == gb[q]);
                                }
                            }
                        } else {
                            assert(gm[q]@.len() == 0);
                            assert(q >= s0.len());
                        }
                    }
                }
                assert forall|gg: int, kk: int|
                    0 <= gg < sa.len() && 0 <= kk < self.gram_to_words@[gg]@.len() implies {
                        &&& #[trigger] self.gram_to_words@[gg]@[kk] < sa.len()
                        &&& (self.ngrams@[self.gram_to_words@[gg]@[kk] as int] is Some
                            || self.gram_to_words@[gg]@[kk] == w)
                    } by {
                    if gg != g {
                        assert(self.gram_to_words@[gg] == gm[gg]);
                    } else if kk < gm[gg]@.len() {
                        assert(self.gram_to_words@[gg]@[kk] == gm[gg]@[kk]);
                    }
                }
                assert forall|j: int| 0 <= j < i + 1 implies sa.contains(#[trigger] keys[j].0@) by {
                    if j < i {
                        assert(sb.contains(keys[j].0@));
                        let q = choose|q: int| 0 <= q < sb.len() && sb[q] == keys[j].0@;
                        assert(sa[q] == sb[q]);
                    } else {
                        assert(sa[g as int] == keys[j].0@);
                    }
                }
                assert forall|q: int| s0.len() <= q < sa.len() implies (sa[q] == ngram.text@
                    || key_in_prefix(keys, i + 1, #[trigger] sa[q])) by {
                    if q < sb.len() {
                        assert(sa[q] == sb[q]);
                        if key_in_prefix(keys, i as int, sb[q]) {
                            let j = choose|j: int| 0 <= j < i && #[trigger] keys[j].0@ == sb[q];
                            assert(keys[j].0@ == sa[q]);
                        }
                    } else {
                        assert(sa[q] == k);
                        assert(keys[i as int].0@ == sa[q]);
                    }
                }
            }
            i = i + 1;
        }
        let ghost s_end = interned(self.strings);
        let ghost g_end = self.gram_to_words@;
        let ghost n_end = self.ngrams@;
        let ghost text = ngram.text@;
        self.ngrams.set(w, Some(ngram));
        proof {
            let nf = self.ngrams@;
            assert(extends(s_end, s0));
            assert(s0.len() == n0.len());
            assert forall|i: int| 0 <= i < s_end.len() && (#[trigger] nf[i]) is Some implies {
                &&& nf[i].unwrap().wf()
                &&& nf[i].unwrap().text@ == s_end[i]
            } by {
                if i != w {
                    assert(nf[i] == n_end[i]);
                }
            }
            assert forall|gg: int, kk: int|
                0 <= gg < s_end.len() && 0 <= kk < g_end[gg]@.len() implies {
                    &&& #[trigger] g_end[gg]@[kk] < s_end.len()
                    &&& (nf[g_end[gg]@[kk] as int] is Some || g_end[gg]@[kk] == -1)
                } by {
                let x = g_end[gg]@[kk] as int;
                if x != w {
                    assert(nf[x] == n_end[x]);
                }
            }
            assert(tables_wf(s_end, nf, g_end, -1));
            assert forall|t: Seq<char>| #[trigger]
                table_word_ngram(s_end, nf, t) == if t == text {
                    Some(ngram)
                } else {
                    table_word_ngram(s0, n0, t)
                } by {
                if t == text {
                    lemma_position(s_end, w as int);
                } else if s0.contains(t) {
                    lemma_position_extends(s_end, s0, t);
                    let p = position(s0, t);
                    assert(p != w);
                    assert(nf[p] == n_end[p]);
                } else if s_end.contains(t) {
                    let p = position(s_end, t);
                    assert(p != w);
                    assert(nf[p] == n_end[p]);
                    assert(p >= s0.len()) by {
                        if p < s0.len() {
                            assert(s0[p] == t);
                        }
                    }
                }
            }
            assert forall|g: Seq<char>| #[trigger]
                table_posting(s_end, g_end, g) == if has_key(keys, g) {
                    table_posting(s0, p0, g).push(text)
                } else {
                    table_posting(s0, p0, g)
                } by {
                assert(key_in_prefix(keys, keys.len() as int, g) == has_key(keys, g));
                if s0.contains(g) {
                    lemma_position_extends(s_end, s0, g);
                    let p = position(s0, g);
                    let f_end = |x: usize| s_end[x as int];
                    let f0 = |x: usize| s0[x as int];
                    assert(p0[p]@.map_values(f_end) =~= p0[p]@.map_values(f0)) by {
                        assert forall|k: int| 0 <= k < p0[p]@.len() implies p0[p]@[k] < s0.len() by {
                            assert(tables_wf(s0, n0, p0, -1));
                        }
                    }
                    if has_key(keys, g) {
                        assert(g_end[p]@ == p0[p]@ + seq![w]);
                        assert((p0[p]@ + seq![w]).map_values(f_end) =~= p0[p]@.map_values(f_end).push(text));
                    } else {
                        assert(g_end[p]@ =~= p0[p]@);
                    }
                } else if s_end.contains(g) {
                    let p = position(s_end, g);
                    assert(p >= s0.len()) by {
                        if p < s0.len() {
                            assert(s0[p] == g);
                        }
                    }
                    if has_key(keys, g) {
                        assert(g_end[p]@ =~= seq![w]);
                        assert(seq![w].map_values(|x: usize| s_end[x as int]) =~= seq![text]);
                    } else {
                        assert(g_end[p]@ =~= Seq::<usize>::empty());
                    }
                } else {
                    if has_key(keys, g) {
                        let j = choose|j: int| 0 <= j < keys.len() && #[trigger] keys[j].0@ == g;
                        assert(s_end.contains(keys[j].0@));
                    }
                }
            }
        }
    }
}

impl<T: KeyTransformer> Corpus<T> {
    /// The `Ngram` the corpus makes of `text`: its transformed key, with the
    /// corpus arity and paddings. Added texts and search queries both go
    /// through it.
    pub fn query_ngram(&self, text: &str) -> (n: Ngram)
        requires
            self.wf(),
        ensures
            self.ngram_of_key(n, self.key_trans_of().transformed(text@)),
    {
        let new_key = self.key_trans.transform(text);
        NgramBuilder::new(new_key.as_str()).arity(self.arity).pad_left(self.pad_left.copy()).pad_right(
            self.pad_right.copy(),
        ).finish()
    }

    /// Generate an `Ngram` for the supplied `text`, and add it to the
    /// `Corpus` under its transformed key.
    pub fn add_text(&mut self, text: &str)
        requires
            old(self).wf(),
            old(self).string_count() + old(self).padded_text(text@).len() < u32::MAX,
        ensures
            final(self).wf(),
            final(self).string_count() <= old(self).string_count() + old(self).padded_text(text@).len() + 1,
            extends(final(self).strings_view(), old(self).strings_view()),
            final(self).arity_of() == old(self).arity_of(),
            final(self).pad_left_of() == old(self).pad_left_of(),
            final(self).pad_right_of() == old(self).pad_right_of(),
            final(self).key_trans_of() == old(self).key_trans_of(),
            final(self).finds(text@),
            forall|t: Seq<char>| old(self).finds(t) ==> #[trigger] final(self).finds(t),
            ({
                let key = old(self).key_trans_of().transformed(text@);
                &&& final(self).word_ngram(key) matches Some(n) && old(self).ngram_of_key(n, key)
                &&& forall|t: Seq<char>| t != key ==> #[trigger] final(self).word_ngram(t) == old(self).word_ngram(t)
                &&& forall|g: Seq<char>| #[trigger]
                    final(self).posting(g) == if windows(old(self).padded_text(text@), old(self).arity_of() as nat).contains(g) {
                        old(self).posting(g).push(key)
                    } else {
                        old(self).posting(g)
                    }
            }),
    {
        let ngram = self.query_ngram(text);
        proof {
            lemma_keys_are_windows(&ngram, Seq::empty());
            assert forall|g: Seq<char>| has_key(ngram.grams@, g) == ngram.gram_windows().contains(g) by {
                lemma_keys_are_windows(&ngram, g);
            }
        }
        let ghost n = ngram;
        self.add_ngram(ngram);
        proof {
            let key = old(self).key_trans_of().transformed(text@);
            assert(self.word_ngram(key) == Some(n));
        }
    }

    /// If the corpus holds no word.
    pub fn is_empty(&self) -> (r: bool)
        requires
            self.wf(),
        ensures
            r == forall|t: Seq<char>| #[trigger] self.word_ngram(t) is None,
    {
        let ghost s = interned(self.strings);
        let mut i: usize = 0;
        while i < self.ngrams.len()
            invariant
                self.wf(),
                s == interned(self.strings),
                i <= self.ngrams@.len(),
                forall|j: int| 0 <= j < i ==> (#[trigger] self.ngrams@[j]) is None,
            decreases self.ngrams@.len() - i,
        {
            if self.ngrams[i].is_some() {
                proof {
                    lemma_position(s, i as int);
                    assert(self.word_ngram(s[i as int]) is Some);
                }
                return false;
            }
            i = i + 1;
        }
        proof {
            assert forall|t: Seq<char>| #[trigger] self.word_ngram(t) is None by {
                if s.contains(t) {
                    let p = position(s, t);
                    assert(self.ngrams@[p] is None);
                }
            }
        }
        true
    }

    /// Determines whether an exact match exists for the supplied `text` in the
    /// `Corpus` index, after processing it with the `Corpus`'s key
    /// transformation; gives back `text` when it does.
    pub fn key(&self, text: &str) -> (r: Option<String>)
        requires
            self.wf(),
        ensures
            r is Some == self.finds(text@),
            r is Some ==> r.unwrap()@ == text@,
    {
        let transformed = self.key_trans.transform(text);
        match interner::lookup(&self.strings, transformed.as_str()) {
            Some(sym) => {
                proof {
                    lemma_position(interned(self.strings), sym as int);
                }
                if self.ngrams[sym].is_some() {
                    Some(String::from_str(text))
                } else {
                    None
                }
            },
            None => None,
        }
    }
}

/// Growing a list keeps what it represents.
proof fn lemma_represented_grows(before: Seq<&Ngram>, after: Seq<&Ngram>, n: Ngram)
    requires
        before.len() <= after.len(),
        forall|j: int| 0 <= j < before.len() ==> after[j] == before[j],
    ensures
        (exists|j: int| 0 <= j < before.len() && same_ngram(*before[j], n)) ==> (exists|j: int|
            0 <= j < after.len() && same_ngram(*after[j], n)),
{
    if exists|j: int| 0 <= j < before.len() && same_ngram(*before[j], n) {
        let j = choose|j: int| 0 <= j < before.len() && same_ngram(*before[j], n);
        assert(same_ngram(*after[j], n));
    }
}

/// Two ngrams are equal as ngrams: same padded text and same arity.
pub open spec fn same_ngram(a: Ngram, b: Ngram) -> bool {
    a.text_padded@ == b.text_padded@ && a.arity == b.arity
}

impl<T: KeyTransformer> Corpus<T> {
    /// Word `t` is recorded for some gram of `item`.
    pub open spec fn shares_gram(&self, item: &Ngram, t: Seq<char>) -> bool {
        exists|g: Seq<char>| has_key(item.grams@, g) && #[trigger] self.posting(g).contains(t)
    }

    /// `n` is the ngram of a word sharing a gram with `item`.
    pub open spec fn is_candidate(&self, item: &Ngram, n: Ngram) -> bool {
        exists|t: Seq<char>| self.shares_gram(item, t) && #[trigger] self.word_ngram(t) == Some(n)
    }

    /// Some ngram of `r` equals `n` as an ngram.
    pub open spec fn represented(r: Seq<&Ngram>, n: Ngram) -> bool {
        exists|j: int| 0 <= j < r.len() && same_ngram(*r[j], n)
    }

    /// The ngrams of the words sharing at least one gram with `item`, each
    /// ngram once (ngrams with the same padded text and arity count as one):
    /// the candidates of a fuzzy search for `item`.
    pub fn candidates<'a>(&'a self, item: &Ngram) -> (r: Vec<&'a Ngram>)
        requires
            self.wf(),
            item.wf(),
        ensures
            forall|i: int| 0 <= i < r@.len() ==> self.is_candidate(item, *#[trigger] r@[i]),
            forall|i: int, j: int| 0 <= i < j < r@.len() ==> !same_ngram(*r@[i], *r@[j]),
            forall|t: Seq<char>|
                #[trigger] self.shares_gram(item, t) ==> (self.word_ngram(t) matches Some(n)
                    && Self::represented(r@, n)),
    {
        let ghost s = interned(self.strings);
        let ghost keys = item.grams@;
        let mut result: Vec<&'a Ngram> = Vec::new();
        let mut i: usize = 0;
        while i < item.grams.len()
            invariant
                self.wf(),
                item.wf(),
                s == interned(self.strings),
                keys == item.grams@,
                i <= keys.len(),
                forall|j: int| 0 <= j < result@.len() ==> self.is_candidate(item, *#[trigger] result@[j]),
                forall|a: int, b: int| 0 <= a < b < result@.len() ==> !same_ngram(*result@[a], *result@[b]),
                forall|g: Seq<char>, t: Seq<char>|
                    key_in_prefix(keys, i as int, g) && #[trigger] self.posting(g).contains(t) ==> (
                    self.word_ngram(t) matches Some(n) && Self::represented(result@, n)),
            decreases keys.len() - i,
        {
            let ghost g = keys[i as int].0@;
            match interner::lookup(&self.strings, item.grams[i].0.as_str()) {
                Some(sym) => {
                    proof {
                        lemma_position(s, sym as int);
                    }
                    let posting = &self.gram_to_words[sym];
                    let mut k: usize = 0;
                    while k < posting.len()
                        invariant
                            self.wf(),
                            item.wf(),
                            s == interned(self.strings),
                            keys == item.grams@,
                            i < keys.len(),
                            g == keys[i as int].0@,
                            sym < s.len(),
                            s[sym as int] == g,
                            position(s, g) == sym,
                            *posting == self.gram_to_words@[sym as int],
                            k <= posting@.len(),
                            forall|j: int|
                                0 <= j < result@.len() ==> self.is_candidate(item, *#[trigger] result@[j]),
                            forall|a: int, b: int|
                                0 <= a < b < result@.len() ==> !same_ngram(*result@[a], *result@[b]),
                            forall|g2: Seq<char>, t: Seq<char>|
                                key_in_prefix(keys, i as int, g2) && #[trigger] self.posting(g2).contains(
                                    t,
                                ) ==> (self.word_ngram(t) matches Some(n) && Self::represented(
                                    result@,
                                    n,
                                )),
                            forall|kk: int|
                                0 <= kk < k ==> (self.word_ngram(s[#[trigger] posting@[kk] as int]) matches Some(
                                    n,
                                ) && Self::represented(result@, n)),
                        decreases posting@.len() - k,
                    {
                        let w = posting[k];
                        let ghost t = s[w as int];
                        proof {
                            lemma_position(s, w as int);
                            assert(self.posting(g)[k as int] == t);
                            assert(self.posting(g).contains(t));
                            assert(has_key(keys, g)) by {
                                assert(keys[i as int].0@ == g);
                            }
                            assert(self.shares_gram(item, t));
                            assert(self.word_ngram(t) == self.ngrams@[w as int]);
                        }
                        let n = self.ngrams[w].as_ref().unwrap();
                        let ghost before = result@;
                        let mut found = false;
                        let mut m: usize = 0;
                        while m < result.len()
                            invariant_except_break
                                !found,
                            invariant
                                m <= result@.len(),
                                forall|mm: int| 0 <= mm < m ==> !same_ngram(*result@[mm], *n),
                            ensures
                                found ==> Self::represented(result@, *n),
                                !found ==> forall|mm: int|
                                    0 <= mm < result@.len() ==> !same_ngram(*result@[mm], *n),
                            decreases result@.len() - m,
                        {
                            if result[m].arity == n.arity && result[m].text_padded == n.text_padded {
                                found = true;
                                break;
                            }
                            m = m + 1;
                        }
                        if !found {
                            result.push(n);
                            proof {
                                assert(same_ngram(*result@[result@.len() - 1], *n));
                            }
                        }
                        proof {
                            assert(Self::represented(result@, *n));
                            assert forall|jj: int| 0 <= jj < before.len() implies result@[jj] == before[jj] by {}
                            assert forall|j: int|
                                0 <= j < result@.len() implies self.is_candidate(item, *#[trigger] result@[j]) by {
                                if j < before.len() {
                                    assert(result@[j] == before[j]);
                                } else {
                                    assert(self.word_ngram(t) == Some(*result@[j]));
                                }
                            }
                            assert forall|g2: Seq<char>, t2: Seq<char>|
                                key_in_prefix(keys, i as int, g2) && #[trigger] self.posting(g2).contains(
                                    t2,
                                ) implies (self.word_ngram(t2) matches Some(nn) && Self::represented(
                                    result@,
                                    nn,
                                )) by {
                                lemma_represented_grows(before, result@, self.word_ngram(t2).unwrap());
                            }
                            assert forall|kk: int| 0 <= kk < k + 1 implies (self.word_ngram(
                                s[#[trigger] posting@[kk] as int],
                            ) matches Some(nn) && Self::represented(result@, nn)) by {
                                if kk < k {
                                    lemma_represented_grows(
                                        before,
                                        result@,
                                        self.word_ngram(s[posting@[kk] as int]).unwrap(),
                                    );
                                }
                            }
                        }
                        k = k + 1;
                    }
                    proof {
                        assert forall|g2: Seq<char>, t2: Seq<char>|
                            key_in_prefix(keys, i + 1, g2) && #[trigger] self.posting(g2).contains(t2) implies (
                            self.word_ngram(t2) matches Some(nn) && Self::represented(result@, nn)) by {
                            if !key_in_prefix(keys, i as int, g2) {
                                let j = choose|j: int| 0 <= j < i + 1 && #[trigger] keys[j].0@ == g2;
                                assert(j == i);
                                assert(g2 == g);
                                let kk = choose|kk: int| 0 <= kk < self.posting(g).len() && self.posting(g)[kk] == t2;
                                assert(t2 == s[posting@[kk] as int]);
                            }
                        }
                    }
                },
                None => {
                    proof {
                        assert forall|g2: Seq<char>, t2: Seq<char>|
                            key_in_prefix(keys, i + 1, g2) && #[trigger] self.posting(g2).contains(t2) implies (
                            self.word_ngram(t2) matches Some(nn) && Self::represented(result@, nn)) by {
                            if !key_in_prefix(keys, i as int, g2) {
                                let j = choose|j: int| 0 <= j < i + 1 && #[trigger] keys[j].0@ == g2;
                                assert(j == i);
                                assert(self.posting(g2).len() == 0);
                            }
                        }
                    }
                },
            }
            i = i + 1;
        }
        proof {
            assert forall|t: Seq<char>| #[trigger] self.shares_gram(item, t) implies (
            self.word_ngram(t) matches Some(n) && Self::represented(result@, n)) by {
                let g = choose|g: Seq<char>| has_key(item.grams@, g) && #[trigger] self.posting(g).contains(t);
                let j = choose|j: int| 0 <= j < keys.len() && #[trigger] keys[j].0@ == g;
                assert(key_in_prefix(keys, keys.len() as int, g));
            }
        }
        result
    }
}

/// Room in the symbol space that adding `texts` in turn may need: for each
/// text, one symbol for the word and one per character of its padded key.
pub open spec fn text_room<T: KeyTransformer>(
    pad_left: Pad,
    pad_right: Pad,
    arity: usize,
    key_trans: T,
    texts: Seq<Seq<char>>,
) -> nat
    decreases texts.len(),
{
    if texts.len() == 0 {
        0
    } else {
        text_room(pad_left, pad_right, arity, key_trans, texts.drop_last()) + padded_key(
            pad_left,
            pad_right,
            arity,
            key_trans.transformed(texts.last()),
        ).len() + 1
    }
}

/// The words holding gram `g` once `keys` are added in turn: those keys whose
/// padded form has `g` among its windows, in order.
pub open spec fn expected_posting(
    pad_left: Pad,
    pad_right: Pad,
    arity: usize,
    keys: Seq<Seq<char>>,
    g: Seq<char>,
) -> Seq<Seq<char>>
    decreases keys.len(),
{
    if keys.len() == 0 {
        Seq::empty()
    } else {
        let rest = expected_posting(pad_left, pad_right, arity, keys.drop_last(), g);
        if windows(padded_key(pad_left, pad_right, arity, keys.last()), arity as nat).contains(g) {
            rest.push(keys.last())
        } else {
            rest
        }
    }
}

proof fn lemma_room_prefix<T: KeyTransformer>(
    pad_left: Pad,
    pad_right: Pad,
    arity: usize,
    key_trans: T,
    texts: Seq<Seq<char>>,
    k: int,
)
    requires
        0 <= k <= texts.len(),
    ensures
        text_room(pad_left, pad_right, arity, key_trans, texts.take(k)) <= text_room(
            pad_left,
            pad_right,
            arity,
            key_trans,
            texts,
        ),
    decreases texts.len() - k,
{
    if k < texts.len() {
        lemma_room_prefix(pad_left, pad_right, arity, key_trans, texts, k + 1);
        assert(texts.take(k + 1).drop_last() =~= texts.take(k));
    } else {
        assert(texts.take(k) =~= texts);
    }
}

/// Build an ngram `Corpus`, one setting at a time.
#[derive(Debug)]
pub struct CorpusBuilder<T = IdentityKeyTransformer> {
    arity: usize,
    pad_left: Pad,
    pad_right: Pad,
    strings: Interner,
    texts: Vec<usize>,
    key_trans: T,
}

impl<T> CorpusBuilder<T> {
    #[verifier::type_invariant]
    spec fn inv(self) -> bool {
        let s = interned(self.strings);
        &&& self.arity >= 1
        &&& distinct(s)
        &&& s.len() <= u32::MAX
        &&& forall|k: int| 0 <= k < self.texts@.len() ==> #[trigger] self.texts@[k] < s.len()
    }

    /// The arity the corpus will have.
    pub closed spec fn arity_of(self) -> usize {
        self.arity
    }

    /// The left padding the corpus will use.
    pub closed spec fn pad_left_of(self) -> Pad {
        self.pad_left
    }

    /// The right padding the corpus will use.
    pub closed spec fn pad_right_of(self) -> Pad {
        self.pad_right
    }

    /// The key transformation the corpus will use.
    pub closed spec fn key_trans_of(self) -> T {
        self.key_trans
    }

    /// The texts to be added, in order.
    pub closed spec fn texts_of(self) -> Seq<Seq<char>> {
        let s = interned(self.strings);
        self.texts@.map_values(|i: usize| s[i as int])
    }

    /// The number of strings interned so far.
    pub closed spec fn string_count(self) -> nat {
        interned(self.strings).len()
    }

    /// Returns the number of strings interned so far.
    pub fn number_of_strings(&self) -> (r: usize)
        ensures
            r == self.string_count(),
    {
        interner::interner_len(&self.strings)
    }

    /// Set the left padding to build into the `Corpus`.
    pub fn pad_left(self, pad_left: Pad) -> (b: Self)
        ensures
            b.arity_of() == self.arity_of(),
            b.pad_left_of() == pad_left,
            b.pad_right_of() == self.pad_right_of(),
            b.key_trans_of() == self.key_trans_of(),
            b.texts_of() == self.texts_of(),
            b.string_count() == self.string_count(),
    {
        proof {
            use_type_invariant(&self);
        }
        CorpusBuilder { pad_left, ..self }
    }

    /// Set the right padding to build into the `Corpus`.
    pub fn pad_right(self, pad_right: Pad) -> (b: Self)
        ensures
            b.arity_of() == self.arity_of(),
            b.pad_left_of() == self.pad_left_of(),
            b.pad_right_of() == pad_right,
            b.key_trans_of() == self.key_trans_of(),
            b.texts_of() == self.texts_of(),
            b.string_count() == self.string_count(),
    {
        proof {
            use_type_invariant(&self);
        }
        CorpusBuilder { pad_right, ..self }
    }

    /// Set both the left and right padding to build into the `Corpus`.
    pub fn pad_full(self, pad: Pad) -> (b: Self)
        ensures
            b.arity_of() == self.arity_of(),
            b.pad_left_of() == pad,
            b.pad_right_of() == pad,
            b.key_trans_of() == self.key_trans_of(),
            b.texts_of() == self.texts_of(),
            b.string_count() == self.string_count(),
    {
        proof {
            use_type_invariant(&self);
        }
        let left = pad.copy();
        CorpusBuilder { pad_left: left, pad_right: pad, ..self }
    }

    /// Set `arity` (the _n_ in _ngram_), raised to one when smaller.
    pub fn arity(self, arity: usize) -> (b: Self)
        ensures
            b.arity_of() == if arity >= 1 {
                arity
            } else {
                1
            },
            b.pad_left_of() == self.pad_left_of(),
            b.pad_right_of() == self.pad_right_of(),
            b.key_trans_of() == self.key_trans_of(),
            b.texts_of() == self.texts_of(),
            b.string_count() == self.string_count(),
    {
        proof {
            use_type_invariant(&self);
        }
        let arity = if arity >= 1 {
            arity
        } else {
            1
        };
        CorpusBuilder { arity, ..self }
    }

    /// Queue the given strings to be added to the `Corpus`.
    pub fn fill(self, iterable: Vec<&str>) -> (b: Self)
        requires
            self.string_count() + iterable@.len() <= u32::MAX,
        ensures
            b.arity_of() == self.arity_of(),
            b.pad_left_of() == self.pad_left_of(),
            b.pad_right_of() == self.pad_right_of(),
            b.key_trans_of() == self.key_trans_of(),
            b.texts_of() == self.texts_of() + iterable@.map_values(|t: &str| t@),
            b.string_count() <= self.string_count() + iterable@.len(),
    {
        proof {
            use_type_invariant(&self);
        }
        let CorpusBuilder { arity, pad_left, pad_right, mut strings, mut texts, key_trans } = self;
        let ghost s0 = interned(strings);
        let ghost t0 = texts@;
        let mut i: usize = 0;
        while i < iterable.len()
            invariant
                i <= iterable@.len(),
                s0.len() + iterable@.len() <= u32::MAX,
                distinct(interned(strings)),
                extends(interned(strings), s0),
                interned(strings).len() <= s0.len() + i,
                texts@.len() == t0.len() + i,
                forall|k: int| 0 <= k < texts@.len() ==> #[trigger] texts@[k] < interned(strings).len(),
                forall|k: int| 0 <= k < t0.len() ==> texts@[k] == t0[k],
                forall|k: int| 0 <= k < t0.len() ==> #[trigger] t0[k] < s0.len(),
                forall|k: int|
                    0 <= k < i ==> interned(strings)[#[trigger] texts@[t0.len() + k] as int]
                        == iterable@[k]@,
            decreases iterable@.len() - i,
        {
            let ghost sb = interned(strings);
            let sym = interner::intern(&mut strings, iterable[i]);
            texts.push(sym);
            proof {
                let sa = interned(strings);
                if !sb.contains(iterable@[i as int]@) {
                    assert forall|x: int, y: int| 0 <= x < y < sa.len() implies sa[x] != sa[y] by {
                        if y == sb.len() {
                            assert(sa[x] == sb[x]);
                            if sa[x] == sa[y] {
                                assert(sb.contains(sa[y]));
                            }
                        } else {
                            assert(sa[x] == sb[x] && sa[y] == sb[y]);
                        }
                    }
                }
                assert forall|k: int| 0 <= k < i + 1 implies interned(strings)[#[trigger] texts@[t0.len()
                    + k] as int] == iterable@[k]@ by {
                    if k < i {
                        assert(texts@[t0.len() + k] < sb.len());
                        assert(sa[texts@[t0.len() + k] as int] == sb[texts@[t0.len() + k] as int]);
                    }
                }
            }
            i = i + 1;
        }
        let b = CorpusBuilder { arity, pad_left, pad_right, strings, texts, key_trans };
        proof {
            let s = interned(strings);
            assert(b.texts_of() =~= t0.map_values(|k: usize| s0[k as int]) + iterable@.map_values(
                |t: &str| t@,
            )) by {
                let lhs = b.texts_of();
                let rhs = t0.map_values(|k: usize| s0[k as int]) + iterable@.map_values(|t: &str| t@);
                assert(lhs.len() == rhs.len());
                assert forall|k: int| 0 <= k < lhs.len() implies lhs[k] == rhs[k] by {
                    if k < t0.len() {
                        assert(texts@[k] == t0[k]);
                        assert(t0[k] < s0.len());
                        assert(s[t0[k] as int] == s0[t0[k] as int]);
                    } else {
                        let j = k - t0.len();
                        assert(s[texts@[t0.len() + j] as int] == iterable@[j]@);
                    }
                }
            }
        }
        b
    }

    /// Use `key_trans` to transform all strings added to the `Corpus`, and the
    /// searches on it.
    pub fn key_trans<U>(self, key_trans: U) -> (b: CorpusBuilder<U>)
        ensures
            b.arity_of() == self.arity_of(),
            b.pad_left_of() == self.pad_left_of(),
            b.pad_right_of() == self.pad_right_of(),
            b.key_trans_of() == key_trans,
            b.texts_of() == self.texts_of(),
            b.string_count() == self.string_count(),
    {
        proof {
            use_type_invariant(&self);
        }
        let CorpusBuilder { arity, pad_left, pad_right, strings, texts, key_trans: _ } = self;
        CorpusBuilder { arity, pad_left, pad_right, strings, texts, key_trans }
    }

    /// Lowercase all keys added to the `Corpus`, and the searches on it.
    pub fn case_insensitive(self) -> (b: CorpusBuilder<LowerKeyTransformer>)
        ensures
            b.arity_of() == self.arity_of(),
            b.pad_left_of() == self.pad_left_of(),
            b.pad_right_of() == self.pad_right_of(),
            b.texts_of() == self.texts_of(),
            b.string_count() == self.string_count(),
    {
        self.key_trans(LowerKeyTransformer)
    }
}

impl<T: KeyTransformer> CorpusBuilder<T> {
    /// The keys the queued texts become.
    pub open spec fn keys_of(self) -> Seq<Seq<char>> {
        self.texts_of().map_values(|t: Seq<char>| self.key_trans_of().transformed(t))
    }

    /// Yield a `Corpus` holding the queued texts, added in turn with the
    /// settings of this builder.
    pub fn finish(self) -> (c: Corpus<T>)
        requires
            self.string_count() + text_room(
                self.pad_left_of(),
                self.pad_right_of(),
                self.arity_of(),
                self.key_trans_of(),
                self.texts_of(),
            ) < u32::MAX,
        ensures
            c.wf(),
            c.arity_of() == self.arity_of(),
            c.pad_left_of() == self.pad_left_of(),
            c.pad_right_of() == self.pad_right_of(),
            c.key_trans_of() == self.key_trans_of(),
            forall|t: Seq<char>| #[trigger] c.word_ngram(t) is Some == self.keys_of().contains(t),
            forall|t: Seq<char>| #[trigger] c.word_ngram(t) matches Some(n) ==> c.ngram_of_key(n, t),
            forall|i: int| 0 <= i < self.texts_of().len() ==> c.finds(#[trigger] self.texts_of()[i]),
            forall|g: Seq<char>|
                #[trigger] c.posting(g) == expected_posting(
                    self.pad_left_of(),
                    self.pad_right_of(),
                    self.arity_of(),
                    self.keys_of(),
                    g,
                ),
    {
        proof {
            use_type_invariant(&self);
        }
        let ghost texts_view = self.texts_of();
        let ghost keys = self.keys_of();
        let ghost room = text_room(self.pad_left, self.pad_right, self.arity, self.key_trans, texts_view);
        let CorpusBuilder { arity, pad_left, pad_right, strings, texts, key_trans } = self;
        let ghost s0 = interned(strings);
        let n_strings = interner::interner_len(&strings);
        let mut ngrams: Vec<Option<Ngram>> = Vec::new();
        let mut gram_to_words: Vec<Vec<usize>> = Vec::new();
        let mut j: usize = 0;
        while j < n_strings
            invariant
                j <= n_strings,
                ngrams@.len() == j,
                gram_to_words@.len() == j,
                forall|q: int| 0 <= q < j ==> (#[trigger] ngrams@[q]) is None,
                forall|q: int| 0 <= q < j ==> (#[trigger] gram_to_words@[q])@.len() == 0,
            decreases n_strings - j,
        {
            ngrams.push(None);
            gram_to_words.push(Vec::new());
            j = j + 1;
        }
        let mut corpus = Corpus { arity, pad_left, pad_right, strings, ngrams, gram_to_words, key_trans };
        proof {
            assert forall|t: Seq<char>| #[trigger] corpus.word_ngram(t) is None by {
                if s0.contains(t) {
                    let p = position(s0, t);
                    assert(corpus.ngrams@[p] is None);
                }
            }
            assert forall|g: Seq<char>| #[trigger] corpus.posting(g) == Seq::<Seq<char>>::empty() by {
                if s0.contains(g) {
                    let p = position(s0, g);
                    assert(corpus.gram_to_words@[p]@.len() == 0);
                    assert(corpus.posting(g) =~= Seq::<Seq<char>>::empty());
                }
            }
            assert(keys.take(0) =~= Seq::<Seq<char>>::empty());
            assert(texts_view.take(0) =~= Seq::<Seq<char>>::empty());
        }
        let mut k: usize = 0;
        while k < texts.len()
            invariant
                corpus.wf(),
                corpus.arity == arity,
                corpus.pad_left == pad_left,
                corpus.pad_right == pad_right,
                corpus.key_trans == key_trans,
                k <= texts@.len(),
                texts_view == texts@.map_values(|i: usize| s0[i as int]),
                keys == texts_view.map_values(|t: Seq<char>| key_trans.transformed(t)),
                forall|q: int| 0 <= q < texts@.len() ==> #[trigger] texts@[q] < s0.len(),
                s0.len() <= u32::MAX,
                extends(interned(corpus.strings), s0),
                room == text_room(pad_left, pad_right, arity, key_trans, texts_view),
                s0.len() + room < u32::MAX,
                corpus.string_count() <= s0.len() + text_room(
                    pad_left,
                    pad_right,
                    arity,
                    key_trans,
                    texts_view.take(k as int),
                ),
                forall|t: Seq<char>| #[trigger]
                    corpus.word_ngram(t) is Some == keys.take(k as int).contains(t),
                forall|t: Seq<char>| #[trigger]
                    corpus.word_ngram(t) matches Some(n) ==> corpus.ngram_of_key(n, t),
                forall|g: Seq<char>| #[trigger]
                    corpus.posting(g) == expected_posting(
                        pad_left,
                        pad_right,
                        arity,
                        keys.take(k as int),
                        g,
                    ),
            decreases texts@.len() - k,
        {
            let sym = texts[k];
            proof {
                assert(sym < s0.len());
                assert(interned(corpus.strings)[sym as int] == s0[sym as int]);
            }
            let owned = interner::resolve(&corpus.strings, sym);
            match owned {
                Some(owned) => {
                    let ghost before = corpus;
                    let ghost text = owned@;
                    proof {
                        assert(text == texts_view[k as int]);
                        lemma_room_prefix(pad_left, pad_right, arity, key_trans, texts_view, k + 1);
                        assert(texts_view.take(k + 1).drop_last() =~= texts_view.take(k as int));
                    }
                    corpus.add_text(owned.as_str());
                    proof {
                        let key = key_trans.transformed(text);
                        assert(keys[k as int] == key);
                        assert(keys.take(k + 1).drop_last() =~= keys.take(k as int));
                        assert(keys.take(k + 1).last() == key);
                        assert forall|t: Seq<char>| #[trigger]
                            corpus.word_ngram(t) is Some == keys.take(k + 1).contains(t) by {
                            if t == key {
                                assert(keys.take(k + 1)[k as int] == t);
                            } else {
                                if keys.take(k + 1).contains(t) {
                                    let q = choose|q: int| 0 <= q < k + 1 && #[trigger] keys.take(k + 1)[q] == t;
                                    assert(keys.take(k as int)[q] == t);
                                }
                                if keys.take(k as int).contains(t) {
                                    let q = choose|q: int| 0 <= q < k && #[trigger] keys.take(k as int)[q] == t;
                                    assert(keys.take(k + 1)[q] == t);
                                }
                            }
                        }
                        assert forall|t: Seq<char>| #[trigger]
                            corpus.word_ngram(t) matches Some(n) ==> corpus.ngram_of_key(n, t) by {
                            if t != key {
                                assert(corpus.word_ngram(t) == before.word_ngram(t));
                            }
                        }
                        assert forall|g: Seq<char>| #[trigger]
                            corpus.posting(g) == expected_posting(
                                pad_left,
                                pad_right,
                                arity,
                                keys.take(k + 1),
                                g,
                            ) by {
                            assert(before.padded_text(text) == padded_key(pad_left, pad_right, arity, key));
                        }
                    }
                },
                None => {
                    proof {
                        assert(false);
                    }
                },
            }
            k = k + 1;
        }
        proof {
            assert(keys.take(k as int) =~= keys);
            assert forall|i: int| 0 <= i < texts_view.len() implies corpus.finds(#[trigger] texts_view[i]) by {
                assert(keys[i] == corpus.key_trans_of().transformed(texts_view[i]));
                assert(keys.contains(keys[i]));
            }
        }
        corpus
    }
}

impl CorpusBuilder<IdentityKeyTransformer> {
    /// A builder with arity 2, padding `Auto` on both sides, no text and no
    /// key transformation.
    pub fn new() -> (b: Self)
        ensures
            b.arity_of() == 2,
            b.pad_left_of() == Pad::Auto,
            b.pad_right_of() == Pad::Auto,
            b.texts_of() == Seq::<Seq<char>>::empty(),
            b.string_count() == 0,
    {
        let b = CorpusBuilder {
            arity: 2,
            pad_left: Pad::Auto,
            pad_right: Pad::Auto,
            strings: interner::interner_new(),
            texts: Vec::new(),
            key_trans: IdentityKeyTransformer,
        };
        assert(b.texts_of() =~= Seq::<Seq<char>>::empty());
        b
    }
}

impl Default for CorpusBuilder<IdentityKeyTransformer> {
    /// Same as `CorpusBuilder::new`.
    fn default() -> (b: Self)
        ensures
            b.arity_of() == 2,
            b.pad_left_of() == Pad::Auto,
            b.pad_right_of() == Pad::Auto,
            b.texts_of() == Seq::<Seq<char>>::empty(),
            b.string_count() == 0,
    {
        Self::new()
    }
}

/// The word and gram tables have one slot per interned string, every stored
/// ngram is well formed and sits at the symbol of its text, and every word
/// recorded for a gram is an interned string with an ngram, except possibly
/// the symbol `pending`.
pub open spec fn tables_wf(
    s: Seq<Seq<char>>,
    ngrams: Seq<Option<Ngram>>,
    g2w: Seq<Vec<usize>>,
    pending: int,
) -> bool {
    &&& distinct(s)
    &&& s.len() <= u32::MAX
    &&& ngrams.len() == s.len()
    &&& g2w.len() == s.len()
    &&& forall|i: int|
        0 <= i < s.len() && (#[trigger] ngrams[i]) is Some ==> {
            &&& ngrams[i].unwrap().wf()
            &&& ngrams[i].unwrap().text@ == s[i]
        }
    &&& forall|g: int, k: int|
        0 <= g < s.len() && 0 <= k < g2w[g]@.len() ==> {
            &&& #[trigger] g2w[g]@[k] < s.len()
            &&& (ngrams[g2w[g]@[k] as int] is Some || g2w[g]@[k] == pending)
        }
}

/// Interns `s`, growing the tables so that they keep one slot per string.
fn intern_slot(
    strings: &mut Interner,
    ngrams: &mut Vec<Option<Ngram>>,
    g2w: &mut Vec<Vec<usize>>,
    s: &str,
    Ghost(pending): Ghost<int>,
) -> (sym: usize)
    requires
        tables_wf(interned(*old(strings)), old(ngrams)@, old(g2w)@, pending),
        interned(*old(strings)).contains(s@) || interned(*old(strings)).len() < u32::MAX,
    ensures
        tables_wf(interned(*final(strings)), final(ngrams)@, final(g2w)@, pending),
        sym < interned(*final(strings)).len(),
        interned(*final(strings))[sym as int] == s@,
        interned(*old(strings)).contains(s@) ==> {
            &&& interned(*final(strings)) == interned(*old(strings))
            &&& final(ngrams)@ == old(ngrams)@
            &&& final(g2w)@ == old(g2w)@
        },
        !interned(*old(strings)).contains(s@) ==> {
            &&& interned(*final(strings)) == interned(*old(strings)).push(s@)
            &&& final(ngrams)@ == old(ngrams)@.push(None)
            &&& final(g2w)@.drop_last() == old(g2w)@
            &&& final(g2w)@.last()@.len() == 0
            &&& sym == interned(*old(strings)).len()
        },
{
    let ghost before = interned(*strings);
    let sym = interner::intern(strings, s);
    if sym == ngrams.len() {
        ngrams.push(None);
        g2w.push(Vec::new());
        proof {
            let after = interned(*strings);
            assert(after == before.push(s@));
            assert forall|i: int, j: int| 0 <= i < j < after.len() implies after[i] != after[j] by {
                if j == before.len() {
                    assert(after[i] == before[i]);
                    assert(!before.contains(s@));
                    if after[i] == after[j] {
                        assert(before[i] == s@);
                    }
                } else {
                    assert(after[i] == before[i] && after[j] == before[j]);
                }
            }
            assert forall|g: int, k: int|
                0 <= g < after.len() && 0 <= k < g2w@[g]@.len() implies {
                    &&& #[trigger] g2w@[g]@[k] < after.len()
                    &&& (ngrams@[g2w@[g]@[k] as int] is Some || g2w@[g]@[k] == pending)
                } by {
                if g < before.len() {
                    assert(g2w@[g] == old(g2w)@[g]);
                    assert(ngrams@[g2w@[g]@[k] as int] == old(ngrams)@[g2w@[g]@[k] as int]);
                }
            }
            assert forall|i: int| 0 <= i < after.len() && (#[trigger] ngrams@[i]) is Some implies {
                &&& ngrams@[i].unwrap().wf()
                &&& ngrams@[i].unwrap().text@ == after[i]
            } by {
                assert(ngrams@[i] == old(ngrams)@[i]);
                assert(after[i] == before[i]);
            }
            assert(g2w@.drop_last() =~= old(g2w)@);
        }
    } else {
        proof {
            if !before.contains(s@) {
                assert(sym == before.len());
            }
        }
    }
    sym
}

/// Records `w` as one more word holding the gram at symbol `g`.
fn push_posting(g2w: &mut Vec<Vec<usize>>, g: usize, w: usize)
    requires
        g < old(g2w)@.len(),
    ensures
        final(g2w)@.len() == old(g2w)@.len(),
        final(g2w)@[g as int]@ == old(g2w)@[g as int]@.push(w),
        forall|j: int| 0 <= j < old(g2w)@.len() && j != g ==> final(g2w)@[j] == old(g2w)@[j],
{
    let mut list: Vec<usize> = Vec::new();
    std::mem::swap(&mut list, &mut g2w[g]);
    list.push(w);
    g2w.set(g, list);
}

} // verus!
