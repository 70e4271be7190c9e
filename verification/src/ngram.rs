//! A word together with the counts of its character n-grams.
use vstd::prelude::*;

use crate::text::{self, byte_len, push_char, str_eq};
use crate::Pad;

verus! {

/// The windows of `n` consecutive characters of `s`, from left to right.
/// There are none when `s` is shorter than `n`.
pub open spec fn windows(s: Seq<char>, n: nat) -> Seq<Seq<char>> {
    if n == 0 || s.len() < n {
        Seq::empty()
    } else {
        Seq::new((s.len() - n + 1) as nat, |i: int| s.subrange(i, i + n))
    }
}

/// How many times `g` occurs in `ws`.
pub open spec fn count_of(ws: Seq<Seq<char>>, g: Seq<char>) -> nat
    decreases ws.len(),
{
    if ws.len() == 0 {
        0
    } else {
        count_of(ws.drop_last(), g) + if ws.last() == g {
            1nat
        } else {
            0nat
        }
    }
}

/// The sum of the counts of a table of grams.
pub open spec fn sum_counts(entries: Seq<(String, usize)>) -> nat
    decreases entries.len(),
{
    if entries.len() == 0 {
        0
    } else {
        sum_counts(entries.drop_last()) + entries.last().1 as nat
    }
}

/// Sum, over the grams of a table, of the smaller of the gram's count in the
/// table and its number of occurrences in `ws`.
pub open spec fn shared_count(entries: Seq<(String, usize)>, ws: Seq<Seq<char>>) -> nat
    decreases entries.len(),
{
    if entries.len() == 0 {
        0
    } else {
        shared_count(entries.drop_last(), ws) + min_nat(
            entries.last().1 as nat,
            count_of(ws, entries.last().0@),
        )
    }
}

/// The smaller of two naturals.
pub open spec fn min_nat(a: nat, b: nat) -> nat {
    if a <= b {
        a
    } else {
        b
    }
}

/// Some entry of the table has key `g`.
pub open spec fn has_key(entries: Seq<(String, usize)>, g: Seq<char>) -> bool {
    exists|i: int| 0 <= i < entries.len() && #[trigger] entries[i].0@ == g
}

/// `entries` lists each distinct window of `ws` once, with its number of occurrences.
pub open spec fn tabulates(entries: Seq<(String, usize)>, ws: Seq<Seq<char>>) -> bool {
    &&& forall|i: int| 0 <= i < entries.len() ==> #[trigger] entries[i].1 == count_of(ws, entries[i].0@)
    &&& forall|i: int| 0 <= i < entries.len() ==> #[trigger] entries[i].1 >= 1
    &&& forall|i: int, j: int| 0 <= i < j < entries.len() ==> entries[i].0@ != entries[j].0@
    &&& forall|k: int| 0 <= k < ws.len() ==> has_key(entries, #[trigger] ws[k])
    &&& sum_counts(entries) == ws.len()
}

/// Stores a "word", with all its n-grams. The "arity" member determines the
/// value of "n" used in generating the n-grams.
#[derive(Debug, Clone)]
pub struct Ngram {
    /// The "symbol size" for the ngrams
    pub arity: usize,
    /// The text for which ngrams were generated
    pub text: String,
    /// The text for which ngrams were generated, with the padding
    /// used for generating the ngrams
    pub text_padded: String,
    /// Each distinct gram of the padded text, with how many times it appears
    pub grams: Vec<(String, usize)>,
}

impl PartialEq for Ngram {
    /// Two ngrams are equal when they have the same padded text and arity.
    fn eq(&self, other: &Self) -> (r: bool) {
        self.text_padded == other.text_padded && self.arity == other.arity
    }
}

impl vstd::std_specs::cmp::PartialEqSpecImpl for Ngram {
    open spec fn obeys_eq_spec() -> bool {
        true
    }

    open spec fn eq_spec(&self, other: &Self) -> bool {
        self.text_padded@ == other.text_padded@ && self.arity == other.arity
    }
}

impl Eq for Ngram {
}

impl Ngram {
    /// The windows of the padded text, one per gram occurrence.
    pub open spec fn gram_windows(&self) -> Seq<Seq<char>> {
        windows(self.text_padded@, self.arity as nat)
    }

    /// How many times `g` appears among the grams of the padded text.
    pub open spec fn gram_count(&self, g: Seq<char>) -> nat {
        count_of(self.gram_windows(), g)
    }

    /// The gram table matches the padded text and arity.
    pub open spec fn wf(&self) -> bool {
        &&& self.arity >= 1
        &&& self.text_padded@.len() <= isize::MAX
        &&& tabulates(self.grams@, self.gram_windows())
    }

    /// Number of grams shared with `other`: for each distinct gram of `self`,
    /// the smaller of its two counts.
    pub open spec fn samegrams(&self, other: &Ngram) -> nat {
        shared_count(self.grams@, other.gram_windows())
    }

    /// Total number of grams of both, counting the shared ones once; zero when
    /// either padded text is shorter than the arity of `self`.
    pub open spec fn allgrams(&self, other: &Ngram) -> nat {
        let a = self.arity as int;
        let la = self.text_padded@.len() as int;
        let lb = other.text_padded@.len() as int;
        if la < a || lb < a {
            0
        } else {
            (la + lb - 2 * a + 2 - self.samegrams(other)) as nat
        }
    }

    /// Returns the count of symmetrically differing grams between this
    /// `Ngram` and the `other` `Ngram`.
    pub fn count_diffgrams(&self, other: &Ngram) -> (r: usize)
        requires
            self.wf(),
            other.wf(),
        ensures
            r == self.allgrams(other) - self.samegrams(other),
            self.text_padded@.len() >= self.arity && other.text_padded@.len() >= self.arity ==> r + 2
                * self.samegrams(other) == windows(self.text_padded@, self.arity as nat).len() + windows(
                other.text_padded@,
                self.arity as nat,
            ).len(),
    {
        let all = self.count_allgrams(other);
        let same = self.count_samegrams(other);
        proof {
            lemma_samegrams_bounded(self, other);
            lemma_samegrams_le_other(self, other);
            if self.text_padded@.len() >= self.arity && other.text_padded@.len() >= self.arity {
                lemma_allgrams_counts_both(self, other);
            }
        }
        all - same
    }

    /// Returns the total number of unique grams between this
    /// `Ngram` and the `other` `Ngram`.
    pub fn count_allgrams(&self, other: &Ngram) -> (r: usize)
        requires
            self.wf(),
            other.wf(),
        ensures
            r == self.allgrams(other),
            self.text_padded@.len() >= self.arity && other.text_padded@.len() >= self.arity ==> r
                + self.samegrams(other) == windows(self.text_padded@, self.arity as nat).len() + windows(
                other.text_padded@,
                self.arity as nat,
            ).len(),
            self.text_padded@.len() < self.arity || other.text_padded@.len() < self.arity ==> r == 0,
    {
        let self_length = self.text_padded.as_str().unicode_len();
        let other_length = other.text_padded.as_str().unicode_len();
        if self_length < self.arity || other_length < self.arity {
            0
        } else {
            let same = self.count_samegrams(other);
            proof {
                lemma_samegrams_bounded(self, other);
            }
            proof {
                lemma_allgrams_counts_both(self, other);
            }
            self_length + other_length - (2 * self.arity) + 2 - same
        }
    }

    /// Returns a count of grams that are common between this
    /// `Ngram` and the `other` `Ngram`.
    pub fn count_samegrams(&self, other: &Ngram) -> (r: usize)
        requires
            self.wf(),
            other.wf(),
        ensures
            r == self.samegrams(other),
    {
        let mut sames: usize = 0;
        let mut i: usize = 0;
        while i < self.grams.len()
            invariant
                self.wf(),
                other.wf(),
                i <= self.grams@.len(),
                sames == shared_count(self.grams@.take(i as int), other.gram_windows()),
            decreases self.grams@.len() - i,
        {
            let selfcount = self.grams[i].1;
            let othercount = other.count_gram(self.grams[i].0.as_str());
            proof {
                assert(self.grams@.take(i + 1).drop_last() =~= self.grams@.take(i as int));
                lemma_shared_le_sum(self.grams@.take(i + 1), other.gram_windows());
                lemma_sum_prefix_le(self.grams@, i + 1);
                lemma_sum_le_windows(self);
            }
            sames = sames + if selfcount <= othercount {
                selfcount
            } else {
                othercount
            };
            i = i + 1;
        }
        assert(self.grams@.take(i as int) =~= self.grams@);
        sames
    }

    /// Return the number of times a particular `gram` appears in the `Ngram`
    /// text.
    pub fn count_gram(&self, gram: &str) -> (r: usize)
        requires
            self.wf(),
        ensures
            r == self.gram_count(gram@),
    {
        let mut i: usize = 0;
        while i < self.grams.len()
            invariant
                self.wf(),
                i <= self.grams@.len(),
                forall|j: int| 0 <= j < i ==> self.grams@[j].0@ != gram@,
            decreases self.grams@.len() - i,
        {
            if str_eq(self.grams[i].0.as_str(), gram) {
                return self.grams[i].1;
            }
            i = i + 1;
        }
        proof {
            lemma_absent_count_zero(self.gram_windows(), gram@, self.grams@);
        }
        0
    }

    /// Return the total number of grams generated for the `Ngram` text.
    pub fn count_grams(&self) -> (r: usize)
        requires
            self.wf(),
        ensures
            r == self.gram_windows().len(),
    {
        let mut total: usize = 0;
        let mut i: usize = 0;
        while i < self.grams.len()
            invariant
                self.wf(),
                i <= self.grams@.len(),
                total == sum_counts(self.grams@.take(i as int)),
            decreases self.grams@.len() - i,
        {
            proof {
                assert(self.grams@.take(i + 1).drop_last() =~= self.grams@.take(i as int));
                lemma_sum_prefix_le(self.grams@, i + 1);
                lemma_sum_le_windows(self);
            }
            total = total + self.grams[i].1;
            i = i + 1;
        }
        assert(self.grams@.take(i as int) =~= self.grams@);
        total
    }

    /// If the set of grams is empty.
    pub fn is_empty(&self) -> (r: bool)
        requires
            self.wf(),
        ensures
            r == (self.gram_windows().len() == 0),
    {
        self.count_grams() == 0
    }

    /// If the set of grams contains the specified `gram`.
    pub fn contains(&self, gram: &str) -> (r: bool)
        requires
            self.wf(),
        ensures
            r == self.gram_windows().contains(gram@),
    {
        proof {
            lemma_count_positive_iff_contains(self.gram_windows(), gram@);
        }
        self.count_gram(gram) > 0
    }
}

/// Builds the gram table of `chars` for windows of `arity` characters.
fn tabulate_grams(chars: &Vec<char>, arity: usize) -> (entries: Vec<(String, usize)>)
    requires
        arity >= 1,
    ensures
        tabulates(entries@, windows(chars@, arity as nat)),
{
    let ghost ws = windows(chars@, arity as nat);
    let mut entries: Vec<(String, usize)> = Vec::new();
    if arity > chars.len() {
        proof {
            lemma_tabulates_empty(ws);
        }
        return entries;
    }
    let n_windows = chars.len() - arity + 1;
    let mut k: usize = 0;
    proof {
        assert(ws.take(0) =~= Seq::<Seq<char>>::empty());
        lemma_tabulates_empty(ws.take(0));
    }
    while k < n_windows
        invariant
            arity >= 1,
            arity <= chars@.len(),
            n_windows == chars@.len() - arity + 1,
            ws == windows(chars@, arity as nat),
            ws.len() == n_windows,
            k <= n_windows,
            tabulates(entries@, ws.take(k as int)),
        decreases n_windows - k,
    {
        let mut gram = String::new();
        let mut t: usize = 0;
        while t < arity
            invariant
                t <= arity,
                arity >= 1,
                arity <= chars@.len(),
                k + arity <= chars@.len(),
                k < n_windows,
                n_windows == chars@.len() - arity + 1,
                gram@ == chars@.subrange(k as int, k + t),
            decreases arity - t,
        {
            assert(k + t < chars@.len() && chars@.len() == chars.len());
            let c = chars[k + t];
            push_char(&mut gram, c);
            t = t + 1;
            assert(gram@ =~= chars@.subrange(k as int, k + t));
        }
        assert(gram@ == ws[k as int]);
        let ghost prev = ws.take(k as int);
        let ghost next = ws.take(k + 1);
        assert(next.drop_last() =~= prev);
        assert(next.last() == gram@);
        let mut j: usize = 0;
        let mut found = false;
        while j < entries.len()
            invariant_except_break
                !found,
            invariant
                j <= entries@.len(),
                forall|m: int| 0 <= m < j ==> entries@[m].0@ != gram@,
            ensures
                found ==> j < entries@.len() && entries@[j as int].0@ == gram@,
                !found ==> j == entries@.len(),
            decreases entries@.len() - j,
        {
            if entries[j].0 == gram {
                found = true;
                break;
            }
            j = j + 1;
        }
        if found {
            proof {
                lemma_sum_le_len(entries@, prev);
                lemma_entry_le_sum(entries@, j as int);
            }
            let old_entries = Ghost(entries@);
            let c = entries[j].1;
            entries.set(j, (gram, c + 1));
            assert(entries@ =~= old_entries@.update(j as int, entries@[j as int]));
            proof {
                lemma_sum_update(old_entries@, j as int, entries@[j as int]);
                lemma_tabulates_step_existing(old_entries@, entries@, prev, next, j as int);
            }
        } else {
            let old_entries = Ghost(entries@);
            entries.push((gram, 1));
            assert(entries@.drop_last() =~= old_entries@);
            proof {
                lemma_tabulates_step_new(old_entries@, entries@, prev, next);
            }
        }
        k = k + 1;
    }
    assert(ws.take(k as int) =~= ws);
    entries
}

/// Build an `Ngram`, one setting at a time.
#[derive(Debug)]
pub struct NgramBuilder {
    arity: usize,
    pad_left: Pad,
    pad_right: Pad,
    text: String,
}

impl NgramBuilder {
    #[verifier::type_invariant]
    spec fn inv(self) -> bool {
        self.arity >= 1
    }

    /// The arity the `Ngram` will have.
    pub closed spec fn arity_of(self) -> usize {
        self.arity
    }

    /// The left padding the `Ngram` will use.
    pub closed spec fn pad_left_of(self) -> Pad {
        self.pad_left
    }

    /// The right padding the `Ngram` will use.
    pub closed spec fn pad_right_of(self) -> Pad {
        self.pad_right
    }

    /// The text the `Ngram` will be built from.
    pub closed spec fn text_of(self) -> Seq<char> {
        self.text@
    }

    /// Initialize a new instance of an `NgramBuilder`, with a default `arity`
    /// of 2, padding set to `Auto`, for the given `text`.
    pub fn new(text: &str) -> (b: Self)
        ensures
            b.arity_of() == 2,
            b.pad_left_of() == Pad::Auto,
            b.pad_right_of() == Pad::Auto,
            b.text_of() == text@,
    {
        NgramBuilder { arity: 2, pad_left: Pad::Auto, pad_right: Pad::Auto, text: String::from_str(text) }
    }

    /// The settings of the builder: its text, arity, left and right padding.
    pub fn into_parts(self) -> (r: (String, usize, Pad, Pad))
        ensures
            r.0@ == self.text_of(),
            r.1 == self.arity_of(),
            r.2 == self.pad_left_of(),
            r.3 == self.pad_right_of(),
    {
        (self.text, self.arity, self.pad_left, self.pad_right)
    }

    /// Set the left padding to build into the `Ngram`.
    pub fn pad_left(self, pad_left: Pad) -> (b: Self)
        ensures
            b.arity_of() == self.arity_of(),
            b.pad_left_of() == pad_left,
            b.pad_right_of() == self.pad_right_of(),
            b.text_of() == self.text_of(),
    {
        proof {
            use_type_invariant(&self);
        }
        NgramBuilder { pad_left, ..self }
    }

    /// Set the right padding to build into the `Ngram`.
    pub fn pad_right(self, pad_right: Pad) -> (b: Self)
        ensures
            b.arity_of() == self.arity_of(),
            b.pad_left_of() == self.pad_left_of(),
            b.pad_right_of() == pad_right,
            b.text_of() == self.text_of(),
    {
        proof {
            use_type_invariant(&self);
        }
        NgramBuilder { pad_right, ..self }
    }

    /// Set both the left and right padding to build into the `Ngram`.
    pub fn pad_full(self, pad: Pad) -> (b: Self)
        ensures
            b.arity_of() == self.arity_of(),
            b.pad_left_of() == pad,
            b.pad_right_of() == pad,
            b.text_of() == self.text_of(),
    {
        proof {
            use_type_invariant(&self);
        }
        let left = pad.copy();
        NgramBuilder { pad_left: left, pad_right: pad, ..self }
    }

    /// Set `arity` (the _n_ in _ngram_), raised to one when smaller.
    pub fn arity(self, arity: usize) -> (b: Self)
        ensures
            b.arity_of() == if arity >= 1 {
                arity
            } else {
                1
            },
            b.pad_left_of() == self.pad_left_of(),
            b.pad_right_of() == self.pad_right_of(),
            b.text_of() == self.text_of(),
    {
        let arity = if arity >= 1 {
            arity
        } else {
            1
        };
        NgramBuilder { arity, ..self }
    }

    /// Yield an `Ngram` instance with all the properties set with this builder.
    pub fn finish(self) -> (n: Ngram)
        ensures
            n.wf(),
            n.arity == self.arity_of(),
            n.text@ == self.text_of(),
            n.text_padded@ == self.pad_left_of().padding((self.arity_of() - 1) as nat)
                + self.text_of() + self.pad_right_of().padding((self.arity_of() - 1) as nat),
            self.pad_left_of() is Auto && self.pad_right_of() is Auto ==> n.text_padded@ == Seq::new(
                (self.arity_of() - 1) as nat,
                |i: int| ' ',
            ) + self.text_of() + Seq::new((self.arity_of() - 1) as nat, |i: int| ' '),
            self.pad_left_of() is Auto && self.pad_right_of() is Auto ==> n.text_padded@.len()
                == self.text_of().len() + 2 * (self.arity_of() - 1),
    {
        proof {
            use_type_invariant(&self);
        }
        let NgramBuilder { arity, pad_left, pad_right, text } = self;
        let ghost left = pad_left;
        let ghost right = pad_right;
        let text_padded = Pad::pad_text(text.as_str(), pad_left, pad_right, arity - 1);
        proof {
            if left is Auto && right is Auto {
                crate::lemma_auto_padding((arity - 1) as nat, text);
                assert(left.padding((arity - 1) as nat) =~= Seq::new((arity - 1) as nat, |i: int| ' '));
                assert(right.padding((arity - 1) as nat) =~= Seq::new((arity - 1) as nat, |i: int| ' '));
            }
        }
        let _ = byte_len(text_padded.as_str());
        let chars = text::chars_of(text_padded.as_str());
        let grams = tabulate_grams(&chars, arity);
        Ngram { arity, text, text_padded, grams }
    }
}

// ---------------------------------------------------------------------------
// Lemmas on gram tables.

proof fn lemma_tabulates_empty(ws: Seq<Seq<char>>)
    requires
        ws.len() == 0,
    ensures
        tabulates(Seq::<(String, usize)>::empty(), ws),
{
}

/// One more occurrence of a gram already present: its count goes up by one.
proof fn lemma_tabulates_step_existing(
    old_e: Seq<(String, usize)>,
    new_e: Seq<(String, usize)>,
    prev: Seq<Seq<char>>,
    next: Seq<Seq<char>>,
    j: int,
)
    requires
        tabulates(old_e, prev),
        0 <= j < old_e.len(),
        next.len() == prev.len() + 1,
        next.drop_last() == prev,
        old_e[j].0@ == next.last(),
        new_e.len() == old_e.len(),
        forall|i: int| 0 <= i < new_e.len() && i != j ==> new_e[i] == old_e[i],
        new_e[j].1 == old_e[j].1 + 1,
        new_e[j].0@ == next.last(),
        sum_counts(new_e) == sum_counts(old_e) + 1,
    ensures
        tabulates(new_e, next),
{
    assert forall|i: int| 0 <= i < new_e.len() implies #[trigger] new_e[i].1 == count_of(
        next,
        new_e[i].0@,
    ) by {
        assert(count_of(next, new_e[i].0@) == count_of(prev, new_e[i].0@) + if next.last()
            == new_e[i].0@ {
            1nat
        } else {
            0nat
        });
        if i != j {
            assert(new_e[i] == old_e[i]);
            if i < j {
                assert(old_e[i].0@ != old_e[j].0@);
            } else {
                assert(old_e[j].0@ != old_e[i].0@);
            }
        }
    }
    assert forall|i: int| 0 <= i < new_e.len() implies #[trigger] new_e[i].1 >= 1 by {
        if i != j {
            assert(new_e[i] == old_e[i]);
        }
    }
    assert forall|i: int, k: int| 0 <= i < k < new_e.len() implies new_e[i].0@ != new_e[k].0@ by {
        assert(old_e[i].0@ != old_e[k].0@);
        if i != j {
            assert(new_e[i] == old_e[i]);
        }
        if k != j {
            assert(new_e[k] == old_e[k]);
        }
    }
    assert forall|k: int| 0 <= k < next.len() implies has_key(new_e, #[trigger] next[k]) by {
        if k < prev.len() {
            assert(next[k] == prev[k]);
            assert(has_key(old_e, prev[k]));
            let i = choose|i: int| 0 <= i < old_e.len() && #[trigger] old_e[i].0@ == prev[k];
            if i != j {
                assert(new_e[i] == old_e[i]);
            }
            assert(new_e[i].0@ == next[k]);
        } else {
            assert(new_e[j].0@ == next[k]);
        }
    }
}

/// First occurrence of a gram: it joins the table with a count of one.
proof fn lemma_tabulates_step_new(
    old_e: Seq<(String, usize)>,
    new_e: Seq<(String, usize)>,
    prev: Seq<Seq<char>>,
    next: Seq<Seq<char>>,
)
    requires
        tabulates(old_e, prev),
        next.len() == prev.len() + 1,
        next.drop_last() == prev,
        new_e.len() == old_e.len() + 1,
        new_e.drop_last() == old_e,
        new_e.last().0@ == next.last(),
        new_e.last().1 == 1,
        forall|m: int| 0 <= m < old_e.len() ==> old_e[m].0@ != next.last(),
    ensures
        tabulates(new_e, next),
{
    let g = next.last();
    lemma_absent_count_zero(prev, g, old_e);
    assert forall|i: int| 0 <= i < new_e.len() implies #[trigger] new_e[i].1 == count_of(
        next,
        new_e[i].0@,
    ) by {
        assert(count_of(next, new_e[i].0@) == count_of(prev, new_e[i].0@) + if next.last()
            == new_e[i].0@ {
            1nat
        } else {
            0nat
        });
        if i < old_e.len() {
            assert(new_e[i] == old_e[i]);
        }
    }
    assert forall|i: int| 0 <= i < new_e.len() implies #[trigger] new_e[i].1 >= 1 by {
        if i < old_e.len() {
            assert(new_e[i] == old_e[i]);
        }
    }
    assert forall|i: int, k: int| 0 <= i < k < new_e.len() implies new_e[i].0@ != new_e[k].0@ by {
        assert(new_e[i] == old_e[i]);
        if k < old_e.len() {
            assert(new_e[k] == old_e[k]);
        }
    }
    assert forall|k: int| 0 <= k < next.len() implies has_key(new_e, #[trigger] next[k]) by {
        if k < prev.len() {
            assert(next[k] == prev[k]);
            assert(has_key(old_e, prev[k]));
            let i = choose|i: int| 0 <= i < old_e.len() && #[trigger] old_e[i].0@ == prev[k];
            assert(new_e[i] == old_e[i]);
        } else {
            assert(new_e[new_e.len() - 1].0@ == next[k]);
        }
    }
}

/// A gram that is no key of a complete table does not occur.
proof fn lemma_absent_count_zero(ws: Seq<Seq<char>>, g: Seq<char>, entries: Seq<(String, usize)>)
    requires
        forall|k: int| 0 <= k < ws.len() ==> has_key(entries, #[trigger] ws[k]),
        forall|m: int| 0 <= m < entries.len() ==> entries[m].0@ != g,
    ensures
        count_of(ws, g) == 0,
    decreases ws.len(),
{
    if ws.len() > 0 {
        let k = ws.len() - 1;
        assert(has_key(entries, ws[k]));
        let i = choose|i: int| 0 <= i < entries.len() && #[trigger] entries[i].0@ == ws[k];
        assert(ws.drop_last().len() == ws.len() - 1);
        assert forall|k2: int| 0 <= k2 < ws.drop_last().len() implies has_key(
            entries,
            #[trigger] ws.drop_last()[k2],
        ) by {
            assert(ws.drop_last()[k2] == ws[k2]);
        }
        lemma_absent_count_zero(ws.drop_last(), g, entries);
    }
}

/// A gram occurs a positive number of times exactly when it is among the windows.
pub proof fn lemma_count_positive_iff_contains(ws: Seq<Seq<char>>, g: Seq<char>)
    ensures
        (count_of(ws, g) > 0) == ws.contains(g),
    decreases ws.len(),
{
    if ws.len() > 0 {
        lemma_count_positive_iff_contains(ws.drop_last(), g);
        if ws.drop_last().contains(g) {
            let k = choose|k: int| 0 <= k < ws.drop_last().len() && ws.drop_last()[k] == g;
            assert(ws[k] == g);
        }
        if ws.contains(g) && ws.last() != g {
            let k = choose|k: int| 0 <= k < ws.len() && ws[k] == g;
            assert(ws.drop_last()[k] == g);
        }
        if ws.last() == g {
            assert(ws[ws.len() - 1] == g);
        }
    }
}

/// A gram is a key of the table of a well-formed ngram exactly when it is one
/// of the windows of its padded text; the table has no more entries than windows.
pub proof fn lemma_keys_are_windows(n: &Ngram, g: Seq<char>)
    requires
        n.wf(),
    ensures
        has_key(n.grams@, g) == n.gram_windows().contains(g),
        n.grams@.len() <= n.gram_windows().len(),
        n.gram_windows().len() <= n.text_padded@.len(),
{
    lemma_len_le_sum(n.grams@);
    if has_key(n.grams@, g) {
        let i = choose|i: int| 0 <= i < n.grams@.len() && #[trigger] n.grams@[i].0@ == g;
        assert(n.grams@[i].1 >= 1);
        lemma_count_positive_iff_contains(n.gram_windows(), g);
    }
    if n.gram_windows().contains(g) {
        let k = choose|k: int| 0 <= k < n.gram_windows().len() && n.gram_windows()[k] == g;
        assert(has_key(n.grams@, n.gram_windows()[k]));
    }
}

/// With every count at least one, a table has no more entries than the sum of its counts.
proof fn lemma_len_le_sum(e: Seq<(String, usize)>)
    requires
        forall|i: int| 0 <= i < e.len() ==> #[trigger] e[i].1 >= 1,
    ensures
        e.len() <= sum_counts(e),
    decreases e.len(),
{
    if e.len() > 0 {
        assert forall|i: int| 0 <= i < e.drop_last().len() implies #[trigger] e.drop_last()[i].1 >= 1 by {
            assert(e.drop_last()[i] == e[i]);
        }
        lemma_len_le_sum(e.drop_last());
        assert(e[e.len() - 1].1 >= 1);
    }
}

/// Replacing one entry changes the sum by the difference of the counts.
proof fn lemma_sum_update(e: Seq<(String, usize)>, j: int, v: (String, usize))
    requires
        0 <= j < e.len(),
    ensures
        sum_counts(e.update(j, v)) == sum_counts(e) - e[j].1 + v.1,
    decreases e.len(),
{
    if j == e.len() - 1 {
        assert(e.update(j, v).drop_last() =~= e.drop_last());
    } else {
        assert(e.update(j, v).drop_last() =~= e.drop_last().update(j, v));
        lemma_sum_update(e.drop_last(), j, v);
        lemma_entry_le_sum(e.drop_last(), j);
    }
}

/// Each count is at most the sum of all counts.
proof fn lemma_entry_le_sum(e: Seq<(String, usize)>, j: int)
    requires
        0 <= j < e.len(),
    ensures
        e[j].1 <= sum_counts(e),
    decreases e.len(),
{
    if j < e.len() - 1 {
        lemma_entry_le_sum(e.drop_last(), j);
    }
}

/// The sum of a prefix is at most the sum of the whole table.
proof fn lemma_sum_prefix_le(e: Seq<(String, usize)>, i: int)
    requires
        0 <= i <= e.len(),
    ensures
        sum_counts(e.take(i)) <= sum_counts(e),
    decreases e.len() - i,
{
    if i < e.len() {
        lemma_sum_prefix_le(e, i + 1);
        assert(e.take(i + 1).drop_last() =~= e.take(i));
    } else {
        assert(e.take(i) =~= e);
    }
}

/// In a table of a prefix of windows, the counts sum to at most that prefix length.
proof fn lemma_sum_le_len(e: Seq<(String, usize)>, ws: Seq<Seq<char>>)
    requires
        tabulates(e, ws),
    ensures
        sum_counts(e) <= ws.len(),
{
}

proof fn lemma_sum_le_windows(n: &Ngram)
    requires
        n.wf(),
    ensures
        sum_counts(n.grams@) == n.gram_windows().len(),
        n.gram_windows().len() <= n.text_padded@.len(),
{
}

/// Each term of the shared count is bounded by the table's own count.
proof fn lemma_shared_le_sum(e: Seq<(String, usize)>, ws: Seq<Seq<char>>)
    ensures
        shared_count(e, ws) <= sum_counts(e),
    decreases e.len(),
{
    if e.len() > 0 {
        lemma_shared_le_sum(e.drop_last(), ws);
    }
}

/// The shared count never exceeds the grams of `a`, and is zero when `b` is
/// too short for the arity of `a`.
proof fn lemma_samegrams_bounded(a: &Ngram, b: &Ngram)
    requires
        a.wf(),
        b.wf(),
    ensures
        a.samegrams(b) <= a.gram_windows().len(),
        a.text_padded@.len() >= a.arity ==> a.gram_windows().len() == a.text_padded@.len() - a.arity + 1,
        a.text_padded@.len() < a.arity ==> a.samegrams(b) == 0,
        b.text_padded@.len() < a.arity ==> a.samegrams(b) == 0,
        b.arity != a.arity ==> a.samegrams(b) == 0,
{
    lemma_shared_le_sum(a.grams@, b.gram_windows());
    if b.text_padded@.len() < a.arity || b.arity != a.arity {
        assert forall|i: int| 0 <= i < a.grams@.len() implies count_of(
            b.gram_windows(),
            #[trigger] a.grams@[i].0@,
        ) == 0 by {
            let key = a.grams@[i].0@;
            assert(a.grams@[i].1 >= 1);
            lemma_count_positive_iff_contains(a.gram_windows(), key);
            lemma_windows_len(a.text_padded@, a.arity as nat, key);
            lemma_count_positive_iff_contains(b.gram_windows(), key);
            if b.gram_windows().contains(key) {
                lemma_windows_len(b.text_padded@, b.arity as nat, key);
            }
        }
        lemma_shared_zero(a.grams@, b.gram_windows());
    }
    if a.text_padded@.len() < a.arity {
        assert(a.grams@.len() == 0) by {
            if a.grams@.len() > 0 {
                assert(a.grams@[0].1 >= 1);
            }
        }
    }
}

/// Nothing is shared when no gram of the table occurs in `ws`.
proof fn lemma_shared_zero(e: Seq<(String, usize)>, ws: Seq<Seq<char>>)
    requires
        forall|i: int| 0 <= i < e.len() ==> count_of(ws, #[trigger] e[i].0@) == 0,
    ensures
        shared_count(e, ws) == 0,
    decreases e.len(),
{
    if e.len() > 0 {
        assert forall|i: int| 0 <= i < e.drop_last().len() implies count_of(
            ws,
            #[trigger] e.drop_last()[i].0@,
        ) == 0 by {
            assert(e.drop_last()[i] == e[i]);
        }
        lemma_shared_zero(e.drop_last(), ws);
        assert(count_of(ws, e[e.len() - 1].0@) == 0);
    }
}

/// Every window has exactly `n` characters.
proof fn lemma_windows_len(s: Seq<char>, n: nat, g: Seq<char>)
    requires
        windows(s, n).contains(g),
    ensures
        g.len() == n,
{
    let k = choose|k: int| 0 <= k < windows(s, n).len() && windows(s, n)[k] == g;
}

/// Sum, over the grams of a table, of their numbers of occurrences in `ws`.
spec fn key_occurrences(e: Seq<(String, usize)>, ws: Seq<Seq<char>>) -> nat
    decreases e.len(),
{
    if e.len() == 0 {
        0
    } else {
        key_occurrences(e.drop_last(), ws) + count_of(ws, e.last().0@)
    }
}

/// How many keys of the table equal `g`.
spec fn key_matches(e: Seq<(String, usize)>, g: Seq<char>) -> nat
    decreases e.len(),
{
    if e.len() == 0 {
        0
    } else {
        key_matches(e.drop_last(), g) + if e.last().0@ == g {
            1nat
        } else {
            0nat
        }
    }
}

proof fn lemma_shared_le_occurrences(e: Seq<(String, usize)>, ws: Seq<Seq<char>>)
    ensures
        shared_count(e, ws) <= key_occurrences(e, ws),
    decreases e.len(),
{
    if e.len() > 0 {
        lemma_shared_le_occurrences(e.drop_last(), ws);
    }
}

proof fn lemma_occurrences_step(e: Seq<(String, usize)>, ws: Seq<Seq<char>>)
    requires
        ws.len() > 0,
    ensures
        key_occurrences(e, ws) == key_occurrences(e, ws.drop_last()) + key_matches(e, ws.last()),
    decreases e.len(),
{
    if e.len() > 0 {
        lemma_occurrences_step(e.drop_last(), ws);
    }
}

proof fn lemma_matches_absent(e: Seq<(String, usize)>, g: Seq<char>)
    requires
        forall|i: int| 0 <= i < e.len() ==> e[i].0@ != g,
    ensures
        key_matches(e, g) == 0,
    decreases e.len(),
{
    if e.len() > 0 {
        assert forall|i: int| 0 <= i < e.drop_last().len() implies e.drop_last()[i].0@ != g by {
            assert(e.drop_last()[i] == e[i]);
        }
        lemma_matches_absent(e.drop_last(), g);
        assert(e[e.len() - 1].0@ != g);
    }
}

proof fn lemma_matches_le_one(e: Seq<(String, usize)>, g: Seq<char>)
    requires
        forall|i: int, j: int| 0 <= i < j < e.len() ==> e[i].0@ != e[j].0@,
    ensures
        key_matches(e, g) <= 1,
    decreases e.len(),
{
    if e.len() > 0 {
        let d = e.drop_last();
        assert forall|i: int, j: int| 0 <= i < j < d.len() implies d[i].0@ != d[j].0@ by {
            assert(d[i] == e[i] && d[j] == e[j]);
        }
        lemma_matches_le_one(d, g);
        if e.last().0@ == g {
            assert forall|i: int| 0 <= i < d.len() implies d[i].0@ != g by {
                assert(d[i] == e[i]);
                assert(e[i].0@ != e[e.len() - 1].0@);
            }
            lemma_matches_absent(d, g);
        }
    }
}

/// Distinct keys occur, all together, at most as often as there are windows.
proof fn lemma_occurrences_le_len(e: Seq<(String, usize)>, ws: Seq<Seq<char>>)
    requires
        forall|i: int, j: int| 0 <= i < j < e.len() ==> e[i].0@ != e[j].0@,
    ensures
        key_occurrences(e, ws) <= ws.len(),
    decreases ws.len(),
{
    if ws.len() == 0 {
        lemma_occurrences_zero(e, ws);
    } else {
        lemma_occurrences_le_len(e, ws.drop_last());
        lemma_occurrences_step(e, ws);
        lemma_matches_le_one(e, ws.last());
    }
}

proof fn lemma_occurrences_zero(e: Seq<(String, usize)>, ws: Seq<Seq<char>>)
    requires
        ws.len() == 0,
    ensures
        key_occurrences(e, ws) == 0,
    decreases e.len(),
{
    if e.len() > 0 {
        lemma_occurrences_zero(e.drop_last(), ws);
    }
}

/// The shared count never exceeds the grams of `b` either.
proof fn lemma_samegrams_le_other(a: &Ngram, b: &Ngram)
    requires
        a.wf(),
        b.wf(),
    ensures
        a.samegrams(b) <= b.gram_windows().len(),
{
    lemma_shared_le_occurrences(a.grams@, b.gram_windows());
    lemma_occurrences_le_len(a.grams@, b.gram_windows());
}


/// When every count of a table is the number of occurrences of its gram in
/// `ws`, the shared count is the sum of the counts.
proof fn lemma_shared_all(e: Seq<(String, usize)>, ws: Seq<Seq<char>>)
    requires
        forall|i: int| 0 <= i < e.len() ==> #[trigger] e[i].1 == count_of(ws, e[i].0@),
    ensures
        shared_count(e, ws) == sum_counts(e),
    decreases e.len(),
{
    if e.len() > 0 {
        assert forall|i: int| 0 <= i < e.drop_last().len() implies #[trigger] e.drop_last()[i].1 == count_of(
            ws,
            e.drop_last()[i].0@,
        ) by {
            assert(e.drop_last()[i] == e[i]);
        }
        assert(e[e.len() - 1].1 == count_of(ws, e[e.len() - 1].0@));
        lemma_shared_all(e.drop_last(), ws);
    }
}

/// An n-gram shares each of its grams with itself: the shared count is its
/// number of grams, and nothing is counted apart from the shared grams.
pub proof fn lemma_self_shared(a: &Ngram)
    requires
        a.wf(),
    ensures
        a.samegrams(a) == a.gram_windows().len(),
        a.allgrams(a) == a.samegrams(a),
{
    lemma_shared_all(a.grams@, a.gram_windows());
    lemma_sum_le_windows(a);
    lemma_samegrams_bounded(a, a);
}

/// Two n-grams without a gram in common share nothing.
pub proof fn lemma_disjoint_shared(a: &Ngram, b: &Ngram)
    requires
        a.wf(),
        b.wf(),
        forall|g: Seq<char>| a.gram_windows().contains(g) ==> !b.gram_windows().contains(g),
    ensures
        a.samegrams(b) == 0,
{
    assert forall|i: int| 0 <= i < a.grams@.len() implies count_of(b.gram_windows(), #[trigger] a.grams@[i].0@)
        == 0 by {
        let g = a.grams@[i].0@;
        lemma_keys_are_windows(a, g);
        assert(has_key(a.grams@, g));
        lemma_count_positive_iff_contains(b.gram_windows(), g);
    }
    lemma_shared_zero(a.grams@, b.gram_windows());
}

/// The shared grams are never more than all the grams of the pair.
pub proof fn lemma_shared_within_all(a: &Ngram, b: &Ngram)
    requires
        a.wf(),
        b.wf(),
    ensures
        a.samegrams(b) <= a.allgrams(b),
{
    lemma_samegrams_bounded(a, b);
    lemma_samegrams_le_other(a, b);
    lemma_samegrams_bounded(b, b);
}

/// All the grams of a pair are the grams of each, the shared ones counted
/// once: when both padded texts are at least the arity of `a` long, the
/// windows of `a` and the windows of `b` (both of the arity of `a`) number
/// the total plus the shared count, and the differing grams number the
/// windows of both less twice the shared count. For n-grams of one arity,
/// these are the gram windows of each.
pub proof fn lemma_allgrams_counts_both(a: &Ngram, b: &Ngram)
    requires
        a.wf(),
        b.wf(),
        a.text_padded@.len() >= a.arity,
        b.text_padded@.len() >= a.arity,
    ensures
        a.allgrams(b) + a.samegrams(b) == windows(a.text_padded@, a.arity as nat).len() + windows(
            b.text_padded@,
            a.arity as nat,
        ).len(),
        a.samegrams(b) <= a.allgrams(b),
        (a.allgrams(b) - a.samegrams(b)) + 2 * a.samegrams(b) == windows(a.text_padded@, a.arity as nat).len()
            + windows(b.text_padded@, a.arity as nat).len(),
        a.arity == b.arity ==> a.allgrams(b) + a.samegrams(b) == a.gram_windows().len()
            + b.gram_windows().len(),
{
    let n = a.arity as nat;
    lemma_samegrams_bounded(a, b);
    lemma_samegrams_le_other(a, b);
    assert(windows(a.text_padded@, n).len() == a.text_padded@.len() - n + 1);
    assert(windows(b.text_padded@, n).len() == b.text_padded@.len() - n + 1);
    if b.arity != a.arity {
        assert(a.samegrams(b) == 0);
    }
}

} // verus!
