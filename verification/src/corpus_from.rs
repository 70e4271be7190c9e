//! Building the key-gram graph of a corpus from the gram counts of its keys.
use vstd::prelude::*;

use crate::adaptative_vector::{seq_max, AdaptativeVector, AdaptativeVectorValue};

verus! {

broadcast use vstd::seq_lib::group_seq_properties;

/// The gram counts of each key, as sequences.
pub open spec fn key_lists(keys: Seq<Vec<(usize, usize)>>) -> Seq<Seq<(usize, usize)>> {
    keys.map_values(|v: Vec<(usize, usize)>| v@)
}

/// The gram counts of a key: every count at least one, no gram twice.
pub open spec fn counts_wf(s: Seq<(usize, usize)>) -> bool {
    &&& forall|i: int| 0 <= i < s.len() ==> #[trigger] s[i].1 >= 1
    &&& forall|i: int, j: int| 0 <= i < j < s.len() ==> s[i].0 != s[j].0
}

/// The grams of the list are strictly increasing.
pub open spec fn increasing_grams(s: Seq<(usize, usize)>) -> bool {
    forall|i: int, j: int| 0 <= i < j < s.len() ==> s[i].0 < s[j].0
}

/// Both lists hold the same pairs.
pub open spec fn same_pairs(a: Seq<(usize, usize)>, b: Seq<(usize, usize)>) -> bool {
    forall|p: (usize, usize)| a.contains(p) <==> b.contains(p)
}

/// The number of edges of the keys before key `k`.
pub open spec fn offset_of(ks: Seq<Seq<(usize, usize)>>, k: nat) -> nat
    decreases k,
{
    if k == 0 {
        0
    } else {
        offset_of(ks, (k - 1) as nat) + ks[k - 1].len()
    }
}

/// The cumulative numbers of edges: one entry per key, and one more.
pub open spec fn offsets_of(ks: Seq<Seq<(usize, usize)>>) -> Seq<nat> {
    Seq::new(ks.len() + 1, |k: int| offset_of(ks, k as nat))
}

/// The pairs `(gram, count)` of the edges from `start` to `end`, the counts
/// being stored less one.
pub open spec fn edge_pairs(grams: Seq<usize>, stored: Seq<nat>, start: int, end: int) -> Seq<
    (usize, usize),
> {
    Seq::new((end - start) as nat, |i: int| (grams[start + i], (stored[start + i] + 1) as usize))
}

/// `<[(usize, usize)]>::sort_unstable`: the same pairs, in increasing
/// lexicographic order.
#[verifier::external_body]
pub(crate) fn sort_pairs(v: &mut Vec<(usize, usize)>)
    ensures
        final(v)@.to_multiset() == old(v)@.to_multiset(),
        forall|i: int, j: int|
            0 <= i < j < final(v)@.len() ==> final(v)@[i].0 < final(v)@[j].0 || (final(v)@[i].0
                == final(v)@[j].0 && final(v)@[i].1 <= final(v)@[j].1),
{
    v.sort_unstable();
}

/// `<[usize]>::sort_unstable`: the same values, in increasing order.
#[verifier::external_body]
fn sort_codes(v: &mut Vec<usize>)
    ensures
        final(v)@.to_multiset() == old(v)@.to_multiset(),
        forall|i: int, j: int| 0 <= i <= j < final(v)@.len() ==> final(v)@[i] <= final(v)@[j],
{
    v.sort_unstable();
}

/// A copy of a list of pairs.
fn copy_pairs(v: &Vec<(usize, usize)>) -> (r: Vec<(usize, usize)>)
    ensures
        r@ == v@,
{
    let mut out: Vec<(usize, usize)> = Vec::new();
    let mut i: usize = 0;
    while i < v.len()
        invariant
            i <= v@.len(),
            out@ == v@.take(i as int),
        decreases v@.len() - i,
    {
        out.push(v[i]);
        i = i + 1;
        proof {
            assert(out@ =~= v@.take(i as int));
        }
    }
    proof {
        assert(v@.take(i as int) =~= v@);
    }
    out
}

/// The sorted distinct values of `v`.
fn distinct_sorted(v: &Vec<usize>) -> (r: Vec<usize>)
    ensures
        forall|i: int, j: int| 0 <= i < j < r@.len() ==> r@[i] < r@[j],
        forall|g: usize| r@.contains(g) <==> v@.contains(g),
        r@.len() <= v@.len(),
{
    let mut sorted: Vec<usize> = Vec::new();
    let mut i: usize = 0;
    while i < v.len()
        invariant
            i <= v@.len(),
            sorted@ == v@.take(i as int),
        decreases v@.len() - i,
    {
        sorted.push(v[i]);
        i = i + 1;
        proof {
            assert(sorted@ =~= v@.take(i as int));
        }
    }
    proof {
        assert(v@.take(i as int) =~= v@);
    }
    let ghost unsorted = sorted@;
    sort_codes(&mut sorted);
    proof {
        vstd::seq_lib::to_multiset_len(sorted@);
        vstd::seq_lib::to_multiset_len(unsorted);
        assert forall|g: usize| sorted@.contains(g) <==> v@.contains(g) by {
            vstd::seq_lib::to_multiset_contains(sorted@, g);
            vstd::seq_lib::to_multiset_contains(unsorted, g);
        }
    }
    let mut out: Vec<usize> = Vec::new();
    let mut k: usize = 0;
    while k < sorted.len()
        invariant
            k <= sorted@.len(),
            forall|i: int, j: int| 0 <= i <= j < sorted@.len() ==> sorted@[i] <= sorted@[j],
            forall|i: int, j: int| 0 <= i < j < out@.len() ==> out@[i] < out@[j],
            forall|g: usize| out@.contains(g) <==> sorted@.take(k as int).contains(g),
            k > 0 ==> out@.len() > 0 && out@.last() == sorted@[k - 1],
            k == 0 ==> out@.len() == 0,
            out@.len() <= k,
            sorted@.len() == v@.len(),
        decreases sorted@.len() - k,
    {
        let g = sorted[k];
        let ghost before = out@;
        if k == 0 || out[out.len() - 1] != g {
            proof {
                if k > 0 {
                    assert(sorted@[k - 1] <= g);
                    assert(before.last() < g);
                }
            }
            out.push(g);
            proof {
                assert(out@ == before.push(g));
                assert forall|i: int, j: int| 0 <= i < j < out@.len() implies out@[i] < out@[j] by {
                    if j < before.len() {
                        assert(out@[i] == before[i] && out@[j] == before[j]);
                    } else {
                        assert(out@[j] == g);
                        assert(out@[i] == before[i]);
                        if i < before.len() - 1 {
                            assert(before[i] < before[before.len() - 1]);
                        }
                    }
                }
            }
        }
        proof {
            let tk = sorted@.take(k as int);
            let tk1 = sorted@.take(k + 1);
            assert(tk1 =~= tk.push(g));
            assert forall|h: usize| out@.contains(h) <==> tk1.contains(h) by {
                if out@.contains(h) {
                    let q = choose|q: int| 0 <= q < out@.len() && out@[q] == h;
                    if q < before.len() {
                        assert(before.contains(h));
                        assert(tk.contains(h));
                        let w = choose|w: int| 0 <= w < tk.len() && tk[w] == h;
                        assert(tk1[w] == h);
                    } else {
                        assert(tk1[k as int] == h);
                    }
                }
                if tk1.contains(h) {
                    let w = choose|w: int| 0 <= w < tk1.len() && tk1[w] == h;
                    if w < k {
                        assert(tk[w] == h);
                        assert(before.contains(h));
                        let q = choose|q: int| 0 <= q < before.len() && before[q] == h;
                        assert(out@[q] == h);
                    } else {
                        assert(out@.last() == h);
                        assert(out@[out@.len() - 1] == h);
                    }
                }
            }
            if k > 0 {
                assert(sorted@[k - 1] <= g);
            }
        }
        k = k + 1;
    }
    proof {
        assert(sorted@.take(k as int) =~= sorted@);
    }
    out
}

/// Reads the gram counts of the keys: the sorted distinct grams, the count
/// less one of every edge from a key to a gram, the cumulative number of
/// edges of the keys, the largest stored count, and the gram of every edge.
///
/// The edges of each key come in increasing order of gram, and hold the same
/// pairs as the key's counts. The keys must have at least one gram between
/// them: a corpus without grams cannot be built.
pub fn parse_keys(keys: &Vec<Vec<(usize, usize)>>) -> (r: (
    Vec<usize>,
    AdaptativeVector,
    AdaptativeVector,
    usize,
    Vec<usize>,
))
    requires
        forall|k: int| 0 <= k < keys@.len() ==> counts_wf(#[trigger] keys@[k]@),
        0 < offset_of(key_lists(keys@), keys@.len() as nat) < usize::MAX,
        keys@.len() < usize::MAX,
    ensures
        ({
            let (ngrams, cooccurrences, key_offsets, maximal_cooccurrence, key_to_ngrams) = r;
            let ks = key_lists(keys@);
            &&& forall|i: int, j: int| 0 <= i < j < ngrams@.len() ==> ngrams@[i] < ngrams@[j]
            &&& forall|g: usize| ngrams@.contains(g) <==> key_to_ngrams@.contains(g)
            &&& ngrams@.len() <= key_to_ngrams@.len()
            &&& key_offsets.values() == offsets_of(ks)
            &&& cooccurrences.values().len() == key_to_ngrams@.len()
            &&& key_to_ngrams@.len() == offset_of(ks, ks.len() as nat)
            &&& maximal_cooccurrence == seq_max(cooccurrences.values())
            &&& forall|x: int| 0 <= x < cooccurrences.values().len() ==> #[trigger] cooccurrences.values()[x] < usize::MAX
            &&& forall|k: int|
                0 <= k < ks.len() ==> {
                    let seg = edge_pairs(
                        key_to_ngrams@,
                        cooccurrences.values(),
                        offset_of(ks, k as nat) as int,
                        offset_of(ks, (k + 1) as nat) as int,
                    );
                    &&& increasing_grams(seg)
                    &&& same_pairs(seg, #[trigger] ks[k])
                }
        }),
{
    let ghost ks = key_lists(keys@);
    let n = keys.len();
    let mut cooccurrences = AdaptativeVector::with_capacity(n);
    let mut maximal_cooccurrence: usize = 0;
    let mut key_offsets = AdaptativeVector::with_capacity(n + 1);
    key_offsets.push(AdaptativeVectorValue::U8(0));
    let mut key_to_ngrams: Vec<usize> = Vec::new();
    let mut k: usize = 0;
    proof {
        assert(key_offsets.values() =~= offsets_of(ks).take(1));
    }
    while k < n
        invariant
            n == keys@.len(),
            n < usize::MAX,
            ks == key_lists(keys@),
            forall|j: int| 0 <= j < keys@.len() ==> counts_wf(#[trigger] keys@[j]@),
            offset_of(ks, n as nat) < usize::MAX,
            k <= n,
            key_offsets.values() == offsets_of(ks).take(k + 1),
            key_to_ngrams@.len() == offset_of(ks, k as nat),
            cooccurrences.values().len() == key_to_ngrams@.len(),
            maximal_cooccurrence == seq_max(cooccurrences.values()),
            forall|x: int| 0 <= x < cooccurrences.values().len() ==> #[trigger] cooccurrences.values()[x] < usize::MAX,
            forall|j: int|
                0 <= j < k ==> {
                    let seg = edge_pairs(
                        key_to_ngrams@,
                        cooccurrences.values(),
                        offset_of(ks, j as nat) as int,
                        offset_of(ks, (j + 1) as nat) as int,
                    );
                    &&& increasing_grams(seg)
                    &&& same_pairs(seg, #[trigger] ks[j])
                },
        decreases n - k,
    {
        proof {
            lemma_offset_monotone(ks, (k + 1) as nat, n as nat);
            assert(ks[k as int] == keys@[k as int]@);
        }
        let mut counts = copy_pairs(&keys[k]);
        let ghost unsorted = counts@;
        sort_pairs(&mut counts);
        proof {
            lemma_sorted_key(unsorted, counts@);
        }
        let ghost sorted = counts@;
        let start = key_to_ngrams.len();
        let ghost prev_grams = key_to_ngrams@;
        let ghost prev_cooc = cooccurrences.values();
        push_key_edges(&counts, &mut cooccurrences, &mut maximal_cooccurrence, &mut key_to_ngrams);
        let ghost key_seg = edge_pairs(
            key_to_ngrams@,
            cooccurrences.values(),
            offset_of(ks, k as nat) as int,
            offset_of(ks, (k + 1) as nat) as int,
        );
        proof {
            assert(key_seg =~= sorted);
        }
        let ghost prev_offsets = key_offsets.values();
        key_offsets.push(AdaptativeVectorValue::U64(cooccurrences.len() as u64));
        proof {
            assert(key_offsets.values() =~= offsets_of(ks).take(k + 2));
            lemma_segments_extend(
                ks,
                k as nat,
                prev_grams,
                prev_cooc,
                key_to_ngrams@,
                cooccurrences.values(),
            );
        }
        k = k + 1;
    }
    proof {
        assert(offsets_of(ks).take(n + 1) =~= offsets_of(ks));
    }
    let ngrams = distinct_sorted(&key_to_ngrams);
    (ngrams, cooccurrences, key_offsets, maximal_cooccurrence, key_to_ngrams)
}

/// Sorting the gram counts of a key keeps its pairs and leaves its grams in
/// strictly increasing order.
pub(crate) proof fn lemma_sorted_key(unsorted: Seq<(usize, usize)>, sorted: Seq<(usize, usize)>)
    requires
        counts_wf(unsorted),
        sorted.to_multiset() == unsorted.to_multiset(),
        forall|i: int, j: int|
            0 <= i < j < sorted.len() ==> sorted[i].0 < sorted[j].0 || (sorted[i].0 == sorted[j].0
                && sorted[i].1 <= sorted[j].1),
    ensures
        same_pairs(sorted, unsorted),
        sorted.len() == unsorted.len(),
        increasing_grams(sorted),
        forall|i: int| 0 <= i < sorted.len() ==> #[trigger] sorted[i].1 >= 1,
{
    assert forall|p: (usize, usize)| sorted.contains(p) <==> unsorted.contains(p) by {
        vstd::seq_lib::to_multiset_contains(sorted, p);
        vstd::seq_lib::to_multiset_contains(unsorted, p);
    }
    vstd::seq_lib::to_multiset_len(sorted);
    vstd::seq_lib::to_multiset_len(unsorted);
    assert forall|i: int| 0 <= i < sorted.len() implies #[trigger] sorted[i].1 >= 1 by {
        assert(sorted.contains(sorted[i]));
        assert(unsorted.contains(sorted[i]));
    }
    assert forall|i: int, j: int| 0 <= i < j < sorted.len() implies sorted[i].0 < sorted[j].0 by {
        if sorted[i].0 == sorted[j].0 {
            assert(sorted.contains(sorted[i]) && sorted.contains(sorted[j]));
            let a = choose|a: int| 0 <= a < unsorted.len() && unsorted[a] == sorted[i];
            let b = choose|b: int| 0 <= b < unsorted.len() && unsorted[b] == sorted[j];
            if a != b {
                assert(unsorted[a].0 == unsorted[b].0);
            } else {
                assert(sorted[i] == sorted[j]);
                lemma_two_positions_count(sorted, i, j);
                lemma_distinct_grams_count(unsorted, sorted[i]);
            }
        }
    }
}

/// Appends the edges of one key: each gram to `key_to_ngrams`, each count
/// less one to `cooccurrences`, keeping `maximal_cooccurrence` the largest
/// stored count.
fn push_key_edges(
    counts: &Vec<(usize, usize)>,
    cooccurrences: &mut AdaptativeVector,
    maximal_cooccurrence: &mut usize,
    key_to_ngrams: &mut Vec<usize>,
)
    requires
        forall|i: int| 0 <= i < counts@.len() ==> #[trigger] counts@[i].1 >= 1,
        old(cooccurrences).values().len() == old(key_to_ngrams)@.len(),
        old(key_to_ngrams)@.len() + counts@.len() < usize::MAX,
        *old(maximal_cooccurrence) == seq_max(old(cooccurrences).values()),
        forall|x: int| 0 <= x < old(cooccurrences).values().len() ==> #[trigger] old(cooccurrences).values()[x] < usize::MAX,
    ensures
        forall|x: int| 0 <= x < final(cooccurrences).values().len() ==> #[trigger] final(cooccurrences).values()[x] < usize::MAX,
        final(key_to_ngrams)@.len() == old(key_to_ngrams)@.len() + counts@.len(),
        final(cooccurrences).values().len() == final(key_to_ngrams)@.len(),
        final(key_to_ngrams)@.take(old(key_to_ngrams)@.len() as int) == old(key_to_ngrams)@,
        final(cooccurrences).values().take(old(key_to_ngrams)@.len() as int) == old(cooccurrences).values(),
        *final(maximal_cooccurrence) == seq_max(final(cooccurrences).values()),
        edge_pairs(
            final(key_to_ngrams)@,
            final(cooccurrences).values(),
            old(key_to_ngrams)@.len() as int,
            final(key_to_ngrams)@.len() as int,
        ) == counts@,
{
    let ghost start = key_to_ngrams@.len();
    let ghost start_grams = key_to_ngrams@;
    let ghost start_cooc = cooccurrences.values();
    let mut i: usize = 0;
    while i < counts.len()
        invariant
            forall|i2: int| 0 <= i2 < counts@.len() ==> #[trigger] counts@[i2].1 >= 1,
            start + counts@.len() < usize::MAX,
            i <= counts@.len(),
            key_to_ngrams@.len() == start + i,
            cooccurrences.values().len() == start + i,
            key_to_ngrams@.take(start as int) == start_grams,
            cooccurrences.values().take(start as int) == start_cooc,
            *maximal_cooccurrence == seq_max(cooccurrences.values()),
            forall|x: int| 0 <= x < cooccurrences.values().len() ==> #[trigger] cooccurrences.values()[x] < usize::MAX,
            forall|q: int|
                0 <= q < i ==> key_to_ngrams@[start + q] == counts@[q].0 && cooccurrences.values()[start
                    + q] + 1 == counts@[q].1,
        decreases counts@.len() - i,
    {
        let (g, c) = counts[i];
        let ghost before = cooccurrences.values();
        let ghost before_grams = key_to_ngrams@;
        cooccurrences.push(AdaptativeVectorValue::U64((c - 1) as u64));
        proof {
            assert(cooccurrences.values() == before.push((c - 1) as nat));
            assert(cooccurrences.values().drop_last() =~= before);
            assert(cooccurrences.values().take(start as int) =~= before.take(start as int));
        }
        if c - 1 > *maximal_cooccurrence {
            *maximal_cooccurrence = c - 1;
        }
        key_to_ngrams.push(g);
        proof {
            assert(key_to_ngrams@.take(start as int) =~= before_grams.take(start as int));
        }
        i = i + 1;
    }
    proof {
        assert(edge_pairs(key_to_ngrams@, cooccurrences.values(), start as int, key_to_ngrams@.len() as int)
            =~= counts@);
    }
}

/// Appending the edges of key `k`, in the order and with the pairs its counts
/// have, keeps the segments of the earlier keys and adds its own.
#[verifier::rlimit(50)]
proof fn lemma_segments_extend(
    ks: Seq<Seq<(usize, usize)>>,
    k: nat,
    prev_grams: Seq<usize>,
    prev_cooc: Seq<nat>,
    grams: Seq<usize>,
    cooc: Seq<nat>,
)
    requires
        k < ks.len(),
        prev_grams.len() == offset_of(ks, k),
        grams.take(prev_grams.len() as int) == prev_grams,
        cooc.take(prev_grams.len() as int) == prev_cooc,
        grams.len() == offset_of(ks, k + 1),
        cooc.len() == grams.len(),
        forall|j: int|
            0 <= j < k ==> {
                let seg = edge_pairs(
                    prev_grams,
                    prev_cooc,
                    offset_of(ks, j as nat) as int,
                    offset_of(ks, (j + 1) as nat) as int,
                );
                &&& increasing_grams(seg)
                &&& same_pairs(seg, #[trigger] ks[j])
            },
        ({
            let seg = edge_pairs(grams, cooc, offset_of(ks, k) as int, offset_of(ks, k + 1) as int);
            &&& increasing_grams(seg)
            &&& same_pairs(seg, ks[k as int])
        }),
    ensures
        forall|j: int|
            0 <= j < k + 1 ==> {
                let seg = edge_pairs(
                    grams,
                    cooc,
                    offset_of(ks, j as nat) as int,
                    offset_of(ks, (j + 1) as nat) as int,
                );
                &&& increasing_grams(seg)
                &&& same_pairs(seg, #[trigger] ks[j])
            },
{
    assert forall|j: int| 0 <= j < k + 1 implies {
        let seg = edge_pairs(
            grams,
            cooc,
            offset_of(ks, j as nat) as int,
            offset_of(ks, (j + 1) as nat) as int,
        );
        &&& increasing_grams(seg)
        &&& same_pairs(seg, #[trigger] ks[j])
    } by {
        if j < k {
            lemma_segment_unchanged(ks, j as nat, k, prev_grams, prev_cooc, grams, cooc);
        }
    }
}

/// The segment of an earlier key is the same before and after appending.
proof fn lemma_segment_unchanged(
    ks: Seq<Seq<(usize, usize)>>,
    j: nat,
    k: nat,
    prev_grams: Seq<usize>,
    prev_cooc: Seq<nat>,
    grams: Seq<usize>,
    cooc: Seq<nat>,
)
    requires
        j < k,
        prev_grams.len() == offset_of(ks, k),
        grams.take(prev_grams.len() as int) == prev_grams,
        cooc.take(prev_grams.len() as int) == prev_cooc,
        grams.len() >= prev_grams.len(),
        cooc.len() == grams.len(),
    ensures
        edge_pairs(grams, cooc, offset_of(ks, j) as int, offset_of(ks, j + 1) as int) == edge_pairs(
            prev_grams,
            prev_cooc,
            offset_of(ks, j) as int,
            offset_of(ks, j + 1) as int,
        ),
{
    let start = prev_grams.len() as int;
    lemma_offset_monotone(ks, j + 1, k);
    lemma_offset_monotone(ks, j, j + 1);
    let a = offset_of(ks, j) as int;
    let b = offset_of(ks, j + 1) as int;
    assert forall|x: int| 0 <= x < start implies grams[x] == prev_grams[x] && cooc[x] == prev_cooc[x] by {
        assert(grams.take(start)[x] == grams[x]);
        assert(cooc.take(start)[x] == cooc[x]);
    }
    assert(edge_pairs(grams, cooc, a, b) =~= edge_pairs(prev_grams, prev_cooc, a, b));
}

/// The number of edges before a key never exceeds that before a later key.
pub(crate) proof fn lemma_offset_monotone(ks: Seq<Seq<(usize, usize)>>, a: nat, b: nat)
    requires
        a <= b,
    ensures
        offset_of(ks, a) <= offset_of(ks, b),
    decreases b,
{
    if a < b {
        lemma_offset_monotone(ks, a, (b - 1) as nat);
    }
}

/// A value at two positions is counted at least twice.
proof fn lemma_two_positions_count(s: Seq<(usize, usize)>, i: int, j: int)
    requires
        0 <= i < j < s.len(),
        s[i] == s[j],
    ensures
        s.to_multiset().count(s[i]) >= 2,
{
    let x = s[i];
    let t = s.remove(j);
    vstd::seq_lib::to_multiset_remove(s, j);
    assert(t[i] == x);
    assert(t.contains(x));
    vstd::seq_lib::to_multiset_contains(t, x);
}

/// A pair whose gram appears once is counted at most once.
proof fn lemma_distinct_grams_count(s: Seq<(usize, usize)>, p: (usize, usize))
    requires
        forall|i: int, j: int| 0 <= i < j < s.len() ==> s[i].0 != s[j].0,
    ensures
        s.to_multiset().count(p) <= 1,
    decreases s.len(),
{
    if s.len() > 0 {
        let t = s.drop_last();
        assert forall|i: int, j: int| 0 <= i < j < t.len() implies t[i].0 != t[j].0 by {
            assert(t[i] == s[i] && t[j] == s[j]);
        }
        lemma_distinct_grams_count(t, p);
        assert(s =~= t.push(s.last()));
        vstd::seq_lib::to_multiset_build(t, s.last());
        if s.last() == p {
            if t.contains(p) {
                let q = choose|q: int| 0 <= q < t.len() && t[q] == p;
                assert(s[q].0 == s[s.len() - 1].0);
            }
            vstd::seq_lib::to_multiset_contains(t, p);
        }
    }
}

} // verus!
