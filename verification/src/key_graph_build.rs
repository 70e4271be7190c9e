//! Building the key-gram graph of a corpus from the gram counts of its keys.
use vstd::prelude::*;

use crate::adaptative_vector::AdaptativeVector;
use crate::corpus_from::{
    counts_wf, edge_pairs, increasing_grams, key_lists, lemma_offset_monotone, offset_of, offsets_of,
    parse_keys, same_pairs,
};
use crate::key_graph::{
    count_below, gram_indices, gram_offsets, has_gram, in_segment, keys_having, keys_with_index,
    lemma_count_below_range, place_keys, segment_increasing,
};
use crate::vec_bipartite_graph::{nondecreasing, WeightedVecBipartiteGraph};

verus! {

/// The values of an adaptative vector as `usize`s.
fn to_usizes(v: &AdaptativeVector) -> (r: Vec<usize>)
    requires
        forall|i: int| 0 <= i < v.values().len() ==> #[trigger] v.values()[i] <= usize::MAX,
    ensures
        r@.len() == v.values().len(),
        forall|i: int| 0 <= i < r@.len() ==> #[trigger] r@[i] as nat == v.values()[i],
{
    let n = v.len();
    let mut out: Vec<usize> = Vec::new();
    let mut i: usize = 0;
    while i < n
        invariant
            n == v.values().len(),
            forall|j: int| 0 <= j < v.values().len() ==> #[trigger] v.values()[j] <= usize::MAX,
            i <= n,
            out@.len() == i,
            forall|j: int| 0 <= j < i ==> #[trigger] out@[j] as nat == v.values()[j],
        decreases n - i,
    {
        let x = v.value_at(i);
        out.push(x as usize);
        i = i + 1;
    }
    out
}

/// The values of an adaptative vector as `u64`s.
fn to_u64s(v: &AdaptativeVector) -> (r: Vec<u64>)
    ensures
        r@.len() == v.values().len(),
        forall|i: int| 0 <= i < r@.len() ==> #[trigger] r@[i] as nat == v.values()[i],
{
    let n = v.len();
    let mut out: Vec<u64> = Vec::new();
    let mut i: usize = 0;
    while i < n
        invariant
            n == v.values().len(),
            i <= n,
            out@.len() == i,
            forall|j: int| 0 <= j < i ==> #[trigger] out@[j] as nat == v.values()[j],
        decreases n - i,
    {
        let x = v.value_at(i);
        out.push(x);
        i = i + 1;
    }
    out
}

/// Every edge belongs to some key.
proof fn lemma_edge_key(ks: Seq<Seq<(usize, usize)>>, n: nat, e: int)
    requires
        n <= ks.len(),
        0 <= e < offset_of(ks, n),
    ensures
        exists|k: int| 0 <= k < n && offset_of(ks, k as nat) <= e < #[trigger] offset_of(ks, (k + 1) as nat),
    decreases n,
{
    if n > 0 {
        if e < offset_of(ks, (n - 1) as nat) {
            lemma_edge_key(ks, (n - 1) as nat, e);
            let k = choose|k: int| 0 <= k < n - 1 && offset_of(ks, k as nat) <= e < #[trigger] offset_of(ks, (k + 1) as nat);
            assert(0 <= k < n);
        } else {
            let k = n - 1;
            assert(offset_of(ks, (k + 1) as nat) == offset_of(ks, n));
        }
    }
}

/// The segments of the keys, as parsed.
pub open spec fn parsed_segments(ks: Seq<Seq<(usize, usize)>>, ktn: Seq<usize>, cooc: Seq<nat>) -> bool {
    &&& ktn.len() == offset_of(ks, ks.len() as nat)
    &&& cooc.len() == ktn.len()
    &&& forall|k: int|
        #![trigger edge_pairs(ktn, cooc, offset_of(ks, k as nat) as int, offset_of(ks, (k + 1) as nat) as int)]
        0 <= k < ks.len() ==> {
            let seg = edge_pairs(ktn, cooc, offset_of(ks, k as nat) as int, offset_of(ks, (k + 1) as nat) as int);
            &&& increasing_grams(seg)
            &&& same_pairs(seg, ks[k])
        }
}

/// The pair of every edge is a pair of some key.
proof fn lemma_edge_pair(ks: Seq<Seq<(usize, usize)>>, ktn: Seq<usize>, cooc: Seq<nat>, n: nat, e: int)
    requires
        n == ks.len(),
        parsed_segments(ks, ktn, cooc),
        0 <= e < ktn.len(),
    ensures
        exists|k: int| 0 <= k < n && #[trigger] ks[k].contains((ktn[e], (cooc[e] + 1) as usize)),
{
    lemma_edge_key(ks, n, e);
    let k = choose|k: int| 0 <= k < n && offset_of(ks, k as nat) <= e < #[trigger] offset_of(ks, (k + 1) as nat);
    let a = offset_of(ks, k as nat) as int;
    let b = offset_of(ks, (k + 1) as nat) as int;
    let seg = edge_pairs(ktn, cooc, a, b);
    let p = (ktn[e], (cooc[e] + 1) as usize);
    assert(same_pairs(seg, ks[k]));
    assert(seg[e - a] == p);
    assert(seg.contains(p));
    assert(ks[k].contains(p));
}

/// A gram of some key is the gram of some edge.
proof fn lemma_gram_edge(ks: Seq<Seq<(usize, usize)>>, ktn: Seq<usize>, cooc: Seq<nat>, n: nat, k: int, c: usize)
    requires
        n == ks.len(),
        parsed_segments(ks, ktn, cooc),
        0 <= k < n,
        has_gram(ks[k], c),
    ensures
        ktn.contains(c),
{
    let q = choose|q: int| 0 <= q < ks[k].len() && ks[k][q].0 == c;
    let a = offset_of(ks, k as nat) as int;
    let b = offset_of(ks, (k + 1) as nat) as int;
    lemma_offset_monotone(ks, (k + 1) as nat, n);
    lemma_offset_monotone(ks, k as nat, (k + 1) as nat);
    let seg = edge_pairs(ktn, cooc, a, b);
    assert(same_pairs(seg, ks[k]));
    assert(ks[k].contains(ks[k][q]));
    assert(seg.contains(ks[k][q]));
    let x = choose|x: int| 0 <= x < seg.len() && seg[x] == ks[k][q];
    assert(ktn[a + x] == c);
}

/// Within the edges of a key, the gram indices strictly increase.
proof fn lemma_idx_increasing(
    ks: Seq<Seq<(usize, usize)>>,
    ktn: Seq<usize>,
    cooc: Seq<nat>,
    ngrams: Seq<usize>,
    idx: Seq<usize>,
    k: int,
)
    requires
        parsed_segments(ks, ktn, cooc),
        0 <= k < ks.len(),
        forall|a: int, b: int| 0 <= a < b < ngrams.len() ==> ngrams[a] < ngrams[b],
        idx.len() == ktn.len(),
        forall|e: int| 0 <= e < ktn.len() ==> (#[trigger] idx[e] as int) < ngrams.len() && ngrams[idx[e] as int] == ktn[e],
    ensures
        segment_increasing(idx, offset_of(ks, k as nat) as int, offset_of(ks, (k + 1) as nat) as int),
{
    let a = offset_of(ks, k as nat) as int;
    let b = offset_of(ks, (k + 1) as nat) as int;
    lemma_offset_monotone(ks, (k + 1) as nat, ks.len() as nat);
    let seg = edge_pairs(ktn, cooc, a, b);
    assert(increasing_grams(seg));
    assert forall|e1: int, e2: int| a <= e1 < e2 < b implies idx[e1] < idx[e2] by {
        assert(seg[e1 - a].0 < seg[e2 - a].0);
        if idx[e1] > idx[e2] {
            assert(ngrams[idx[e2] as int] < ngrams[idx[e1] as int]);
        }
    }
}

/// Builds the key-gram graph of a corpus from the gram counts of its keys:
/// the sorted distinct grams, and the graph whose sources are the keys and
/// whose destinations are the grams, by their index among the sorted grams.
///
/// The edges of each key go to its grams in increasing order, weighted by
/// their count less one; the edges back from each gram come from the keys
/// that have it, in increasing order. The keys must have at least one gram
/// between them.
#[verifier::rlimit(100)]
#[verifier::spinoff_prover]
pub fn graph_from_keys(keys: &Vec<Vec<(usize, usize)>>) -> (r: (Vec<usize>, WeightedVecBipartiteGraph))
    requires
        forall|k: int| 0 <= k < keys@.len() ==> counts_wf(#[trigger] keys@[k]@),
        0 < offset_of(key_lists(keys@), keys@.len() as nat) < usize::MAX,
        keys@.len() < usize::MAX,
    ensures
        ({
            let (ngrams, graph) = r;
            let ks = key_lists(keys@);
            let n = keys@.len();
            &&& forall|i: int, j: int| 0 <= i < j < ngrams@.len() ==> ngrams@[i] < ngrams@[j]
            &&& forall|c: usize| ngrams@.contains(c) <==> exists|k: int| 0 <= k < n && #[trigger] has_gram(ks[k], c)
            &&& graph.layout_wf()
            &&& graph.source_count() == n
            &&& graph.destination_count() == ngrams@.len()
            &&& forall|e: int| 0 <= e < graph.dsts_to_srcs_view().len() ==> (#[trigger] graph.dsts_to_srcs_view()[e] as int) < ngrams@.len()
            &&& forall|e: int| 0 <= e < graph.weights_view().len() ==> #[trigger] graph.weights_view()[e] < usize::MAX
            &&& forall|k: int| 0 <= k <= n ==> #[trigger] graph.srcs_offsets_view()[k] == offset_of(ks, k as nat)
            &&& forall|k: int|
                0 <= k < n ==> {
                    let a = offset_of(ks, k as nat) as int;
                    let b = offset_of(ks, (k + 1) as nat) as int;
                    let seg = Seq::new(
                        (b - a) as nat,
                        |x: int|
                            (
                                ngrams@[graph.dsts_to_srcs_view()[a + x] as int],
                                (graph.weights_view()[a + x] + 1) as usize,
                            ),
                    );
                    &&& increasing_grams(seg)
                    &&& same_pairs(seg, #[trigger] ks[k])
                }
            &&& forall|i: int|
                0 <= i < ngrams@.len() ==> #[trigger] keys_having(ks, ngrams@[i], n as nat).len()
                    == graph.dsts_offsets_view()[i + 1] - graph.dsts_offsets_view()[i]
            &&& forall|i: int, t: int|
                0 <= i < ngrams@.len() && 0 <= t < graph.dsts_offsets_view()[i + 1] - graph.dsts_offsets_view()[i]
                    ==> graph.srcs_to_dsts_view()[graph.dsts_offsets_view()[i] + t] as nat
                    == #[trigger] keys_having(ks, ngrams@[i], n as nat)[t]
        }),
{
    let ghost ks = key_lists(keys@);
    let ghost n = keys@.len();
    let (ngrams, cooccurrences, key_offsets_av, _maximal_cooccurrence, key_to_ngrams) = parse_keys(keys);
    let ghost total = key_to_ngrams@.len();
    let ghost ktn = key_to_ngrams@;
    let ghost cooc = cooccurrences.values();
    proof {
        assert(parsed_segments(ks, ktn, cooc));
        assert forall|e: int| 0 <= e < total implies ngrams@.contains(#[trigger] ktn[e]) by {
            assert(ktn.contains(ktn[e]));
        }
    }
    let weights = to_usizes(&cooccurrences);
    let key_offsets = to_u64s(&key_offsets_av);
    let idx = gram_indices(&ngrams, &key_to_ngrams);
    let g_count = ngrams.len();
    let offsets = gram_offsets(&idx, g_count);
    proof {
        assert(key_offsets@.len() == n + 1);
        assert forall|k: int| 0 <= k <= n implies #[trigger] key_offsets@[k] == offset_of(ks, k as nat) by {
            assert(key_offsets_av.values()[k] == offsets_of(ks)[k]);
        }
        assert(nondecreasing(key_offsets@)) by {
            assert forall|i: int, j: int| 0 <= i <= j < key_offsets@.len() implies key_offsets@[i] <= key_offsets@[j] by {
                lemma_offset_monotone(ks, i as nat, j as nat);
            }
        }
        assert forall|k: int| 0 <= k < key_offsets@.len() - 1 implies #[trigger] segment_increasing(
            idx@,
            key_offsets@[k] as int,
            key_offsets@[k + 1] as int,
        ) by {
            lemma_idx_increasing(ks, ktn, cooc, ngrams@, idx@, k);
        }
    }
    let gram_to_key_edges = place_keys(&idx, &offsets, &key_offsets, g_count);
    proof {
        assert forall|i: int| 0 <= i < g_count implies #[trigger] keys_with_index(
            idx@,
            key_offsets@,
            i as nat,
            n as nat,
        ) == keys_having(ks, ngrams@[i], n as nat) by {
            lemma_keys_with_index_having(ks, ktn, cooc, ngrams@, idx@, key_offsets@, i as nat, n as nat);
        }
        lemma_count_below_range(idx@, 0, 0, g_count as nat, total as nat);
        assert(offsets@[g_count as int] == count_below(idx@, g_count as nat, total as nat));
        assert(offsets@[0] == count_below(idx@, 0, total as nat));
        assert(key_offsets@[n as int] == offset_of(ks, n as nat));
        assert(key_offsets@[0] == offset_of(ks, 0));
    }
    let graph = WeightedVecBipartiteGraph::new(weights, key_offsets, offsets, gram_to_key_edges, idx);
    proof {
        assert(nondecreasing(graph.dsts_offsets_view())) by {
            assert forall|i: int, j: int| 0 <= i <= j < graph.dsts_offsets_view().len() implies graph.dsts_offsets_view()[i]
                <= graph.dsts_offsets_view()[j] by {
                lemma_count_below_range(idx@, i as nat, j as nat, g_count as nat, total as nat);
            }
        }
        assert forall|k: int| 0 <= k < n implies {
            let a = offset_of(ks, k as nat) as int;
            let b = offset_of(ks, (k + 1) as nat) as int;
            let seg = Seq::new(
                (b - a) as nat,
                |x: int|
                    (
                        ngrams@[graph.dsts_to_srcs_view()[a + x] as int],
                        (graph.weights_view()[a + x] + 1) as usize,
                    ),
            );
            &&& increasing_grams(seg)
            &&& same_pairs(seg, #[trigger] ks[k])
        } by {
            let a = offset_of(ks, k as nat) as int;
            let b = offset_of(ks, (k + 1) as nat) as int;
            lemma_offset_monotone(ks, (k + 1) as nat, n as nat);
            lemma_offset_monotone(ks, k as nat, (k + 1) as nat);
            let seg = Seq::new(
                (b - a) as nat,
                |x: int|
                    (
                        ngrams@[graph.dsts_to_srcs_view()[a + x] as int],
                        (graph.weights_view()[a + x] + 1) as usize,
                    ),
            );
            assert(seg =~= edge_pairs(ktn, cooc, a, b));
        }
        assert((key_offsets@.len() - 1) as nat == n as nat);
        assert forall|i: int| 0 <= i < ngrams@.len() implies #[trigger] keys_having(ks, ngrams@[i], n as nat).len()
            == graph.dsts_offsets_view()[i + 1] - graph.dsts_offsets_view()[i] by {
            assert(keys_with_index(idx@, key_offsets@, i as nat, (key_offsets@.len() - 1) as nat) == keys_with_index(
                idx@,
                key_offsets@,
                i as nat,
                n as nat,
            ));
        }
        assert forall|i: int, t: int|
            0 <= i < ngrams@.len() && 0 <= t < graph.dsts_offsets_view()[i + 1] - graph.dsts_offsets_view()[i]
                implies graph.srcs_to_dsts_view()[graph.dsts_offsets_view()[i] + t] as nat
            == #[trigger] keys_having(ks, ngrams@[i], n as nat)[t] by {
            assert(keys_with_index(idx@, key_offsets@, i as nat, (key_offsets@.len() - 1) as nat) == keys_with_index(
                idx@,
                key_offsets@,
                i as nat,
                n as nat,
            ));
            assert(keys_with_index(idx@, key_offsets@, i as nat, (key_offsets@.len() - 1) as nat)[t] == keys_having(
                ks,
                ngrams@[i],
                n as nat,
            )[t]);
        }
        assert forall|c: usize| ngrams@.contains(c) <==> exists|k: int| 0 <= k < n && #[trigger] has_gram(ks[k], c) by {
            if ngrams@.contains(c) {
                assert(ktn.contains(c));
                let e = choose|e: int| 0 <= e < ktn.len() && ktn[e] == c;
                lemma_edge_pair(ks, ktn, cooc, n as nat, e);
                let k = choose|k: int| 0 <= k < n && #[trigger] ks[k].contains((ktn[e], (cooc[e] + 1) as usize));
                let q = choose|q: int| 0 <= q < ks[k].len() && ks[k][q] == (ktn[e], (cooc[e] + 1) as usize);
                assert(has_gram(ks[k], c));
            }
            if exists|k: int| 0 <= k < n && #[trigger] has_gram(ks[k], c) {
                let k = choose|k: int| 0 <= k < n && #[trigger] has_gram(ks[k], c);
                lemma_gram_edge(ks, ktn, cooc, n as nat, k, c);
            }
        }
    }
    (ngrams, graph)
}

/// The keys found through the gram indices are the keys that have the gram.
proof fn lemma_keys_with_index_having(
    ks: Seq<Seq<(usize, usize)>>,
    ktn: Seq<usize>,
    cooc: Seq<nat>,
    ngrams: Seq<usize>,
    idx: Seq<usize>,
    ko: Seq<u64>,
    i: nat,
    k: nat,
)
    requires
        k < ko.len(),
        ko.len() == ks.len() + 1,
        i < ngrams.len(),
        forall|a: int, b: int| 0 <= a < b < ngrams.len() ==> ngrams[a] < ngrams[b],
        idx.len() == ktn.len(),
        forall|e: int| 0 <= e < ktn.len() ==> (#[trigger] idx[e] as int) < ngrams.len() && ngrams[idx[e] as int] == ktn[e],
        forall|j: int| 0 <= j < ko.len() ==> #[trigger] ko[j] == offset_of(ks, j as nat),
        offset_of(ks, ks.len() as nat) == ktn.len(),
        forall|j: int|
            0 <= j < ks.len() ==> same_pairs(
                edge_pairs(ktn, cooc, offset_of(ks, j as nat) as int, offset_of(ks, (j + 1) as nat) as int),
                #[trigger] ks[j],
            ),
    ensures
        keys_with_index(idx, ko, i, k) == keys_having(ks, ngrams[i as int], k),
    decreases k,
{
    if k > 0 {
        let j = k - 1;
        lemma_keys_with_index_having(ks, ktn, cooc, ngrams, idx, ko, i, j as nat);
        let a = offset_of(ks, j as nat) as int;
        let b = offset_of(ks, k) as int;
        assert(ko[j as int] == a && ko[k as int] == b);
        lemma_offset_monotone(ks, k, ks.len() as nat);
        lemma_offset_monotone(ks, j as nat, k);
        let seg = edge_pairs(ktn, cooc, a, b);
        assert(same_pairs(seg, ks[j as int]));
        let c = ngrams[i as int];
        if in_segment(idx, i, a, b) {
            let e = choose|e: int| a <= e < b && idx[e] == i;
            assert(seg[e - a] == (ktn[e], (cooc[e] + 1) as usize));
            assert(seg.contains(seg[e - a]));
            assert(ks[j as int].contains(seg[e - a]));
            let q = choose|q: int| 0 <= q < ks[j as int].len() && ks[j as int][q] == seg[e - a];
            assert(has_gram(ks[j as int], c));
        }
        if has_gram(ks[j as int], c) {
            let q = choose|q: int| 0 <= q < ks[j as int].len() && ks[j as int][q].0 == c;
            assert(ks[j as int].contains(ks[j as int][q]));
            assert(seg.contains(ks[j as int][q]));
            let x = choose|x: int| 0 <= x < seg.len() && seg[x] == ks[j as int][q];
            let e = a + x;
            assert(ktn[e] == c);
            assert(ngrams[idx[e] as int] == ngrams[i as int]);
            if idx[e] < i {
                assert(ngrams[idx[e] as int] < ngrams[i as int]);
            } else if idx[e] > i {
                assert(ngrams[i as int] < ngrams[idx[e] as int]);
            }
            assert(in_segment(idx, i, a, b));
        }
    }
}

} // verus!
