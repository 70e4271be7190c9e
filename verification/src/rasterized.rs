//! A corpus held as a weighted bipartite graph: the keys on one side, the
//! distinct char grams of the keys on the other, each key linked to each of
//! its grams by an edge weighted by how often the gram occurs in the key.
//!
//! A gram is identified by its code, its characters packed into one `usize`
//! at 21 bits each. So the grams of a corpus have one to three characters,
//! and more than one only where `usize` has 64 bits: grams of four to eight
//! characters are not supported.
use vstd::prelude::*;

use crate::corpus_from::{counts_wf, increasing_grams, key_lists, offset_of, same_pairs};
use crate::key_counts::{
    char_key_counts, char_window_codes, has_code, lemma_occurrences_absent, normalized_chars, occurrences,
    padded_chars, tabulates_codes,
};
use crate::key_graph::{binary_search_codes, has_gram, keys_having};
use crate::key_graph_build::graph_from_keys;
use crate::report::CorpusReport;
use crate::search::{known_total, unknown_entries, unknown_total, QueryHashmap};
use crate::trigram_similarity::{contains_any, lemma_merged_any_is_common, nondecreasing_ids, total_count};
use crate::vec_bipartite_graph::WeightedVecBipartiteGraph;

verus! {

/// The codes of the char grams of a key, one per window, from left to right.
pub open spec fn key_codes(key: Seq<char>, arity: nat) -> Seq<nat> {
    char_window_codes(padded_chars(normalized_chars(key), arity), arity)
}

/// The number of distinct grams of a key.
pub open spec fn distinct_codes(key: Seq<char>, arity: nat) -> nat {
    key_codes(key, arity).to_set().len()
}

/// The number of distinct grams of each of the first `k` keys, summed: the
/// number of edges from those keys to their grams.
pub open spec fn total_distinct(keys: Seq<Seq<char>>, arity: nat, k: nat) -> nat
    decreases k,
{
    if k == 0 {
        0
    } else {
        total_distinct(keys, arity, (k - 1) as nat) + distinct_codes(keys[k - 1], arity)
    }
}

/// The characters of each key.
pub open spec fn key_chars(keys: Seq<String>) -> Seq<Seq<char>> {
    keys.map_values(|s: String| s@)
}

/// The ids, in increasing order, of the keys before key `k` that have the
/// gram with code `c`.
pub open spec fn keys_with_code(keys: Seq<Seq<char>>, arity: nat, c: nat, k: nat) -> Seq<nat>
    decreases k,
{
    if k == 0 {
        Seq::empty()
    } else {
        keys_with_code(keys, arity, c, (k - 1) as nat) + if key_codes(keys[k - 1], arity).contains(c) {
            seq![(k - 1) as nat]
        } else {
            Seq::<nat>::empty()
        }
    }
}

/// The keys have at least one gram between them, and the numbers of keys and
/// of edges from keys to grams are below `usize::MAX`, so that their offsets
/// can be counted in a `usize`.
pub open spec fn fits(keys: Seq<Seq<char>>, arity: nat) -> bool {
    let total = total_distinct(keys, arity, keys.len() as nat);
    &&& 0 < total < usize::MAX
    &&& keys.len() < usize::MAX
}

/// A table of gram counts has one entry per distinct gram, and has a gram
/// exactly when the gram occurs.
proof fn lemma_table_codes(t: Seq<(usize, usize)>, codes: Seq<nat>)
    requires
        tabulates_codes(t, codes),
    ensures
        t.len() == codes.to_set().len(),
        forall|c: usize| #[trigger] has_gram(t, c) <==> codes.contains(c as nat),
{
    let g = t.map_values(|p: (usize, usize)| p.0 as nat);
    assert(g.no_duplicates()) by {
        assert forall|i: int, j: int| 0 <= i < g.len() && 0 <= j < g.len() && i != j implies g[i] != g[j] by {
            if i < j {
                assert(t[i].0 != t[j].0);
            } else {
                assert(t[j].0 != t[i].0);
            }
        }
    }
    assert forall|x: nat| g.contains(x) implies codes.contains(x) by {
        let i = choose|i: int| 0 <= i < g.len() && g[i] == x;
        assert(t[i].1 >= 1);
        assert(t[i].1 == occurrences(codes, t[i].0 as nat));
        if !codes.contains(x) {
            lemma_occurrences_absent(codes, x);
        }
    }
    assert forall|x: nat| codes.contains(x) implies g.contains(x) by {
        let j = choose|j: int| 0 <= j < codes.len() && codes[j] == x;
        assert(has_code(t, codes[j]));
        let i = choose|i: int| 0 <= i < t.len() && t[i].0 as nat == codes[j];
        assert(g[i] == x);
    }
    assert(g.to_set() =~= codes.to_set());
    g.unique_seq_to_set();
    assert forall|c: usize| #[trigger] has_gram(t, c) <==> codes.contains(c as nat) by {
        if has_gram(t, c) {
            let i = choose|i: int| 0 <= i < t.len() && t[i].0 == c;
            assert(g[i] == c as nat);
            assert(g.contains(c as nat));
        }
        if codes.contains(c as nat) {
            assert(g.contains(c as nat));
            let i = choose|i: int| 0 <= i < g.len() && g[i] == c as nat;
            assert(t[i].0 == c);
        }
    }
}

/// An increasing list with the pairs of a table of gram counts is a table of
/// the same gram counts.
proof fn lemma_tabulates_same_pairs(seg: Seq<(usize, usize)>, t: Seq<(usize, usize)>, codes: Seq<nat>)
    requires
        increasing_grams(seg),
        same_pairs(seg, t),
        tabulates_codes(t, codes),
    ensures
        tabulates_codes(seg, codes),
{
    assert forall|i: int| 0 <= i < seg.len() implies #[trigger] seg[i].1 >= 1 && seg[i].1 == occurrences(
        codes,
        seg[i].0 as nat,
    ) by {
        assert(seg.contains(seg[i]));
        assert(t.contains(seg[i]));
        let q = choose|q: int| 0 <= q < t.len() && t[q] == seg[i];
        assert(t[q].1 >= 1);
        assert(t[q].1 == occurrences(codes, t[q].0 as nat));
    }
    assert forall|i: int, j: int| 0 <= i < j < seg.len() implies seg[i].0 != seg[j].0 by {
        assert(seg[i].0 < seg[j].0);
    }
    assert forall|j: int| 0 <= j < codes.len() implies has_code(seg, #[trigger] codes[j]) by {
        assert(has_code(t, codes[j]));
        let q = choose|q: int| 0 <= q < t.len() && t[q].0 as nat == codes[j];
        assert(t.contains(t[q]));
        assert(seg.contains(t[q]));
        let i = choose|i: int| 0 <= i < seg.len() && seg[i] == t[q];
        assert(seg[i].0 as nat == codes[j]);
    }
}

/// The edges of the first `k` keys are their distinct grams, summed.
proof fn lemma_offsets_total(ks: Seq<Seq<(usize, usize)>>, keys: Seq<Seq<char>>, arity: nat, k: nat)
    requires
        k <= ks.len(),
        ks.len() == keys.len(),
        forall|j: int| 0 <= j < ks.len() ==> tabulates_codes(#[trigger] ks[j], key_codes(keys[j], arity)),
    ensures
        offset_of(ks, k) == total_distinct(keys, arity, k),
    decreases k,
{
    if k > 0 {
        lemma_offsets_total(ks, keys, arity, (k - 1) as nat);
        lemma_table_codes(ks[k - 1], key_codes(keys[k - 1], arity));
    }
}

/// The keys with a gram in their table are the keys in which the gram occurs.
proof fn lemma_keys_having_codes(ks: Seq<Seq<(usize, usize)>>, keys: Seq<Seq<char>>, arity: nat, c: usize, k: nat)
    requires
        k <= ks.len(),
        ks.len() == keys.len(),
        forall|j: int| 0 <= j < ks.len() ==> tabulates_codes(#[trigger] ks[j], key_codes(keys[j], arity)),
    ensures
        keys_having(ks, c, k) == keys_with_code(keys, arity, c as nat, k),
    decreases k,
{
    if k > 0 {
        lemma_keys_having_codes(ks, keys, arity, c, (k - 1) as nat);
        lemma_table_codes(ks[k - 1], key_codes(keys[k - 1], arity));
        assert(has_gram(ks[k - 1], c) == key_codes(keys[k - 1], arity).contains(c as nat));
    }
}

/// Gram count tables of keys that fit their storage meet what building the
/// graph asks of them.
proof fn lemma_tables_fit(tables: Seq<Vec<(usize, usize)>>, kc: Seq<Seq<char>>, arity: nat)
    requires
        tables.len() == kc.len(),
        forall|j: int| 0 <= j < tables.len() ==> tabulates_codes(#[trigger] tables[j]@, key_codes(kc[j], arity)),
        fits(kc, arity),
    ensures
        forall|j: int| 0 <= j < key_lists(tables).len() ==> tabulates_codes(#[trigger] key_lists(tables)[j], key_codes(kc[j], arity)),
        offset_of(key_lists(tables), tables.len() as nat) == total_distinct(kc, arity, kc.len() as nat),
        forall|j: int| 0 <= j < tables.len() ==> counts_wf(#[trigger] tables[j]@),
{
    let ks = key_lists(tables);
    assert forall|j: int| 0 <= j < ks.len() implies tabulates_codes(#[trigger] ks[j], key_codes(kc[j], arity)) by {
        assert(ks[j] == tables[j]@);
    }
    lemma_offsets_total(ks, kc, arity, tables.len() as nat);
}

/// The codes of the grams with the given ids.
pub open spec fn id_codes(ng: Seq<usize>, ids: Seq<usize>) -> Seq<usize> {
    ids.map_values(|i: usize| ng[i as int])
}

/// Some gram of `q` occurs in the key.
pub open spec fn shares_any(key: Seq<char>, arity: nat, q: Seq<usize>) -> bool {
    exists|j: int| 0 <= j < q.len() && #[trigger] key_codes(key, arity).contains(q[j] as nat)
}

/// The keys of `ids`, in order, in which no gram of `prev` occurs.
pub open spec fn fresh_keys(keys: Seq<Seq<char>>, arity: nat, ids: Seq<nat>, prev: Seq<usize>) -> Seq<nat>
    decreases ids.len(),
{
    if ids.len() == 0 {
        Seq::empty()
    } else {
        fresh_keys(keys, arity, ids.drop_last(), prev) + if shares_any(keys[ids.last() as int], arity, prev) {
            Seq::<nat>::empty()
        } else {
            seq![ids.last()]
        }
    }
}

/// The keys a search for the grams `q` visits after its first `g` grams:
/// gram by gram, the keys in which the gram occurs and no earlier gram of
/// `q` does.
pub open spec fn found_keys(keys: Seq<Seq<char>>, arity: nat, q: Seq<usize>, g: nat) -> Seq<nat>
    decreases g,
{
    if g == 0 {
        Seq::empty()
    } else {
        let h = (g - 1) as nat;
        found_keys(keys, arity, q, h) + fresh_keys(
            keys,
            arity,
            keys_with_code(keys, arity, q[h as int] as nat, keys.len() as nat),
            q.take(h as int),
        )
    }
}

/// No key before `k` has a gram that occurs in none of the keys.
proof fn lemma_keys_with_absent_code(keys: Seq<Seq<char>>, arity: nat, c: nat, k: nat)
    requires
        k <= keys.len(),
        forall|j: int| 0 <= j < keys.len() ==> !(#[trigger] key_codes(keys[j], arity).contains(c)),
    ensures
        keys_with_code(keys, arity, c, k) == Seq::<nat>::empty(),
    decreases k,
{
    if k > 0 {
        lemma_keys_with_absent_code(keys, arity, c, (k - 1) as nat);
    }
}

/// The keys before `k` with the gram `c` are in increasing order, each one
/// below `k` and one in which `c` occurs.
proof fn lemma_keys_with_code_facts(keys: Seq<Seq<char>>, arity: nat, c: nat, k: nat)
    requires
        k <= keys.len(),
    ensures
        forall|y: int| 0 <= y < keys_with_code(keys, arity, c, k).len() ==> #[trigger] keys_with_code(keys, arity, c, k)[y] < k,
        forall|y: int, z: int|
            0 <= y < z < keys_with_code(keys, arity, c, k).len() ==> keys_with_code(keys, arity, c, k)[y] < keys_with_code(keys, arity, c, k)[z],
        forall|j: nat| keys_with_code(keys, arity, c, k).contains(j) <==> (j < k && #[trigger] key_codes(keys[j as int], arity).contains(c)),
    decreases k,
{
    if k > 0 {
        let h = (k - 1) as nat;
        lemma_keys_with_code_facts(keys, arity, c, h);
        let prev = keys_with_code(keys, arity, c, h);
        let cur = keys_with_code(keys, arity, c, k);
        assert forall|j: nat| cur.contains(j) <==> (j < k && #[trigger] key_codes(keys[j as int], arity).contains(c)) by {
            if cur.contains(j) {
                let y = choose|y: int| 0 <= y < cur.len() && cur[y] == j;
                if y < prev.len() {
                    assert(prev[y] == j);
                    assert(prev.contains(j));
                }
            }
            if j < k && key_codes(keys[j as int], arity).contains(c) {
                if j < h {
                    assert(prev.contains(j));
                    let y = choose|y: int| 0 <= y < prev.len() && prev[y] == j;
                    assert(cur[y] == j);
                } else {
                    assert(cur[prev.len() as int] == j);
                }
            }
        }
    }
}

/// The fresh keys of an increasing list of keys are in increasing order, and
/// are the keys of the list in which no gram of `prev` occurs.
proof fn lemma_fresh_keys(keys: Seq<Seq<char>>, arity: nat, ids: Seq<nat>, prev: Seq<usize>)
    requires
        forall|y: int, z: int| 0 <= y < z < ids.len() ==> ids[y] < ids[z],
    ensures
        forall|y: int, z: int|
            0 <= y < z < fresh_keys(keys, arity, ids, prev).len() ==> fresh_keys(keys, arity, ids, prev)[y]
                < fresh_keys(keys, arity, ids, prev)[z],
        forall|j: nat|
            #[trigger] fresh_keys(keys, arity, ids, prev).contains(j) <==> (ids.contains(j) && !shares_any(
                keys[j as int],
                arity,
                prev,
            )),
        forall|y: int|
            0 <= y < fresh_keys(keys, arity, ids, prev).len() ==> ids.contains(
                #[trigger] fresh_keys(keys, arity, ids, prev)[y],
            ),
    decreases ids.len(),
{
    if ids.len() > 0 {
        let init = ids.drop_last();
        lemma_fresh_keys(keys, arity, init, prev);
        let f0 = fresh_keys(keys, arity, init, prev);
        let f = fresh_keys(keys, arity, ids, prev);
        assert forall|y: int| 0 <= y < f0.len() implies #[trigger] f0[y] < ids.last() by {
            assert(init.contains(f0[y]));
            let w = choose|w: int| 0 <= w < init.len() && init[w] == f0[y];
            assert(ids[w] < ids[ids.len() - 1]);
        }
        assert forall|y: int| 0 <= y < f.len() implies ids.contains(#[trigger] f[y]) by {
            if y < f0.len() {
                assert(f[y] == f0[y]);
                assert(init.contains(f0[y]));
                let w = choose|w: int| 0 <= w < init.len() && init[w] == f0[y];
                assert(ids[w] == f[y]);
            } else {
                assert(f[y] == ids.last());
                assert(ids[ids.len() - 1] == f[y]);
            }
        }
        assert forall|y: int, z: int| 0 <= y < z < f.len() implies f[y] < f[z] by {
            if z < f0.len() {
                assert(f[y] == f0[y] && f[z] == f0[z]);
            } else {
                assert(f[y] == f0[y]);
            }
        }
        assert forall|j: nat| #[trigger] f.contains(j) <==> (ids.contains(j) && !shares_any(keys[j as int], arity, prev)) by {
            if f.contains(j) {
                let y = choose|y: int| 0 <= y < f.len() && f[y] == j;
                if y < f0.len() {
                    assert(f0[y] == j);
                    assert(f0.contains(j));
                } else {
                    assert(j == ids.last());
                }
            }
            if ids.contains(j) && !shares_any(keys[j as int], arity, prev) {
                let w = choose|w: int| 0 <= w < ids.len() && ids[w] == j;
                if w < ids.len() - 1 {
                    assert(init[w] == j);
                    assert(init.contains(j));
                    assert(f0.contains(j));
                    let y = choose|y: int| 0 <= y < f0.len() && f0[y] == j;
                    assert(f[y] == j);
                } else {
                    assert(f[f0.len() as int] == j);
                }
            }
        }
    }
}

/// After its first `g` grams, a search has visited each key that shares one
/// of them, and no other key, once.
proof fn lemma_found_keys_upto(keys: Seq<Seq<char>>, arity: nat, q: Seq<usize>, g: nat)
    requires
        g <= q.len(),
    ensures
        forall|k: nat|
            #[trigger] found_keys(keys, arity, q, g).contains(k) <==> (k < keys.len() && shares_any(
                keys[k as int],
                arity,
                q.take(g as int),
            )),
        found_keys(keys, arity, q, g).no_duplicates(),
    decreases g,
{
    if g == 0 {
        assert forall|k: nat| !shares_any(keys[k as int], arity, q.take(0)) by {}
    } else {
        let h = (g - 1) as nat;
        lemma_found_keys_upto(keys, arity, q, h);
        let c = q[h as int] as nat;
        let ids = keys_with_code(keys, arity, c, keys.len() as nat);
        lemma_keys_with_code_facts(keys, arity, c, keys.len() as nat);
        lemma_fresh_keys(keys, arity, ids, q.take(h as int));
        let before = found_keys(keys, arity, q, h);
        let fresh = fresh_keys(keys, arity, ids, q.take(h as int));
        let all = found_keys(keys, arity, q, g);
        assert(all == before + fresh);
        assert forall|key: Seq<char>| #[trigger] shares_any(key, arity, q.take(g as int)) <==> (shares_any(
            key,
            arity,
            q.take(h as int),
        ) || key_codes(key, arity).contains(c)) by {
            if shares_any(key, arity, q.take(g as int)) {
                let j = choose|j: int| 0 <= j < q.take(g as int).len() && #[trigger] key_codes(key, arity).contains(
                    q.take(g as int)[j] as nat,
                );
                if j < h {
                    assert(q.take(h as int)[j] == q.take(g as int)[j]);
                }
            }
            if shares_any(key, arity, q.take(h as int)) {
                let j = choose|j: int| 0 <= j < q.take(h as int).len() && #[trigger] key_codes(key, arity).contains(
                    q.take(h as int)[j] as nat,
                );
                assert(q.take(g as int)[j] == q.take(h as int)[j]);
            }
            if key_codes(key, arity).contains(c) {
                assert(q.take(g as int)[h as int] == q[h as int]);
            }
        }
        assert forall|k: nat| #[trigger] all.contains(k) <==> (k < keys.len() && shares_any(
            keys[k as int],
            arity,
            q.take(g as int),
        )) by {
            if all.contains(k) {
                let y = choose|y: int| 0 <= y < all.len() && all[y] == k;
                if y < before.len() {
                    assert(before[y] == k);
                    assert(before.contains(k));
                } else {
                    assert(fresh[y - before.len()] == k);
                    assert(fresh.contains(k));
                }
            }
            if k < keys.len() && shares_any(keys[k as int], arity, q.take(g as int)) {
                if shares_any(keys[k as int], arity, q.take(h as int)) {
                    assert(before.contains(k));
                    let y = choose|y: int| 0 <= y < before.len() && before[y] == k;
                    assert(all[y] == k);
                } else {
                    assert(key_codes(keys[k as int], arity).contains(c));
                    assert(ids.contains(k));
                    assert(fresh.contains(k));
                    let y = choose|y: int| 0 <= y < fresh.len() && fresh[y] == k;
                    assert(all[before.len() + y] == k);
                }
            }
        }
        assert forall|y: int, z: int| 0 <= y < all.len() && 0 <= z < all.len() && y != z implies all[y] != all[z] by {
            if y < before.len() && z < before.len() {
                assert(before[y] != before[z]);
            } else if y >= before.len() && z >= before.len() {
                let fy = y - before.len();
                let fz = z - before.len();
                if fy < fz {
                    assert(fresh[fy] < fresh[fz]);
                } else {
                    assert(fresh[fz] < fresh[fy]);
                }
            } else {
                let (b, f) = if y < before.len() {
                    (y, z - before.len())
                } else {
                    (z, y - before.len())
                };
                let k = fresh[f];
                assert(fresh.contains(k));
                assert(!shares_any(keys[k as int], arity, q.take(h as int)));
                assert(before.contains(before[b]));
                if before[b] == k {
                    assert(shares_any(keys[k as int], arity, q.take(h as int)));
                }
            }
        }
    }
}

/// A search visits each key that shares a gram with the query, and no
/// other key, exactly once.
pub proof fn lemma_found_keys(keys: Seq<Seq<char>>, arity: nat, q: Seq<usize>)
    ensures
        forall|k: nat|
            #[trigger] found_keys(keys, arity, q, q.len() as nat).contains(k) <==> (k < keys.len() && shares_any(
                keys[k as int],
                arity,
                q,
            )),
        found_keys(keys, arity, q, q.len() as nat).no_duplicates(),
{
    lemma_found_keys_upto(keys, arity, q, q.len() as nat);
    assert(q.take(q.len() as int) =~= q);
}

/// The gram with id `i` occurs in at most `max` of the keys.
pub open spec fn rare_enough(keys: Seq<Seq<char>>, arity: nat, ng: Seq<usize>, i: usize, max: nat) -> bool {
    keys_with_code(keys, arity, ng[i as int] as nat, keys.len() as nat).len() <= max
}

/// The ids among the first `g` of `q`, in order, whose gram occurs in at most
/// `max` of the keys.
pub open spec fn kept_ids(keys: Seq<Seq<char>>, arity: nat, ng: Seq<usize>, q: Seq<usize>, max: nat, g: nat) -> Seq<usize>
    decreases g,
{
    if g == 0 {
        Seq::empty()
    } else {
        let h = (g - 1) as nat;
        kept_ids(keys, arity, ng, q, max, h) + if rare_enough(keys, arity, ng, q[h as int], max) {
            seq![q[h as int]]
        } else {
            Seq::<usize>::empty()
        }
    }
}

/// The keys a search for the sorted gram ids `q` visits, leaving out the
/// grams that occur in more than `max` keys: kept gram by kept gram, the keys
/// in which the gram occurs and no earlier kept gram does.
pub open spec fn query_found(keys: Seq<Seq<char>>, arity: nat, ng: Seq<usize>, q: Seq<usize>, max: nat) -> Seq<nat> {
    let kept = kept_ids(keys, arity, ng, q, max, q.len() as nat);
    found_keys(keys, arity, id_codes(ng, kept), kept.len())
}

/// Some gram of the ids `q` that occurs in at most `max` of the keys occurs
/// in `key`.
pub open spec fn shares_rare(keys: Seq<Seq<char>>, arity: nat, ng: Seq<usize>, key: Seq<char>, q: Seq<usize>, max: nat) -> bool {
    exists|j: int|
        0 <= j < q.len() && rare_enough(keys, arity, ng, q[j], max) && #[trigger] key_codes(key, arity).contains(
            ng[q[j] as int] as nat,
        )
}

/// No more keys than there are have a gram.
proof fn lemma_keys_with_code_len(keys: Seq<Seq<char>>, arity: nat, c: nat, k: nat)
    ensures
        keys_with_code(keys, arity, c, k).len() <= k,
    decreases k,
{
    if k > 0 {
        lemma_keys_with_code_len(keys, arity, c, (k - 1) as nat);
    }
}

/// What a search has visited after its first `k` grams does not depend on
/// the grams after them.
proof fn lemma_found_keys_prefix(keys: Seq<Seq<char>>, arity: nat, s: Seq<usize>, x: usize, k: nat)
    requires
        k <= s.len(),
    ensures
        found_keys(keys, arity, s.push(x), k) == found_keys(keys, arity, s, k),
    decreases k,
{
    if k > 0 {
        let h = (k - 1) as nat;
        lemma_found_keys_prefix(keys, arity, s, x, h);
        assert(s.push(x).take(h as int) =~= s.take(h as int));
        assert(s.push(x)[h as int] == s[h as int]);
    }
}

/// The kept ids of the first `g` ids of a strictly increasing `q` increase
/// strictly, are ids of `q` before `g` whose gram is rare enough, and hold
/// every such id.
proof fn lemma_kept_ids(keys: Seq<Seq<char>>, arity: nat, ng: Seq<usize>, q: Seq<usize>, max: nat, g: nat)
    requires
        g <= q.len(),
        forall|i: int, j: int| 0 <= i < j < q.len() ==> q[i] < q[j],
    ensures
        forall|j: int|
            0 <= j < g && rare_enough(keys, arity, ng, q[j], max) ==> #[trigger] kept_ids(
                keys,
                arity,
                ng,
                q,
                max,
                g,
            ).contains(q[j]),
        forall|y: int|
            0 <= y < kept_ids(keys, arity, ng, q, max, g).len() ==> exists|j: int|
                #![trigger q[j]]
                0 <= j < g && q[j] == #[trigger] kept_ids(keys, arity, ng, q, max, g)[y] && rare_enough(
                    keys,
                    arity,
                    ng,
                    q[j],
                    max,
                ),
        forall|y: int, z: int|
            0 <= y < z < kept_ids(keys, arity, ng, q, max, g).len() ==> kept_ids(keys, arity, ng, q, max, g)[y]
                < kept_ids(keys, arity, ng, q, max, g)[z],
    decreases g,
{
    if g > 0 {
        let h = (g - 1) as nat;
        lemma_kept_ids(keys, arity, ng, q, max, h);
        let before = kept_ids(keys, arity, ng, q, max, h);
        let kept = kept_ids(keys, arity, ng, q, max, g);
        assert forall|y: int| 0 <= y < before.len() implies #[trigger] before[y] < q[h as int] by {
            let j = choose|j: int| #![trigger q[j]] 0 <= j < h && q[j] == before[y] && rare_enough(keys, arity, ng, q[j], max);
        }
        assert forall|j: int| 0 <= j < g && rare_enough(keys, arity, ng, q[j], max) implies #[trigger] kept.contains(q[j]) by {
            if j < h {
                assert(before.contains(q[j]));
                let y = choose|y: int| 0 <= y < before.len() && before[y] == q[j];
                assert(kept[y] == q[j]);
            } else {
                assert(kept[before.len() as int] == q[j]);
            }
        }
        assert forall|y: int| 0 <= y < kept.len() implies exists|j: int|
            #![trigger q[j]]
            0 <= j < g && q[j] == #[trigger] kept[y] && rare_enough(keys, arity, ng, q[j], max) by {
            if y < before.len() {
                assert(kept[y] == before[y]);
            } else {
                assert(kept[y] == q[h as int]);
            }
        }
        assert forall|y: int, z: int| 0 <= y < z < kept.len() implies kept[y] < kept[z] by {
            if z < before.len() {
                assert(kept[y] == before[y] && kept[z] == before[z]);
            } else {
                assert(kept[y] == before[y]);
            }
        }
    }
}

/// With a limit no gram can pass, every id is kept.
proof fn lemma_kept_ids_unlimited(keys: Seq<Seq<char>>, arity: nat, ng: Seq<usize>, q: Seq<usize>, max: nat, g: nat)
    requires
        g <= q.len(),
        max >= keys.len(),
    ensures
        kept_ids(keys, arity, ng, q, max, g) == q.take(g as int),
    decreases g,
{
    if g > 0 {
        let h = (g - 1) as nat;
        lemma_kept_ids_unlimited(keys, arity, ng, q, max, h);
        lemma_keys_with_code_len(keys, arity, ng[q[h as int] as int] as nat, keys.len() as nat);
        assert(q.take(g as int) =~= q.take(h as int).push(q[h as int]));
    }
}

/// A search by sorted gram ids visits exactly the keys that share with the
/// query a gram occurring in at most `max` keys, each of them once: a
/// frequent gram is left out, the keys that have it are not. With a limit no
/// gram can pass, every gram of the query is kept.
pub proof fn lemma_query_found(keys: Seq<Seq<char>>, arity: nat, ng: Seq<usize>, q: Seq<usize>, max: nat)
    requires
        forall|i: int, j: int| 0 <= i < j < q.len() ==> q[i] < q[j],
    ensures
        forall|k: nat|
            #[trigger] query_found(keys, arity, ng, q, max).contains(k) <==> (k < keys.len() && shares_rare(
                keys,
                arity,
                ng,
                keys[k as int],
                q,
                max,
            )),
        query_found(keys, arity, ng, q, max).no_duplicates(),
        max >= keys.len() ==> kept_ids(keys, arity, ng, q, max, q.len() as nat) == q,
{
    let kept = kept_ids(keys, arity, ng, q, max, q.len() as nat);
    let codes = id_codes(ng, kept);
    lemma_kept_ids(keys, arity, ng, q, max, q.len() as nat);
    lemma_found_keys(keys, arity, codes);
    assert(codes.len() == kept.len());
    assert forall|key: Seq<char>| #[trigger] shares_any(key, arity, codes) <==> shares_rare(keys, arity, ng, key, q, max) by {
        if shares_any(key, arity, codes) {
            let y = choose|y: int| 0 <= y < codes.len() && #[trigger] key_codes(key, arity).contains(codes[y] as nat);
            let j = choose|j: int| #![trigger q[j]] 0 <= j < q.len() && q[j] == kept[y] && rare_enough(keys, arity, ng, q[j], max);
            assert(key_codes(key, arity).contains(ng[q[j] as int] as nat));
        }
        if shares_rare(keys, arity, ng, key, q, max) {
            let j = choose|j: int|
                0 <= j < q.len() && rare_enough(keys, arity, ng, q[j], max) && #[trigger] key_codes(key, arity).contains(
                    ng[q[j] as int] as nat,
                );
            assert(kept.contains(q[j]));
            let y = choose|y: int| 0 <= y < kept.len() && kept[y] == q[j];
            assert(codes[y] == ng[q[j] as int]);
        }
    }
    if max >= keys.len() {
        lemma_kept_ids_unlimited(keys, arity, ng, q, max, q.len() as nat);
        assert(q.take(q.len() as int) =~= q);
    }
}

/// The distinct grams of the first `j` keys are no more than those of the
/// first `k`.
proof fn lemma_total_distinct_monotone(keys: Seq<Seq<char>>, arity: nat, j: nat, k: nat)
    requires
        j <= k,
    ensures
        total_distinct(keys, arity, j) <= total_distinct(keys, arity, k),
    decreases k,
{
    if j < k {
        lemma_total_distinct_monotone(keys, arity, j, (k - 1) as nat);
    }
}

/// Rasterized corpus: the keys, their distinct grams in increasing order,
/// and the weighted bipartite graph between them.
pub struct Corpus {
    /// The keys of the corpus.
    keys: Vec<String>,
    /// The number of characters in a gram.
    arity: usize,
    /// The codes of the distinct grams of the keys, in increasing order.
    ngrams: Vec<usize>,
    /// The graph from the keys to their grams, and back.
    graph: WeightedVecBipartiteGraph,
    /// The gram counts of each key.
    tables: Ghost<Seq<Seq<(usize, usize)>>>,
}

impl Corpus {
    /// The characters of each key.
    pub closed spec fn keys_view(&self) -> Seq<Seq<char>> {
        key_chars(self.keys@)
    }

    /// The number of characters in a gram.
    pub closed spec fn arity_view(&self) -> nat {
        self.arity as nat
    }

    /// The codes of the distinct grams, in increasing order.
    pub closed spec fn ngrams_view(&self) -> Seq<usize> {
        self.ngrams@
    }

    /// The number of edges from keys to grams.
    pub closed spec fn edge_total(&self) -> nat {
        self.graph.edge_count()
    }

    /// The grams of key `k`, each with its count in the key, as the edges of
    /// the key list them.
    pub closed spec fn key_grams(&self, k: int) -> Seq<(usize, usize)> {
        let so = self.graph.srcs_offsets_view();
        let a = so[k] as int;
        let b = so[k + 1] as int;
        Seq::new(
            (b - a) as nat,
            |x: int|
                (
                    self.ngrams@[self.graph.dsts_to_srcs_view()[a + x] as int],
                    (self.graph.weights_view()[a + x] + 1) as usize,
                ),
        )
    }

    /// The ids of the grams of key `k`, as the edges of the key list them.
    pub closed spec fn key_gram_ids(&self, k: int) -> Seq<usize> {
        let so = self.graph.srcs_offsets_view();
        let a = so[k] as int;
        let b = so[k + 1] as int;
        Seq::new((b - a) as nat, |x: int| self.graph.dsts_to_srcs_view()[a + x] as usize)
    }

    /// The ids of the keys of gram `i`, as the edges back from the gram list
    /// them.
    pub closed spec fn gram_keys(&self, i: int) -> Seq<nat> {
        let d = self.graph.dsts_offsets_view();
        Seq::new((d[i + 1] - d[i]) as nat, |t: int| self.graph.srcs_to_dsts_view()[d[i] + t] as nat)
    }

    /// The layout of the graph, as built from the gram counts of the keys.
    pub closed spec fn layout(&self) -> bool {
        let ks = self.tables@;
        let n = self.keys@.len();
        let graph = self.graph;
        let ngrams = self.ngrams;
        &&& ks.len() == n
        &&& forall|k: int| 0 <= k < n ==> tabulates_codes(#[trigger] ks[k], key_codes(self.keys_view()[k], self.arity as nat))
        &&& graph.layout_wf()
        &&& graph.source_count() == n
        &&& graph.destination_count() == ngrams@.len()
        &&& forall|e: int| 0 <= e < graph.dsts_to_srcs_view().len() ==> (#[trigger] graph.dsts_to_srcs_view()[e] as int) < ngrams@.len()
        &&& forall|e: int| 0 <= e < graph.weights_view().len() ==> #[trigger] graph.weights_view()[e] < usize::MAX
        &&& forall|k: int| 0 <= k <= n ==> #[trigger] graph.srcs_offsets_view()[k] == offset_of(ks, k as nat)
        &&& forall|i: int| 0 <= i < ngrams@.len() ==> #[trigger] keys_having(ks, ngrams@[i], n as nat).len()
                == graph.dsts_offsets_view()[i + 1] - graph.dsts_offsets_view()[i]
        &&& forall|i: int, t: int|
            0 <= i < ngrams@.len() && 0 <= t < graph.dsts_offsets_view()[i + 1] - graph.dsts_offsets_view()[i]
                ==> graph.srcs_to_dsts_view()[graph.dsts_offsets_view()[i] + t] as nat
                == #[trigger] keys_having(ks, ngrams@[i], n as nat)[t]
    }

    /// The gram codes strictly increase.
    pub open spec fn grams_sorted(&self) -> bool {
        let ng = self.ngrams_view();
        forall|i: int, j: int| 0 <= i < j < ng.len() ==> ng[i] < ng[j]
    }

    /// The grams of the corpus are the grams that occur in its keys.
    pub open spec fn grams_of_keys(&self) -> bool {
        let keys = self.keys_view();
        let a = self.arity_view();
        forall|c: usize|
            #[trigger] self.ngrams_view().contains(c) <==> exists|k: int|
                0 <= k < keys.len() && #[trigger] key_codes(keys[k], a).contains(c as nat)
    }

    /// The edges of each key list its grams in increasing order, each once
    /// with its count in the key.
    pub open spec fn keys_tabulated(&self) -> bool {
        let keys = self.keys_view();
        forall|k: int|
            0 <= k < keys.len() ==> increasing_grams(#[trigger] self.key_grams(k)) && tabulates_codes(
                self.key_grams(k),
                key_codes(keys[k], self.arity_view()),
            )
    }

    /// The gram ids of the edges of each key are the ids of its grams.
    pub open spec fn ids_match(&self) -> bool {
        let n = self.keys_view().len();
        let ng = self.ngrams_view();
        &&& forall|k: int| 0 <= k < n ==> #[trigger] self.key_gram_ids(k).len() == self.key_grams(k).len()
        &&& forall|k: int, x: int|
            0 <= k < n && 0 <= x < self.key_grams(k).len() ==> (#[trigger] self.key_gram_ids(k)[x] as int) < ng.len()
                && ng[self.key_gram_ids(k)[x] as int] == self.key_grams(k)[x].0
    }

    /// The edges back from each gram list the keys in which it occurs, in
    /// increasing order.
    pub open spec fn keys_of_grams(&self) -> bool {
        let keys = self.keys_view();
        let ng = self.ngrams_view();
        forall|i: int|
            0 <= i < ng.len() ==> #[trigger] self.gram_keys(i) == keys_with_code(
                keys,
                self.arity_view(),
                ng[i] as nat,
                keys.len() as nat,
            )
    }

    /// The corpus is as built from its keys: its grams are the distinct grams
    /// of the keys, in increasing order; the edges of each key list its grams
    /// in increasing order, each once with its count; and the edges back from
    /// each gram list the keys in which it occurs, in increasing order.
    pub open spec fn wf(&self) -> bool {
        &&& self.layout()
        &&& 1 <= self.arity_view() <= 3
        &&& self.ngrams_view().len() <= usize::MAX
        &&& self.grams_sorted()
        &&& self.grams_of_keys()
        &&& self.edge_total() == total_distinct(self.keys_view(), self.arity_view(), self.keys_view().len() as nat)
        &&& self.keys_tabulated()
        &&& self.ids_match()
        &&& self.keys_of_grams()
    }

    /// Builds the corpus of the given keys, cutting each into grams of
    /// `arity` characters, when the keys have at least one gram between them
    /// and their graph fits in memory; `None` otherwise. The arity is one to
    /// three, as a gram code holds no more (see the module documentation).
    pub fn try_from_keys(keys: Vec<String>, arity: usize) -> (r: Option<Self>)
        requires
            1 <= arity <= 3,
            arity == 1 || usize::BITS == 64,
            forall|k: int| 0 <= k < keys@.len() ==> #[trigger] keys@[k]@.len() + 2 * arity <= usize::MAX,
        ensures
            r is Some <==> fits(key_chars(keys@), arity as nat),
            r matches Some(c) ==> c.wf() && c.keys_view() == key_chars(keys@) && c.arity_view() == arity,
    {
        let ghost kc = key_chars(keys@);
        let ghost a = arity as nat;
        let n = keys.len();
        let mut tables: Vec<Vec<(usize, usize)>> = Vec::new();
        let mut k: usize = 0;
        while k < n
            invariant
                n == keys@.len(),
                kc == key_chars(keys@),
                a == arity,
                1 <= arity <= 3,
                arity == 1 || usize::BITS == 64,
                forall|j: int| 0 <= j < keys@.len() ==> #[trigger] keys@[j]@.len() + 2 * arity <= usize::MAX,
                k <= n,
                tables@.len() == k,
                forall|j: int| 0 <= j < k ==> tabulates_codes(#[trigger] tables@[j]@, key_codes(kc[j], a)),
            decreases n - k,
        {
            let t = char_key_counts(keys[k].as_str(), arity);
            proof {
                assert(kc[k as int] == keys@[k as int]@);
            }
            tables.push(t);
            k = k + 1;
        }
        let ghost ks = key_lists(tables@);
        proof {
            assert forall|j: int| 0 <= j < ks.len() implies tabulates_codes(#[trigger] ks[j], key_codes(kc[j], a)) by {
                assert(ks[j] == tables@[j]@);
            }
        }
        let mut total: usize = 0;
        let mut j: usize = 0;
        while j < n
            invariant
                n == keys@.len(),
                n == tables@.len(),
                kc == key_chars(keys@),
                a == arity,
                ks == key_lists(tables@),
                forall|i: int| 0 <= i < ks.len() ==> tabulates_codes(#[trigger] ks[i], key_codes(kc[i], a)),
                j <= n,
                total == total_distinct(kc, a, j as nat),
                total < usize::MAX,
            decreases n - j,
        {
            let len = tables[j].len();
            proof {
                assert(ks[j as int] == tables@[j as int]@);
                lemma_table_codes(ks[j as int], key_codes(kc[j as int], a));
                lemma_total_distinct_monotone(kc, a, (j + 1) as nat, n as nat);
            }
            if len >= usize::MAX - total {
                return None;
            }
            total = total + len;
            j = j + 1;
        }
        if total == 0 || n == usize::MAX {
            return None;
        }
        proof {
            assert(fits(kc, a));
        }
        Some(Self::from_keys(keys, arity))
    }

    /// Builds the corpus of the given keys, cutting each into grams of
    /// `arity` characters: one to three, as a gram code holds no more (see
    /// the module documentation).
    pub fn from_keys(keys: Vec<String>, arity: usize) -> (r: Self)
        requires
            1 <= arity <= 3,
            arity == 1 || usize::BITS == 64,
            forall|k: int| 0 <= k < keys@.len() ==> #[trigger] keys@[k]@.len() + 2 * arity <= usize::MAX,
            fits(key_chars(keys@), arity as nat),
        ensures
            r.wf(),
            r.keys_view() == key_chars(keys@),
            r.arity_view() == arity,
    {
        let ghost kc = key_chars(keys@);
        let n = keys.len();
        let mut tables: Vec<Vec<(usize, usize)>> = Vec::new();
        let mut k: usize = 0;
        while k < n
            invariant
                n == keys@.len(),
                kc == key_chars(keys@),
                1 <= arity <= 3,
                arity == 1 || usize::BITS == 64,
                forall|j: int| 0 <= j < keys@.len() ==> #[trigger] keys@[j]@.len() + 2 * arity <= usize::MAX,
                k <= n,
                tables@.len() == k,
                forall|j: int| 0 <= j < k ==> tabulates_codes(#[trigger] tables@[j]@, key_codes(kc[j], arity as nat)),
            decreases n - k,
        {
            let t = char_key_counts(keys[k].as_str(), arity);
            proof {
                assert(kc[k as int] == keys@[k as int]@);
            }
            tables.push(t);
            k = k + 1;
        }
        let ghost ks = key_lists(tables@);
        proof {
            lemma_tables_fit(tables@, kc, arity as nat);
        }
        let (ngrams, graph) = graph_from_keys(&tables);
        let number_of_grams: usize = ngrams.len();
        let r = Corpus { keys, arity, ngrams, graph, tables: Ghost(ks) };
        proof {
            assert(r.keys_view() == kc);
            assert(r.tables@ == ks);
            assert(r.keys@.len() == tables@.len());
            assert forall|c: usize|
                r.ngrams@.contains(c) <==> exists|k: int| 0 <= k < r.keys@.len() && #[trigger] has_gram(r.tables@[k], c) by {
                if r.ngrams@.contains(c) {
                    let k = choose|k: int| 0 <= k < tables@.len() && #[trigger] has_gram(ks[k], c);
                    assert(has_gram(r.tables@[k], c));
                }
            }
            r.lemma_wf_from_layout();
        }
        r
    }

    /// Returns the number of characters in a gram of the corpus.
    pub fn arity(&self) -> (r: usize)
        ensures
            r == self.arity_view(),
    {
        self.arity
    }

    /// Returns the number of keys in the corpus.
    pub fn number_of_keys(&self) -> (r: usize)
        ensures
            r == self.keys_view().len(),
    {
        self.keys.len()
    }

    /// Returns the number of distinct grams in the corpus.
    pub fn number_of_ngrams(&self) -> (r: usize)
        ensures
            r == self.ngrams_view().len(),
    {
        self.ngrams.len()
    }

    /// Returns the number of edges from keys to grams: the distinct grams of
    /// each key, summed over the keys.
    pub fn number_of_edges(&self) -> (r: usize)
        requires
            self.wf(),
        ensures
            r == total_distinct(self.keys_view(), self.arity_view(), self.keys_view().len() as nat),
    {
        self.graph.number_of_edges()
    }

    /// Returns the key with the given id.
    pub fn key_from_id(&self, key_id: usize) -> (r: &String)
        requires
            key_id < self.keys_view().len(),
        ensures
            r@ == self.keys_view()[key_id as int],
    {
        &self.keys[key_id]
    }

    /// Returns the code of the gram with the given id.
    pub fn ngram_from_id(&self, ngram_id: usize) -> (r: usize)
        requires
            ngram_id < self.ngrams_view().len(),
        ensures
            r == self.ngrams_view()[ngram_id as int],
    {
        self.ngrams[ngram_id]
    }

    /// Returns the id of the gram with the given code, if the corpus has it;
    /// if it does not, the index where the code would be inserted to keep
    /// the grams sorted.
    pub fn ngram_id_from_ngram(&self, ngram: usize) -> (r: Result<usize, usize>)
        requires
            self.wf(),
        ensures
            match r {
                Ok(i) => i < self.ngrams_view().len() && self.ngrams_view()[i as int] == ngram,
                Err(i) => i <= self.ngrams_view().len() && !self.ngrams_view().contains(ngram) && (forall|k: int|
                    0 <= k < i ==> self.ngrams_view()[k] < ngram) && (forall|k: int|
                    i <= k < self.ngrams_view().len() ==> ngram < self.ngrams_view()[k]),
            },
    {
        proof {
            assert forall|i: int, j: int| 0 <= i <= j < self.ngrams@.len() implies self.ngrams@[i] <= self.ngrams@[j] by {
                if i < j {
                    assert(self.ngrams@[i] < self.ngrams@[j]);
                }
            }
        }
        let r = binary_search_codes(self.ngrams.as_slice(), ngram);
        proof {
            if let Err(i) = r {
                if self.ngrams@.contains(ngram) {
                    let w = choose|w: int| 0 <= w < self.ngrams@.len() && self.ngrams@[w] == ngram;
                    if w < i {
                        assert(self.ngrams@[w] < ngram);
                    } else {
                        assert(ngram < self.ngrams@[w]);
                    }
                }
            }
        }
        r
    }

    /// The offsets of key `key_id` in the graph are in order and in range.
    proof fn lemma_key_range(&self, key_id: int)
        requires
            self.wf(),
            0 <= key_id < self.keys_view().len(),
        ensures
            key_id + 1 < self.graph.srcs_offsets_view().len(),
            self.graph.srcs_offsets_view()[key_id] <= self.graph.srcs_offsets_view()[key_id + 1],
            self.graph.srcs_offsets_view()[key_id + 1] <= self.graph.edge_count(),
            self.graph.dsts_to_srcs_view().len() == self.graph.edge_count(),
            self.graph.weights_view().len() == self.graph.edge_count(),
    {
        let so = self.graph.srcs_offsets_view();
        assert(self.keys@.len() == self.keys_view().len());
        assert(so[key_id] <= so[key_id + 1]);
        assert(so[key_id + 1] <= so[so.len() - 1]);
    }

    /// The offsets of gram `ngram_id` in the graph are in order and in range.
    proof fn lemma_gram_range(&self, ngram_id: int)
        requires
            self.wf(),
            0 <= ngram_id < self.ngrams_view().len(),
        ensures
            ngram_id + 1 < self.graph.dsts_offsets_view().len(),
            self.graph.dsts_offsets_view()[ngram_id] <= self.graph.dsts_offsets_view()[ngram_id + 1],
            self.graph.dsts_offsets_view()[ngram_id + 1] <= self.graph.srcs_to_dsts_view().len(),
    {
        let d = self.graph.dsts_offsets_view();
        assert(d[ngram_id] <= d[ngram_id + 1]);
        assert(d[ngram_id + 1] <= d[d.len() - 1]);
    }

    /// Returns the number of distinct grams of a key.
    pub fn number_of_ngrams_from_key_id(&self, key_id: usize) -> (r: usize)
        requires
            self.wf(),
            key_id < self.keys_view().len(),
        ensures
            r == self.key_grams(key_id as int).len(),
            r == distinct_codes(self.keys_view()[key_id as int], self.arity_view()),
    {
        proof {
            self.lemma_key_range(key_id as int);
            lemma_table_codes(
                self.key_grams(key_id as int),
                key_codes(self.keys_view()[key_id as int], self.arity_view()),
            );
        }
        self.graph.src_degree(key_id)
    }

    /// Returns the number of keys in which a gram occurs.
    pub fn number_of_keys_from_ngram_id(&self, ngram_id: usize) -> (r: usize)
        requires
            self.wf(),
            ngram_id < self.ngrams_view().len(),
        ensures
            r == keys_with_code(
                self.keys_view(),
                self.arity_view(),
                self.ngrams_view()[ngram_id as int] as nat,
                self.keys_view().len() as nat,
            ).len(),
    {
        proof {
            self.lemma_gram_range(ngram_id as int);
            assert(self.gram_keys(ngram_id as int).len() == self.graph.dsts_offsets_view()[ngram_id + 1]
                - self.graph.dsts_offsets_view()[ngram_id as int]);
        }
        self.graph.dst_degree(ngram_id)
    }

    /// Returns the ids, in increasing order, of the keys in which a gram
    /// occurs.
    pub fn key_ids_from_ngram_id(&self, ngram_id: usize) -> (r: Vec<usize>)
        requires
            self.wf(),
            ngram_id < self.ngrams_view().len(),
        ensures
            r@.map_values(|x: usize| x as nat) == keys_with_code(
                self.keys_view(),
                self.arity_view(),
                self.ngrams_view()[ngram_id as int] as nat,
                self.keys_view().len() as nat,
            ),
    {
        proof {
            self.lemma_gram_range(ngram_id as int);
        }
        let r = self.graph.srcs_from_dst(ngram_id);
        proof {
            assert(r@.map_values(|x: usize| x as nat) =~= self.gram_keys(ngram_id as int));
        }
        r
    }

    /// Returns the ids of the grams of a key, in increasing order.
    pub fn ngram_ids_from_key(&self, key_id: usize) -> (r: Vec<usize>)
        requires
            self.wf(),
            key_id < self.keys_view().len(),
        ensures
            r@ == self.key_gram_ids(key_id as int),
    {
        proof {
            self.lemma_key_range(key_id as int);
        }
        let r = self.graph.dsts_from_src(key_id);
        proof {
            assert(r@ =~= self.key_gram_ids(key_id as int));
        }
        r
    }

    /// Returns the counts in a key of its grams, in increasing order of the
    /// grams.
    pub fn ngram_cooccurrences_from_key(&self, key_id: usize) -> (r: Vec<usize>)
        requires
            self.wf(),
            key_id < self.keys_view().len(),
        ensures
            r@ == self.key_grams(key_id as int).map_values(|p: (usize, usize)| p.1),
    {
        proof {
            self.lemma_key_range(key_id as int);
        }
        let weights = self.graph.weights_from_src(key_id);
        let ghost a = self.graph.srcs_offsets_view()[key_id as int] as int;
        let mut out: Vec<usize> = Vec::new();
        let mut x: usize = 0;
        while x < weights.len()
            invariant
                self.wf(),
                key_id < self.keys_view().len(),
                a == self.graph.srcs_offsets_view()[key_id as int] as int,
                a + weights@.len() <= self.graph.weights_view().len(),
                weights@.len() == self.key_grams(key_id as int).len(),
                forall|y: int| 0 <= y < weights@.len() ==> #[trigger] weights@[y] == self.graph.weights_view()[a + y] as usize,
                x <= weights@.len(),
                out@ == self.key_grams(key_id as int).map_values(|p: (usize, usize)| p.1).take(x as int),
            decreases weights@.len() - x,
        {
            proof {
                assert(self.graph.weights_view()[a + x] < usize::MAX);
            }
            out.push(weights[x] + 1);
            x = x + 1;
            proof {
                assert(out@ =~= self.key_grams(key_id as int).map_values(|p: (usize, usize)| p.1).take(x as int));
            }
        }
        proof {
            assert(out@ =~= self.key_grams(key_id as int).map_values(|p: (usize, usize)| p.1));
        }
        out
    }

    /// Returns the ids of the grams of a key, each with its count in the
    /// key, in increasing order of the grams.
    pub fn ngram_ids_and_cooccurrences_from_key(&self, key_id: usize) -> (r: Vec<(usize, usize)>)
        requires
            self.wf(),
            key_id < self.keys_view().len(),
        ensures
            r@.len() == self.key_grams(key_id as int).len(),
            forall|x: int|
                0 <= x < r@.len() ==> #[trigger] r@[x] == (
                    self.key_gram_ids(key_id as int)[x],
                    self.key_grams(key_id as int)[x].1,
                ),
    {
        let ids = self.ngram_ids_from_key(key_id);
        let counts = self.ngram_cooccurrences_from_key(key_id);
        let mut out: Vec<(usize, usize)> = Vec::new();
        let mut x: usize = 0;
        while x < ids.len()
            invariant
                self.wf(),
                key_id < self.keys_view().len(),
                ids@ == self.key_gram_ids(key_id as int),
                counts@ == self.key_grams(key_id as int).map_values(|p: (usize, usize)| p.1),
                x <= ids@.len(),
                out@.len() == x,
                forall|y: int|
                    0 <= y < x ==> #[trigger] out@[y] == (
                        self.key_gram_ids(key_id as int)[y],
                        self.key_grams(key_id as int)[y].1,
                    ),
            decreases ids@.len() - x,
        {
            out.push((ids[x], counts[x]));
            x = x + 1;
        }
        out
    }

    /// Returns the codes of the grams of a key, each with its count in the
    /// key, in increasing order.
    pub fn ngrams_and_cooccurrences_from_key(&self, key_id: usize) -> (r: Vec<(usize, usize)>)
        requires
            self.wf(),
            key_id < self.keys_view().len(),
        ensures
            r@ == self.key_grams(key_id as int),
    {
        let ids = self.ngram_ids_from_key(key_id);
        let counts = self.ngram_cooccurrences_from_key(key_id);
        let mut out: Vec<(usize, usize)> = Vec::new();
        let mut x: usize = 0;
        while x < ids.len()
            invariant
                self.wf(),
                key_id < self.keys_view().len(),
                ids@ == self.key_gram_ids(key_id as int),
                counts@ == self.key_grams(key_id as int).map_values(|p: (usize, usize)| p.1),
                x <= ids@.len(),
                out@ == self.key_grams(key_id as int).take(x as int),
            decreases ids@.len() - x,
        {
            proof {
                assert((self.key_gram_ids(key_id as int)[x as int] as int) < self.ngrams_view().len());
            }
            let code = self.ngrams[ids[x]];
            out.push((code, counts[x]));
            x = x + 1;
            proof {
                assert(out@ =~= self.key_grams(key_id as int).take(x as int));
            }
        }
        proof {
            assert(out@ =~= self.key_grams(key_id as int));
        }
        out
    }

    /// Returns the codes of the grams of a key, in increasing order.
    pub fn ngrams_from_key(&self, key_id: usize) -> (r: Vec<usize>)
        requires
            self.wf(),
            key_id < self.keys_view().len(),
        ensures
            r@ == self.key_grams(key_id as int).map_values(|p: (usize, usize)| p.0),
    {
        let ids = self.ngram_ids_from_key(key_id);
        let mut out: Vec<usize> = Vec::new();
        let mut x: usize = 0;
        while x < ids.len()
            invariant
                self.wf(),
                key_id < self.keys_view().len(),
                ids@ == self.key_gram_ids(key_id as int),
                x <= ids@.len(),
                out@ == self.key_grams(key_id as int).map_values(|p: (usize, usize)| p.0).take(x as int),
            decreases ids@.len() - x,
        {
            proof {
                assert((self.key_gram_ids(key_id as int)[x as int] as int) < self.ngrams_view().len());
            }
            out.push(self.ngrams[ids[x]]);
            x = x + 1;
            proof {
                assert(out@ =~= self.key_grams(key_id as int).map_values(|p: (usize, usize)| p.0).take(x as int));
            }
        }
        proof {
            assert(out@ =~= self.key_grams(key_id as int).map_values(|p: (usize, usize)| p.0));
        }
        out
    }

    /// Returns whether any of the given sorted gram codes occurs in a key,
    /// walking the grams of the key and the given codes in step.
    pub fn contains_any_ngrams(&self, sorted_ngrams: &[usize], key_id: usize) -> (r: bool)
        requires
            self.wf(),
            key_id < self.keys_view().len(),
            nondecreasing_ids(sorted_ngrams@),
        ensures
            r == exists|j: int|
                0 <= j < sorted_ngrams@.len() && #[trigger] key_codes(
                    self.keys_view()[key_id as int],
                    self.arity_view(),
                ).contains(sorted_ngrams@[j] as nat),
    {
        let codes = self.ngrams_from_key(key_id);
        let r = contains_any(codes.as_slice(), sorted_ngrams);
        proof {
            let g = self.key_grams(key_id as int);
            let kc = key_codes(self.keys_view()[key_id as int], self.arity_view());
            assert(nondecreasing_ids(codes@)) by {
                assert forall|i: int, j: int| 0 <= i <= j < codes@.len() implies codes@[i] <= codes@[j] by {
                    if i < j {
                        assert(g[i].0 < g[j].0);
                    }
                }
            }
            lemma_merged_any_is_common(codes@, sorted_ngrams@);
            lemma_table_codes(g, kc);
            if r {
                let (i, j) = choose|i: int, j: int|
                    0 <= i < codes@.len() && 0 <= j < sorted_ngrams@.len() && codes@[i] == sorted_ngrams@[j];
                assert(has_gram(g, sorted_ngrams@[j]));
                assert(kc.contains(sorted_ngrams@[j] as nat));
            }
            if exists|j: int| 0 <= j < sorted_ngrams@.len() && #[trigger] kc.contains(sorted_ngrams@[j] as nat) {
                let j = choose|j: int| 0 <= j < sorted_ngrams@.len() && #[trigger] kc.contains(sorted_ngrams@[j] as nat);
                assert(has_gram(g, sorted_ngrams@[j]));
                let i = choose|i: int| 0 <= i < g.len() && g[i].0 == sorted_ngrams@[j];
                assert(codes@[i] == sorted_ngrams@[j]);
            }
        }
        r
    }

    /// Returns the ids of the keys a search for the sorted gram codes of a
    /// query visits: gram by gram, the keys in which the gram occurs and no
    /// earlier gram of the query does.
    pub fn search_candidates(&self, query: &Vec<usize>) -> (r: Vec<usize>)
        requires
            self.wf(),
            forall|i: int, j: int| 0 <= i < j < query@.len() ==> query@[i] < query@[j],
        ensures
            r@.map_values(|x: usize| x as nat) == found_keys(
                self.keys_view(),
                self.arity_view(),
                query@,
                query@.len() as nat,
            ),
    {
        let ghost keys = self.keys_view();
        let ghost a = self.arity_view();
        let ghost q = query@;
        let mut out: Vec<usize> = Vec::new();
        let mut prev: Vec<usize> = Vec::new();
        let mut g: usize = 0;
        while g < query.len()
            invariant
                self.wf(),
                keys == self.keys_view(),
                a == self.arity_view(),
                q == query@,
                forall|i: int, j: int| 0 <= i < j < q.len() ==> q[i] < q[j],
                g <= q.len(),
                prev@ == q.take(g as int),
                out@.map_values(|x: usize| x as nat) == found_keys(keys, a, q, g as nat),
            decreases q.len() - g,
        {
            let ghost before = out@;
            let ghost ids_spec = keys_with_code(keys, a, q[g as int] as nat, keys.len() as nat);
            proof {
                assert(nondecreasing_ids(prev@)) by {
                    assert forall|i: int, j: int| 0 <= i <= j < prev@.len() implies prev@[i] <= prev@[j] by {
                        if i < j {
                            assert(q[i] < q[j]);
                        }
                    }
                }
            }
            match self.ngram_id_from_ngram(query[g]) {
                Ok(ngram_id) => {
                    let ids = self.key_ids_from_ngram_id(ngram_id);
                    proof {
                        lemma_keys_with_code_facts(keys, a, q[g as int] as nat, keys.len() as nat);
                        assert forall|y: int| 0 <= y < ids@.len() implies (#[trigger] ids@[y] as int) < keys.len() by {
                            assert(ids@.map_values(|x: usize| x as nat)[y] == ids_spec[y]);
                        }
                        assert(out@.map_values(|x: usize| x as nat) =~= before.map_values(|x: usize| x as nat) + fresh_keys(
                            keys,
                            a,
                            ids_spec.take(0),
                            q.take(g as int),
                        ));
                    }
                    let mut t: usize = 0;
                    while t < ids.len()
                        invariant
                            self.wf(),
                            keys == self.keys_view(),
                            a == self.arity_view(),
                            prev@ == q.take(g as int),
                            nondecreasing_ids(prev@),
                            ids@.map_values(|x: usize| x as nat) == ids_spec,
                            forall|y: int| 0 <= y < ids@.len() ==> (#[trigger] ids@[y] as int) < keys.len(),
                            t <= ids@.len(),
                            out@.map_values(|x: usize| x as nat) == before.map_values(|x: usize| x as nat) + fresh_keys(
                                keys,
                                a,
                                ids_spec.take(t as int),
                                q.take(g as int),
                            ),
                        decreases ids@.len() - t,
                    {
                        let key_id = ids[t];
                        let seen = self.contains_any_ngrams(prev.as_slice(), key_id);
                        let ghost old_out = out@;
                        let ghost s = ids_spec.take(t + 1);
                        proof {
                            assert(s.drop_last() =~= ids_spec.take(t as int));
                            assert(ids@.map_values(|x: usize| x as nat)[t as int] == ids_spec[t as int]);
                            assert(s.last() == key_id as nat);
                            assert(seen == shares_any(keys[key_id as int], a, q.take(g as int)));
                            assert(fresh_keys(keys, a, s, q.take(g as int)) == fresh_keys(
                                keys,
                                a,
                                ids_spec.take(t as int),
                                q.take(g as int),
                            ) + if seen {
                                Seq::<nat>::empty()
                            } else {
                                seq![key_id as nat]
                            });
                        }
                        if !seen {
                            out.push(key_id);
                            proof {
                                assert(out@.map_values(|x: usize| x as nat) =~= old_out.map_values(|x: usize| x as nat).push(
                                    key_id as nat,
                                ));
                            }
                        }
                        t = t + 1;
                        proof {
                            assert(out@.map_values(|x: usize| x as nat) =~= before.map_values(|x: usize| x as nat) + fresh_keys(
                                keys,
                                a,
                                ids_spec.take(t as int),
                                q.take(g as int),
                            ));
                        }
                    }
                    proof {
                        assert(ids_spec.take(ids@.len() as int) =~= ids_spec);
                    }
                },
                Err(_) => {
                    proof {
                        assert forall|j: int| 0 <= j < keys.len() implies !(#[trigger] key_codes(keys[j], a).contains(
                            q[g as int] as nat,
                        )) by {
                            if key_codes(keys[j], a).contains(q[g as int] as nat) {
                                assert(self.ngrams_view().contains(q[g as int]));
                            }
                        }
                        lemma_keys_with_absent_code(keys, a, q[g as int] as nat, keys.len() as nat);
                        assert(fresh_keys(keys, a, ids_spec, q.take(g as int)) =~= Seq::<nat>::empty());
                        assert(out@.map_values(|x: usize| x as nat) =~= before.map_values(|x: usize| x as nat) + fresh_keys(keys, a, ids_spec, q.take(g as int)));
                    }
                },
            }
            prev.push(query[g]);
            g = g + 1;
            proof {
                assert(prev@ =~= q.take(g as int));
            }
        }
        out
    }

    /// Builds the query of the given gram counts (no gram twice) against the
    /// grams of the corpus: each known gram becomes its id, with its count,
    /// sorted by id, and the counts of the unknown grams are totalled.
    pub fn ngram_ids_from_ngram_counts(&self, ngram_counts: Vec<(usize, usize)>) -> (q: QueryHashmap)
        requires
            self.wf(),
            counts_wf(ngram_counts@),
            total_count(ngram_counts@) <= usize::MAX,
        ensures
            q.wf(),
            increasing_grams(q.entries()),
            forall|p: (usize, usize)|
                #![trigger q.entries().contains(p)]
                q.entries().contains(p) <==> (p.0 < self.ngrams_view().len() && ngram_counts@.contains(
                    (self.ngrams_view()[p.0 as int], p.1),
                )),
            q.unknown_count() == unknown_total(self.ngrams_view(), ngram_counts@),
            q.identified_count() == known_total(self.ngrams_view(), ngram_counts@),
            q.unknown_count() + q.identified_count() == total_count(ngram_counts@),
            q.unknown_grams() == unknown_entries(self.ngrams_view(), ngram_counts@),
            q.entries().len() + q.unknown_grams() == ngram_counts@.len(),
    {
        QueryHashmap::from_ngram_counts(&self.ngrams, ngram_counts)
    }

    /// The ids of the grams of a key increase, as their codes do.
    proof fn lemma_key_gram_ids_increase(&self, key_id: int)
        requires
            self.wf(),
            0 <= key_id < self.keys_view().len(),
        ensures
            forall|x: int, y: int|
                0 <= x < y < self.key_gram_ids(key_id).len() ==> self.key_gram_ids(key_id)[x] < self.key_gram_ids(
                    key_id,
                )[y],
    {
        let ids = self.key_gram_ids(key_id);
        let g = self.key_grams(key_id);
        let ng = self.ngrams_view();
        assert forall|x: int, y: int| 0 <= x < y < ids.len() implies ids[x] < ids[y] by {
            assert(g[x].0 < g[y].0);
            assert(ng[ids[x] as int] == g[x].0);
            assert(ng[ids[y] as int] == g[y].0);
            if ids[x] >= ids[y] {
                if ids[x] > ids[y] {
                    assert(ng[ids[y] as int] < ng[ids[x] as int]);
                }
            }
        }
    }

    /// Returns whether any of the given sorted gram ids is a gram of a key,
    /// walking the gram ids of the key and the given ids in step.
    pub fn contains_any_ngram_ids(&self, sorted_ids: &[usize], key_id: usize) -> (r: bool)
        requires
            self.wf(),
            key_id < self.keys_view().len(),
            nondecreasing_ids(sorted_ids@),
            forall|j: int| 0 <= j < sorted_ids@.len() ==> (#[trigger] sorted_ids@[j] as int) < self.ngrams_view().len(),
        ensures
            r == shares_any(self.keys_view()[key_id as int], self.arity_view(), id_codes(self.ngrams_view(), sorted_ids@)),
    {
        let ids = self.ngram_ids_from_key(key_id);
        let r = contains_any(ids.as_slice(), sorted_ids);
        proof {
            let g = self.key_grams(key_id as int);
            let ng = self.ngrams_view();
            let kc = key_codes(self.keys_view()[key_id as int], self.arity_view());
            let p = id_codes(ng, sorted_ids@);
            self.lemma_key_gram_ids_increase(key_id as int);
            assert(nondecreasing_ids(ids@)) by {
                assert forall|i: int, j: int| 0 <= i <= j < ids@.len() implies ids@[i] <= ids@[j] by {
                    if i < j {
                        assert(ids@[i] < ids@[j]);
                    }
                }
            }
            lemma_merged_any_is_common(ids@, sorted_ids@);
            lemma_table_codes(g, kc);
            if r {
                let (i, j) = choose|i: int, j: int|
                    0 <= i < ids@.len() && 0 <= j < sorted_ids@.len() && ids@[i] == sorted_ids@[j];
                assert(ng[ids@[i] as int] == g[i].0);
                assert(has_gram(g, p[j]));
                assert(kc.contains(p[j] as nat));
            }
            if shares_any(self.keys_view()[key_id as int], self.arity_view(), p) {
                let j = choose|j: int| 0 <= j < p.len() && #[trigger] kc.contains(p[j] as nat);
                assert(has_gram(g, p[j]));
                let x = choose|x: int| 0 <= x < g.len() && g[x].0 == p[j];
                let id = ids@[x];
                assert(ng[id as int] == g[x].0);
                assert(ng[sorted_ids@[j] as int] == p[j]);
                if id < sorted_ids@[j] {
                    assert(ng[id as int] < ng[sorted_ids@[j] as int]);
                } else if id > sorted_ids@[j] {
                    assert(ng[sorted_ids@[j] as int] < ng[id as int]);
                }
                assert(ids@[x] == sorted_ids@[j]);
            }
        }
        r
    }

    /// Returns the ids of the keys a search for a query visits. The grams of
    /// the query that occur in more than `max_ngram_degree` keys are left
    /// out; kept gram id by kept gram id of the query, the keys in which the
    /// gram occurs and no earlier kept gram does.
    pub fn query_candidates(&self, query: &QueryHashmap, max_ngram_degree: usize) -> (r: Vec<usize>)
        requires
            self.wf(),
            increasing_grams(query.entries()),
            forall|j: int| 0 <= j < query.entries().len() ==> (#[trigger] query.entries()[j].0 as int) < self.ngrams_view().len(),
        ensures
            r@.map_values(|x: usize| x as nat) == query_found(
                self.keys_view(),
                self.arity_view(),
                self.ngrams_view(),
                query.entries().map_values(|p: (usize, usize)| p.0),
                max_ngram_degree as nat,
            ),
    {
        let ghost keys = self.keys_view();
        let ghost a = self.arity_view();
        let ghost ng = self.ngrams_view();
        let ghost max = max_ngram_degree as nat;
        let ids_of_query = query.ngram_ids();
        let ghost q = ids_of_query@;
        proof {
            assert(q =~= query.entries().map_values(|p: (usize, usize)| p.0));
        }
        let mut out: Vec<usize> = Vec::new();
        let mut prev: Vec<usize> = Vec::new();
        let mut g: usize = 0;
        while g < ids_of_query.len()
            invariant
                self.wf(),
                keys == self.keys_view(),
                a == self.arity_view(),
                ng == self.ngrams_view(),
                max == max_ngram_degree as nat,
                q == ids_of_query@,
                forall|i: int, j: int| 0 <= i < j < q.len() ==> q[i] < q[j],
                forall|j: int| 0 <= j < q.len() ==> (#[trigger] q[j] as int) < ng.len(),
                g <= q.len(),
                prev@ == kept_ids(keys, a, ng, q, max, g as nat),
                out@.map_values(|x: usize| x as nat) == found_keys(keys, a, id_codes(ng, prev@), prev@.len()),
            decreases q.len() - g,
        {
            let ghost before = out@;
            let ghost codes = id_codes(ng, prev@);
            let id = ids_of_query[g];
            let ghost ids_spec = keys_with_code(keys, a, ng[id as int] as nat, keys.len() as nat);
            proof {
                lemma_kept_ids(keys, a, ng, q, max, g as nat);
                assert(nondecreasing_ids(prev@)) by {
                    assert forall|i: int, j: int| 0 <= i <= j < prev@.len() implies prev@[i] <= prev@[j] by {
                        if i < j {
                            assert(prev@[i] < prev@[j]);
                        }
                    }
                }
                assert forall|j: int| 0 <= j < prev@.len() implies (#[trigger] prev@[j] as int) < ng.len() by {
                    let i = choose|i: int| #![trigger q[i]] 0 <= i < g && q[i] == prev@[j] && rare_enough(keys, a, ng, q[i], max);
                }
            }
            let degree = self.number_of_keys_from_ngram_id(id);
            if degree <= max_ngram_degree {
                let ids = self.key_ids_from_ngram_id(id);
                proof {
                    lemma_keys_with_code_facts(keys, a, ng[id as int] as nat, keys.len() as nat);
                    assert forall|y: int| 0 <= y < ids@.len() implies (#[trigger] ids@[y] as int) < keys.len() by {
                        assert(ids@.map_values(|x: usize| x as nat)[y] == ids_spec[y]);
                    }
                    assert(out@.map_values(|x: usize| x as nat) =~= before.map_values(|x: usize| x as nat) + fresh_keys(
                        keys,
                        a,
                        ids_spec.take(0),
                        codes,
                    ));
                }
                let mut t: usize = 0;
                while t < ids.len()
                    invariant
                        self.wf(),
                        keys == self.keys_view(),
                        a == self.arity_view(),
                        ng == self.ngrams_view(),
                        codes == id_codes(ng, prev@),
                        nondecreasing_ids(prev@),
                        forall|j: int| 0 <= j < prev@.len() ==> (#[trigger] prev@[j] as int) < ng.len(),
                        ids@.map_values(|x: usize| x as nat) == ids_spec,
                        forall|y: int| 0 <= y < ids@.len() ==> (#[trigger] ids@[y] as int) < keys.len(),
                        t <= ids@.len(),
                        out@.map_values(|x: usize| x as nat) == before.map_values(|x: usize| x as nat) + fresh_keys(
                            keys,
                            a,
                            ids_spec.take(t as int),
                            codes,
                        ),
                    decreases ids@.len() - t,
                {
                    let key_id = ids[t];
                    let seen = self.contains_any_ngram_ids(prev.as_slice(), key_id);
                    let ghost old_out = out@;
                    let ghost s = ids_spec.take(t + 1);
                    proof {
                        assert(s.drop_last() =~= ids_spec.take(t as int));
                        assert(ids@.map_values(|x: usize| x as nat)[t as int] == ids_spec[t as int]);
                        assert(s.last() == key_id as nat);
                        assert(fresh_keys(keys, a, s, codes) == fresh_keys(keys, a, ids_spec.take(t as int), codes)
                            + if seen {
                            Seq::<nat>::empty()
                        } else {
                            seq![key_id as nat]
                        });
                    }
                    if !seen {
                        out.push(key_id);
                        proof {
                            assert(out@.map_values(|x: usize| x as nat) =~= old_out.map_values(|x: usize| x as nat).push(
                                key_id as nat,
                            ));
                        }
                    }
                    t = t + 1;
                    proof {
                        assert(out@.map_values(|x: usize| x as nat) =~= before.map_values(|x: usize| x as nat) + fresh_keys(
                            keys,
                            a,
                            ids_spec.take(t as int),
                            codes,
                        ));
                    }
                }
                let ghost old_prev = prev@;
                prev.push(id);
                proof {
                    assert(ids_spec.take(ids@.len() as int) =~= ids_spec);
                    let h = old_prev.len();
                    assert(id_codes(ng, prev@) =~= codes.push(ng[id as int]));
                    assert(id_codes(ng, prev@).take(h as int) =~= codes);
                    lemma_found_keys_prefix(keys, a, codes, ng[id as int], h as nat);
                    assert(found_keys(keys, a, id_codes(ng, prev@), prev@.len()) == found_keys(keys, a, codes, h as nat)
                        + fresh_keys(keys, a, ids_spec, codes));
                    assert(prev@ =~= kept_ids(keys, a, ng, q, max, (g + 1) as nat));
                }
            } else {
                proof {
                    assert(prev@ =~= kept_ids(keys, a, ng, q, max, (g + 1) as nat));
                }
            }
            g = g + 1;
        }
        proof {
            assert(q.len() == g);
        }
        out
    }

    /// Returns a report of the corpus: its numbers of keys and of grams, and
    /// its number of edges counting those from keys to grams and those back.
    pub fn report(&self) -> (r: CorpusReport)
        requires
            self.wf(),
            2 * total_distinct(self.keys_view(), self.arity_view(), self.keys_view().len() as nat) <= usize::MAX,
        ensures
            r.number_of_keys == self.keys_view().len(),
            r.number_of_grams == self.ngrams_view().len(),
            r.number_of_edges == 2 * total_distinct(self.keys_view(), self.arity_view(), self.keys_view().len() as nat),
    {
        let number_of_keys = self.keys.len();
        let number_of_grams = self.ngrams.len();
        let number_of_edges = self.graph.number_of_edges() * 2;
        CorpusReport { number_of_keys, number_of_grams, number_of_edges }
    }

    /// The graph links a key to a gram exactly when it links the gram back to
    /// the key: key `k` is among the keys of gram `i` exactly when gram `i` is
    /// among the grams of key `k`, which is when the gram occurs in the key.
    pub proof fn lemma_edges_both_ways(&self, k: int, i: int)
        requires
            self.wf(),
            0 <= k < self.keys_view().len(),
            0 <= i < self.ngrams_view().len(),
        ensures
            self.gram_keys(i).contains(k as nat) <==> self.key_gram_ids(k).contains(i as usize),
            self.key_gram_ids(k).contains(i as usize) <==> key_codes(self.keys_view()[k], self.arity_view()).contains(
                self.ngrams_view()[i] as nat,
            ),
    {
        let keys = self.keys_view();
        let a = self.arity_view();
        let ng = self.ngrams_view();
        let c = ng[i];
        let g = self.key_grams(k);
        let ids = self.key_gram_ids(k);
        lemma_keys_with_code_facts(keys, a, c as nat, keys.len() as nat);
        lemma_table_codes(g, key_codes(keys[k], a));
        assert(self.gram_keys(i) == keys_with_code(keys, a, c as nat, keys.len() as nat));
        if ids.contains(i as usize) {
            let x = choose|x: int| 0 <= x < ids.len() && ids[x] == i as usize;
            assert(g.len() == ids.len());
            assert(ng[ids[x] as int] == g[x].0);
            assert(g[x].0 == c);
            assert(has_gram(g, c));
        }
        if key_codes(keys[k], a).contains(c as nat) {
            assert(has_gram(g, c));
            let x = choose|x: int| 0 <= x < g.len() && g[x].0 == c;
            let id = ids[x];
            assert(ng[id as int] == g[x].0);
            if (id as int) < i {
                assert(ng[id as int] < ng[i]);
            } else if (id as int) > i {
                assert(ng[i] < ng[id as int]);
            }
            assert(ids[x] == i as usize);
        }
    }

    /// The edges of each key list its grams, as the layout says.
    proof fn lemma_keys_tabulated(&self)
        requires
            self.layout(),
            forall|k: int|
                0 <= k < self.keys@.len() ==> {
                    let ks = self.tables@;
                    let a = offset_of(ks, k as nat) as int;
                    let b = offset_of(ks, (k + 1) as nat) as int;
                    let seg = Seq::new(
                        (b - a) as nat,
                        |x: int|
                            (
                                self.ngrams@[self.graph.dsts_to_srcs_view()[a + x] as int],
                                (self.graph.weights_view()[a + x] + 1) as usize,
                            ),
                    );
                    &&& increasing_grams(seg)
                    &&& same_pairs(seg, #[trigger] self.tables@[k])
                },
        ensures
            self.keys_tabulated(),
    {
        let ks = self.tables@;
        let keys = self.keys_view();
        let ng = self.ngrams@;
        let a = self.arity_view();
        let so = self.graph.srcs_offsets_view();
        assert(keys.len() == self.keys@.len());
        assert forall|k: int| 0 <= k < keys.len() implies increasing_grams(#[trigger] self.key_grams(k)) && tabulates_codes(
            self.key_grams(k),
            key_codes(keys[k], a),
        ) by {
            let lo = offset_of(ks, k as nat) as int;
            let hi = offset_of(ks, (k + 1) as nat) as int;
            assert(so[k] == lo && so[k + 1] == hi);
            let seg = Seq::new(
                (hi - lo) as nat,
                |x: int|
                    (
                        ng[self.graph.dsts_to_srcs_view()[lo + x] as int],
                        (self.graph.weights_view()[lo + x] + 1) as usize,
                    ),
            );
            assert(self.key_grams(k) =~= seg);
            assert(same_pairs(seg, ks[k]));
            assert(tabulates_codes(ks[k], key_codes(keys[k], a)));
            lemma_tabulates_same_pairs(seg, ks[k], key_codes(keys[k], a));
        }
    }

    /// The grams of the corpus are those of its keys, as the layout says.
    proof fn lemma_grams_of_keys(&self)
        requires
            self.layout(),
            forall|c: usize|
                self.ngrams@.contains(c) <==> exists|k: int|
                    0 <= k < self.keys@.len() && #[trigger] has_gram(self.tables@[k], c),
        ensures
            self.grams_of_keys(),
    {
        let ks = self.tables@;
        let keys = self.keys_view();
        let a = self.arity_view();
        assert(keys.len() == self.keys@.len());
        assert forall|c: usize| #[trigger] self.ngrams_view().contains(c) <==> exists|k: int|
            0 <= k < keys.len() && #[trigger] key_codes(keys[k], a).contains(c as nat) by {
            if self.ngrams@.contains(c) {
                let k = choose|k: int| 0 <= k < self.keys@.len() && #[trigger] has_gram(ks[k], c);
                lemma_table_codes(ks[k], key_codes(keys[k], a));
                assert(key_codes(keys[k], a).contains(c as nat));
            }
            if exists|k: int| 0 <= k < keys.len() && #[trigger] key_codes(keys[k], a).contains(c as nat) {
                let k = choose|k: int| 0 <= k < keys.len() && #[trigger] key_codes(keys[k], a).contains(c as nat);
                lemma_table_codes(ks[k], key_codes(keys[k], a));
                assert(has_gram(ks[k], c));
            }
        }
    }

    /// The gram ids of the edges of each key are the ids of its grams, as
    /// the layout says.
    proof fn lemma_ids_match(&self)
        requires
            self.layout(),
        ensures
            self.ids_match(),
    {
        let keys = self.keys_view();
        let n = keys.len();
        let ng = self.ngrams@;
        let so = self.graph.srcs_offsets_view();
        assert(keys.len() == self.keys@.len());
        assert forall|k: int, x: int|
            0 <= k < n && 0 <= x < self.key_grams(k).len() implies (#[trigger] self.key_gram_ids(k)[x] as int) < ng.len()
                && ng[self.key_gram_ids(k)[x] as int] == self.key_grams(k)[x].0 by {
            let lo = so[k] as int;
            assert(so[k] <= so[k + 1]);
            assert(so[k + 1] <= so[n as int]);
            assert(lo + x < self.graph.dsts_to_srcs_view().len());
        }
    }

    /// The edges back from each gram list the keys in which it occurs, as
    /// the layout says.
    proof fn lemma_keys_of_grams(&self)
        requires
            self.layout(),
        ensures
            self.keys_of_grams(),
    {
        let ks = self.tables@;
        let keys = self.keys_view();
        let n = keys.len();
        let ng = self.ngrams@;
        let a = self.arity_view();
        assert(keys.len() == self.keys@.len());
        assert forall|i: int| 0 <= i < ng.len() implies #[trigger] self.gram_keys(i) == keys_with_code(
            keys,
            a,
            ng[i] as nat,
            n as nat,
        ) by {
            lemma_keys_having_codes(ks, keys, a, ng[i], n as nat);
            assert(self.gram_keys(i) =~= keys_having(ks, ng[i], n as nat));
        }
    }

    /// What the layout of the graph says of the keys.
    proof fn lemma_wf_from_layout(&self)
        requires
            self.layout(),
            1 <= self.arity <= 3,
            self.ngrams@.len() <= usize::MAX,
            forall|i: int, j: int| 0 <= i < j < self.ngrams@.len() ==> self.ngrams@[i] < self.ngrams@[j],
            forall|c: usize|
                self.ngrams@.contains(c) <==> exists|k: int|
                    0 <= k < self.keys@.len() && #[trigger] has_gram(self.tables@[k], c),
            forall|k: int|
                0 <= k < self.keys@.len() ==> {
                    let ks = self.tables@;
                    let a = offset_of(ks, k as nat) as int;
                    let b = offset_of(ks, (k + 1) as nat) as int;
                    let seg = Seq::new(
                        (b - a) as nat,
                        |x: int|
                            (
                                self.ngrams@[self.graph.dsts_to_srcs_view()[a + x] as int],
                                (self.graph.weights_view()[a + x] + 1) as usize,
                            ),
                    );
                    &&& increasing_grams(seg)
                    &&& same_pairs(seg, #[trigger] self.tables@[k])
                },
        ensures
            self.wf(),
    {
        self.lemma_keys_tabulated();
        self.lemma_grams_of_keys();
        self.lemma_ids_match();
        self.lemma_keys_of_grams();
        let keys = self.keys_view();
        assert(keys.len() == self.keys@.len());
        lemma_offsets_total(self.tables@, keys, self.arity_view(), keys.len() as nat);
        assert(self.graph.srcs_offsets_view()[keys.len() as int] == offset_of(self.tables@, keys.len() as nat));
    }
}

} // verus!
