//! Laying out the key-gram graph: gram indices, cumulative gram degrees, and
//! the keys of each gram in order.
use vstd::prelude::*;

use crate::vec_bipartite_graph::nondecreasing;

verus! {

/// The key has an edge to the gram with code `c`.
pub open spec fn has_gram(s: Seq<(usize, usize)>, c: usize) -> bool {
    exists|i: int| 0 <= i < s.len() && s[i].0 == c
}

/// The ids, in increasing order, of the keys before key `k` that have the
/// gram with code `c`.
pub open spec fn keys_having(ks: Seq<Seq<(usize, usize)>>, c: usize, k: nat) -> Seq<nat>
    decreases k,
{
    if k == 0 {
        Seq::empty()
    } else {
        keys_having(ks, c, (k - 1) as nat) + if has_gram(ks[k - 1], c) {
            seq![(k - 1) as nat]
        } else {
            Seq::<nat>::empty()
        }
    }
}

/// How many of the first `upto` entries of `s` equal `i`.
pub open spec fn count_equal(s: Seq<usize>, i: nat, upto: nat) -> nat
    decreases upto,
{
    if upto == 0 {
        0
    } else {
        count_equal(s, i, (upto - 1) as nat) + if s[upto - 1] == i {
            1nat
        } else {
            0nat
        }
    }
}

/// How many of the first `upto` entries of `s` are below `i`.
pub open spec fn count_below(s: Seq<usize>, i: nat, upto: nat) -> nat
    decreases upto,
{
    if upto == 0 {
        0
    } else {
        count_below(s, i, (upto - 1) as nat) + if (s[upto - 1] as nat) < i {
            1nat
        } else {
            0nat
        }
    }
}

/// `<[usize]>::binary_search`: on a sorted slice, `Ok` with the index of an
/// element equal to `x`, or `Err` with the index where `x` could be inserted
/// keeping the order.
#[verifier::external_body]
pub(crate) fn binary_search_codes(s: &[usize], x: usize) -> (r: Result<usize, usize>)
    ensures
        (forall|i: int, j: int| 0 <= i <= j < s@.len() ==> s@[i] <= s@[j]) ==> match r {
            Ok(i) => i < s@.len() && s@[i as int] == x,
            Err(i) => i <= s@.len() && (forall|k: int| 0 <= k < i ==> s@[k] < x) && (forall|k: int|
                i <= k < s@.len() ==> x < s@[k]),
        },
{
    s.binary_search(&x)
}

/// The position of each gram code of `codes` in the sorted `ngrams`.
pub(crate) fn gram_indices(ngrams: &Vec<usize>, codes: &Vec<usize>) -> (r: Vec<usize>)
    requires
        forall|i: int, j: int| 0 <= i < j < ngrams@.len() ==> ngrams@[i] < ngrams@[j],
        forall|e: int| 0 <= e < codes@.len() ==> ngrams@.contains(#[trigger] codes@[e]),
    ensures
        r@.len() == codes@.len(),
        forall|e: int|
            0 <= e < codes@.len() ==> (#[trigger] r@[e] as int) < ngrams@.len() && ngrams@[r@[e] as int]
                == codes@[e],
{
    let mut out: Vec<usize> = Vec::new();
    let mut e: usize = 0;
    while e < codes.len()
        invariant
            forall|i: int, j: int| 0 <= i < j < ngrams@.len() ==> ngrams@[i] < ngrams@[j],
            forall|e2: int| 0 <= e2 < codes@.len() ==> ngrams@.contains(#[trigger] codes@[e2]),
            e <= codes@.len(),
            out@.len() == e,
            forall|e2: int|
                0 <= e2 < e ==> (#[trigger] out@[e2] as int) < ngrams@.len() && ngrams@[out@[e2] as int]
                    == codes@[e2],
        decreases codes@.len() - e,
    {
        let code = codes[e];
        proof {
            assert(ngrams@.contains(codes@[e as int]));
            assert forall|i: int, j: int| 0 <= i <= j < ngrams@.len() implies ngrams@[i] <= ngrams@[j] by {
                if i < j {
                    assert(ngrams@[i] < ngrams@[j]);
                }
            }
        }
        match binary_search_codes(ngrams.as_slice(), code) {
            Ok(i) => {
                out.push(i);
            },
            Err(i) => {
                proof {
                    let w = choose|w: int| 0 <= w < ngrams@.len() && ngrams@[w] == code;
                    if w < i {
                        assert(ngrams@[w] < code);
                    } else {
                        assert(code < ngrams@[w]);
                    }
                }
                out.push(0);
            },
        }
        e = e + 1;
    }
    out
}

/// Splitting the count of entries below `i + 1` at `i`.
proof fn lemma_count_below_step(s: Seq<usize>, i: nat, upto: nat)
    requires
        upto <= s.len(),
    ensures
        count_below(s, i + 1, upto) == count_below(s, i, upto) + count_equal(s, i, upto),
    decreases upto,
{
    if upto > 0 {
        lemma_count_below_step(s, i, (upto - 1) as nat);
    }
}

/// Counts never exceed the number of entries looked at.
proof fn lemma_counts_bounded(s: Seq<usize>, i: nat, upto: nat)
    requires
        upto <= s.len(),
    ensures
        count_equal(s, i, upto) <= upto,
        count_below(s, i, upto) <= upto,
    decreases upto,
{
    if upto > 0 {
        lemma_counts_bounded(s, i, (upto - 1) as nat);
    }
}

/// Nothing is below zero, everything is below a bound of all entries, and
/// counts below grow with the bound.
pub(crate) proof fn lemma_count_below_range(s: Seq<usize>, i: nat, j: nat, bound: nat, upto: nat)
    requires
        upto <= s.len(),
        i <= j,
        forall|e: int| 0 <= e < s.len() ==> (#[trigger] s[e] as nat) < bound,
    ensures
        count_below(s, 0, upto) == 0,
        count_below(s, bound, upto) == upto,
        count_below(s, i, upto) <= count_below(s, j, upto),
    decreases upto,
{
    if upto > 0 {
        lemma_count_below_range(s, i, j, bound, (upto - 1) as nat);
        assert((s[upto - 1] as nat) < bound);
    }
}

/// A zero-filled vector.
fn zeros_u64(n: usize) -> (r: Vec<u64>)
    ensures
        r@.len() == n,
        forall|i: int| 0 <= i < n ==> #[trigger] r@[i] == 0,
{
    let mut out: Vec<u64> = Vec::new();
    let mut i: usize = 0;
    while i < n
        invariant
            i <= n,
            out@.len() == i,
            forall|j: int| 0 <= j < i ==> #[trigger] out@[j] == 0,
        decreases n - i,
    {
        out.push(0);
        i = i + 1;
    }
    out
}

/// A zero-filled vector.
fn zeros_usize(n: usize) -> (r: Vec<usize>)
    ensures
        r@.len() == n,
        forall|i: int| 0 <= i < n ==> #[trigger] r@[i] == 0,
{
    let mut out: Vec<usize> = Vec::new();
    let mut i: usize = 0;
    while i < n
        invariant
            i <= n,
            out@.len() == i,
            forall|j: int| 0 <= j < i ==> #[trigger] out@[j] == 0,
        decreases n - i,
    {
        out.push(0);
        i = i + 1;
    }
    out
}

/// The cumulative inbound degrees of the grams: entry `i` counts the edges
/// whose gram comes before gram `i`.
pub(crate) fn gram_offsets(idx: &Vec<usize>, g_count: usize) -> (r: Vec<u64>)
    requires
        forall|e: int| 0 <= e < idx@.len() ==> (#[trigger] idx@[e] as int) < g_count,
        g_count < usize::MAX,
    ensures
        r@.len() == g_count + 1,
        forall|i: int| 0 <= i <= g_count ==> #[trigger] r@[i] == count_below(idx@, i as nat, idx@.len()),
{
    let ghost s = idx@;
    let total = idx.len();
    let mut degrees = zeros_u64(g_count + 1);
    let mut e: usize = 0;
    while e < total
        invariant
            s == idx@,
            total == s.len(),
            forall|e2: int| 0 <= e2 < s.len() ==> (#[trigger] s[e2] as int) < g_count,
            e <= total,
            degrees@.len() == g_count + 1,
            degrees@[0] == 0,
            forall|i: int| 0 <= i < g_count ==> #[trigger] degrees@[i + 1] == count_equal(s, i as nat, e as nat),
        decreases total - e,
    {
        let i = idx[e] as usize;
        proof {
            lemma_counts_bounded(s, i as nat, e as nat);
        }
        let d = degrees[i + 1];
        degrees.set(i + 1, d + 1);
        e = e + 1;
        proof {
            assert forall|j: int| 0 <= j < g_count implies #[trigger] degrees@[j + 1] == count_equal(
                s,
                j as nat,
                e as nat,
            ) by {
                assert(count_equal(s, j as nat, e as nat) == count_equal(s, j as nat, (e - 1) as nat) + if s[e - 1]
                    == j {
                    1nat
                } else {
                    0nat
                });
            }
        }
    }
    let mut i: usize = 1;
    proof {
        lemma_count_below_range(s, 0, 0, g_count as nat, total as nat);
        assert forall|j: int| 1 <= j <= g_count implies #[trigger] degrees@[j] == count_equal(
            s,
            (j - 1) as nat,
            total as nat,
        ) by {
            let h = j - 1;
            assert(degrees@[h + 1] == count_equal(s, h as nat, total as nat));
        }
    }
    while i <= g_count
        invariant
            s == idx@,
            total == s.len(),
            forall|e2: int| 0 <= e2 < s.len() ==> (#[trigger] s[e2] as int) < g_count,
            1 <= i <= g_count + 1,
            g_count < usize::MAX,
            degrees@.len() == g_count + 1,
            forall|j: int| 0 <= j < i ==> #[trigger] degrees@[j] == count_below(s, j as nat, total as nat),
            forall|j: int| i <= j <= g_count ==> #[trigger] degrees@[j] == count_equal(s, (j - 1) as nat, total as nat),
        decreases g_count + 1 - i,
    {
        proof {
            lemma_count_below_step(s, (i - 1) as nat, total as nat);
            lemma_count_below_range(s, i as nat, g_count as nat, g_count as nat, total as nat);
        }
        let prev = degrees[i - 1];
        let cur = degrees[i];
        degrees.set(i, prev + cur);
        i = i + 1;
    }
    degrees
}

/// Some edge from `a` to `b` has the gram index `i`.
pub open spec fn in_segment(idx: Seq<usize>, i: nat, a: int, b: int) -> bool {
    exists|e: int| a <= e < b && idx[e] == i
}

/// The gram indices strictly increase from `a` to `b`.
pub open spec fn segment_increasing(idx: Seq<usize>, a: int, b: int) -> bool {
    forall|e1: int, e2: int| a <= e1 < e2 < b ==> idx[e1] < idx[e2]
}

/// The ids, in increasing order, of the keys before key `k` with an edge to
/// the gram with index `i`, the edges of key `j` running from `ko[j]` to
/// `ko[j + 1]`.
pub open spec fn keys_with_index(idx: Seq<usize>, ko: Seq<u64>, i: nat, k: nat) -> Seq<nat>
    decreases k,
{
    if k == 0 {
        Seq::empty()
    } else {
        keys_with_index(idx, ko, i, (k - 1) as nat) + if in_segment(idx, i, ko[k - 1] as int, ko[k as int] as int) {
            seq![(k - 1) as nat]
        } else {
            Seq::<nat>::empty()
        }
    }
}

/// Over a segment of strictly increasing indices, an index is counted once
/// when it occurs there, and not at all otherwise.
proof fn lemma_segment_count(idx: Seq<usize>, i: nat, a: int, b: int)
    requires
        0 <= a <= b <= idx.len(),
        segment_increasing(idx, a, b),
    ensures
        count_equal(idx, i, b as nat) == count_equal(idx, i, a as nat) + if in_segment(idx, i, a, b) {
            1nat
        } else {
            0nat
        },
    decreases b - a,
{
    if a < b {
        lemma_segment_count(idx, i, a, b - 1);
        if idx[b - 1] == i {
            if in_segment(idx, i, a, b - 1) {
                let e = choose|e: int| a <= e < b - 1 && idx[e] == i;
                assert(idx[e] < idx[b - 1]);
            }
            assert(in_segment(idx, i, a, b));
        } else {
            if in_segment(idx, i, a, b) {
                let e = choose|e: int| a <= e < b && idx[e] == i;
                assert(in_segment(idx, i, a, b - 1));
            }
        }
    }
}

/// Counting an index up to the edges of key `k` gives the number of keys
/// before `k` with an edge to it.
proof fn lemma_keys_with_index_len(idx: Seq<usize>, ko: Seq<u64>, i: nat, k: nat)
    requires
        k < ko.len(),
        ko[0] == 0,
        nondecreasing(ko),
        ko.last() <= idx.len(),
        forall|j: int| 0 <= j < ko.len() - 1 ==> #[trigger] segment_increasing(idx, ko[j] as int, ko[j + 1] as int),
    ensures
        count_equal(idx, i, ko[k as int] as nat) == keys_with_index(idx, ko, i, k).len(),
    decreases k,
{
    if k > 0 {
        lemma_keys_with_index_len(idx, ko, i, (k - 1) as nat);
        let j = k - 1;
        assert(segment_increasing(idx, ko[j] as int, ko[j + 1] as int));
        assert(ko[k as int] <= ko.last());
        lemma_segment_count(idx, i, ko[k - 1] as int, ko[k as int] as int);
    }
}

/// Counts grow with the number of entries looked at.
proof fn lemma_count_equal_monotone(s: Seq<usize>, i: nat, a: nat, b: nat)
    requires
        a <= b <= s.len(),
    ensures
        count_equal(s, i, a) <= count_equal(s, i, b),
    decreases b,
{
    if a < b {
        lemma_count_equal_monotone(s, i, a, (b - 1) as nat);
    }
}

/// One placement step keeps the counting invariants.
proof fn lemma_place_counts(
    s: Seq<usize>,
    ko: Seq<u64>,
    g: nat,
    k: nat,
    a: int,
    e: int,
    i0: nat,
    old_f: Seq<u64>,
    new_f: Seq<u64>,
)
    requires
        0 <= a <= e < s.len(),
        s[e] == i0,
        i0 < g,
        !in_segment(s, i0, a, e),
        old_f.len() == g,
        new_f == old_f.update(i0 as int, (old_f[i0 as int] + 1) as u64),
        old_f[i0 as int] + 1 <= u64::MAX,
        forall|i: int| 0 <= i < g ==> #[trigger] old_f[i] == count_equal(s, i as nat, e as nat),
        forall|i: int|
            0 <= i < g ==> #[trigger] keys_with_index(s, ko, i as nat, k).len() + if in_segment(s, i as nat, a, e) {
                1nat
            } else {
                0nat
            } == count_equal(s, i as nat, e as nat),
    ensures
        forall|i: int| 0 <= i < g ==> #[trigger] new_f[i] == count_equal(s, i as nat, (e + 1) as nat),
        forall|i: int|
            0 <= i < g ==> #[trigger] keys_with_index(s, ko, i as nat, k).len() + if in_segment(s, i as nat, a, e + 1) {
                1nat
            } else {
                0nat
            } == count_equal(s, i as nat, (e + 1) as nat),
        forall|i: int| 0 <= i < g ==> #[trigger] in_segment(s, i as nat, a, e + 1) == (in_segment(s, i as nat, a, e) || s[e] == i),
{
    assert forall|i: int| 0 <= i < g implies #[trigger] count_equal(s, i as nat, (e + 1) as nat) == count_equal(
        s,
        i as nat,
        e as nat,
    ) + if s[e] == i {
        1nat
    } else {
        0nat
    } by {
        assert(((e + 1) as nat - 1) as nat == e as nat);
    }
    assert forall|i: int| 0 <= i < g implies #[trigger] in_segment(s, i as nat, a, e + 1) == (in_segment(
        s,
        i as nat,
        a,
        e,
    ) || s[e] == i) by {
        if in_segment(s, i as nat, a, e + 1) && !in_segment(s, i as nat, a, e) {
            let e1 = choose|e1: int| a <= e1 < e + 1 && s[e1] == i as nat;
            assert(e1 == e);
        }
        if in_segment(s, i as nat, a, e) {
            let e1 = choose|e1: int| a <= e1 < e && s[e1] == i as nat;
            assert(a <= e1 < e + 1);
        }
        if s[e] == i {
            assert(a <= e < e + 1 && s[e] == i as nat);
        }
    }
}

/// The slot written by one placement step is the next free slot of its gram,
/// inside that gram's range: the slots filled so far keep their keys.
#[verifier::rlimit(50)]
proof fn lemma_place_slots(
    s: Seq<usize>,
    ko: Seq<u64>,
    off: Seq<u64>,
    g: nat,
    k: nat,
    a: int,
    e: int,
    i0: nat,
    pos: int,
    old_r: Seq<usize>,
    new_r: Seq<usize>,
)
    requires
        0 <= a <= e < s.len(),
        s[e] == i0,
        i0 < g,
        !in_segment(s, i0, a, e),
        off.len() == g + 1,
        off[g as int] == s.len(),
        forall|i: int|
            #![trigger off[i]]
            0 <= i < g ==> off[i] <= off[i + 1] && off[i + 1] - off[i] == count_equal(s, i as nat, s.len()),
        forall|i: int, j: int| 0 <= i <= j <= g ==> off[i] <= off[j],
        old_r.len() == s.len(),
        pos == off[i0 as int] + keys_with_index(s, ko, i0, k).len(),
        new_r == old_r.update(pos, k as usize),
        k <= usize::MAX,
        count_equal(s, i0, (e + 1) as nat) <= count_equal(s, i0, s.len()),
        count_equal(s, i0, (e + 1) as nat) == keys_with_index(s, ko, i0, k).len() + 1,
        forall|i: int|
            0 <= i < g ==> #[trigger] keys_with_index(s, ko, i as nat, k).len() + if in_segment(s, i as nat, a, e) {
                1nat
            } else {
                0nat
            } <= count_equal(s, i as nat, s.len()),
        forall|i: int| 0 <= i < g ==> #[trigger] in_segment(s, i as nat, a, e + 1) == (in_segment(s, i as nat, a, e) || s[e] == i),
        forall|i: int, t: int|
            0 <= i < g && 0 <= t < keys_with_index(s, ko, i as nat, k).len() ==> old_r[off[i] + t] as nat
                == #[trigger] keys_with_index(s, ko, i as nat, k)[t],
        forall|i: int|
            0 <= i < g && #[trigger] in_segment(s, i as nat, a, e) ==> old_r[off[i] + keys_with_index(
                s,
                ko,
                i as nat,
                k,
            ).len()] as nat == k,
    ensures
        0 <= pos < s.len(),
        forall|i: int, t: int|
            0 <= i < g && 0 <= t < keys_with_index(s, ko, i as nat, k).len() ==> new_r[off[i] + t] as nat
                == #[trigger] keys_with_index(s, ko, i as nat, k)[t],
        forall|i: int|
            0 <= i < g && #[trigger] in_segment(s, i as nat, a, e + 1) ==> new_r[off[i] + keys_with_index(
                s,
                ko,
                i as nat,
                k,
            ).len()] as nat == k,
{
    assert(off[i0 as int] <= off[i0 as int + 1]);
    assert(off[i0 as int + 1] <= off[g as int]);
    assert forall|i: int, t: int|
        0 <= i < g && 0 <= t < keys_with_index(s, ko, i as nat, k).len() implies new_r[off[i] + t] as nat
        == #[trigger] keys_with_index(s, ko, i as nat, k)[t] by {
        assert(off[i] <= off[i + 1]);
        if i < i0 {
            assert(off[i + 1] <= off[i0 as int]);
        } else if i > i0 {
            assert(off[i0 as int + 1] <= off[i]);
        }
    }
    assert forall|i: int|
        0 <= i < g && #[trigger] in_segment(s, i as nat, a, e + 1) implies new_r[off[i] + keys_with_index(
        s,
        ko,
        i as nat,
        k,
    ).len()] as nat == k by {
        assert(off[i] <= off[i + 1]);
        if i != i0 {
            assert(in_segment(s, i as nat, a, e));
            if i < i0 {
                assert(off[i + 1] <= off[i0 as int]);
            } else {
                assert(off[i0 as int + 1] <= off[i]);
            }
        }
    }
}

/// Writes the id of each key at the next free slot of each of its grams, the
/// slots of gram `i` running from `offsets[i]` to `offsets[i + 1]`, so that
/// these slots end up holding the keys with an edge to gram `i`, in order.
#[verifier::rlimit(50)]
pub(crate) fn place_keys(idx: &Vec<usize>, offsets: &Vec<u64>, key_offsets: &Vec<u64>, g_count: usize) -> (r: Vec<usize>)
    requires
        offsets@.len() == g_count + 1,
        forall|i: int| 0 <= i <= g_count ==> #[trigger] offsets@[i] == count_below(idx@, i as nat, idx@.len()),
        forall|e: int| 0 <= e < idx@.len() ==> (#[trigger] idx@[e] as int) < g_count,
        key_offsets@.len() >= 1,
        key_offsets@[0] == 0,
        key_offsets@.last() == idx@.len(),
        nondecreasing(key_offsets@),
        forall|j: int|
            0 <= j < key_offsets@.len() - 1 ==> #[trigger] segment_increasing(
                idx@,
                key_offsets@[j] as int,
                key_offsets@[j + 1] as int,
            ),
    ensures
        r@.len() == idx@.len(),
        forall|i: int|
            0 <= i < g_count ==> #[trigger] keys_with_index(idx@, key_offsets@, i as nat, (key_offsets@.len() - 1) as nat).len()
                == offsets@[i + 1] - offsets@[i],
        forall|i: int, t: int|
            0 <= i < g_count && 0 <= t < offsets@[i + 1] - offsets@[i] ==> r@[offsets@[i] + t] as nat
                == #[trigger] keys_with_index(idx@, key_offsets@, i as nat, (key_offsets@.len() - 1) as nat)[t],
{
    let ghost s = idx@;
    let ghost ko = key_offsets@;
    let total = idx.len();
    let n = key_offsets.len() - 1;
    proof {
        assert forall|i: int| 0 <= i < g_count implies #[trigger] offsets@[i] <= offsets@[i + 1] && offsets@[i + 1]
            - offsets@[i] == count_equal(s, i as nat, total as nat) by {
            lemma_count_below_step(s, i as nat, total as nat);
        }
        lemma_count_below_range(s, 0, 0, g_count as nat, total as nat);
        assert forall|i: int, j: int| 0 <= i <= j <= g_count implies offsets@[i] <= offsets@[j] by {
            lemma_count_below_range(s, i as nat, j as nat, g_count as nat, total as nat);
        }
    }
    let mut filled = zeros_u64(g_count);
    let mut r = zeros_usize(total);
    let mut k: usize = 0;
    while k < n
        invariant
            s == idx@,
            ko == key_offsets@,
            total == s.len(),
            n == ko.len() - 1,
            ko[0] == 0,
            ko.last() == total,
            nondecreasing(ko),
            forall|j: int| 0 <= j < ko.len() - 1 ==> #[trigger] segment_increasing(s, ko[j] as int, ko[j + 1] as int),
            forall|e2: int| 0 <= e2 < s.len() ==> (#[trigger] s[e2] as int) < g_count,
            offsets@.len() == g_count + 1,
            forall|i: int|
                #![trigger offsets@[i]]
                0 <= i < g_count ==> offsets@[i] <= offsets@[i + 1] && offsets@[i + 1] - offsets@[i]
                    == count_equal(s, i as nat, total as nat),
            forall|i: int| 0 <= i <= g_count ==> #[trigger] offsets@[i] == count_below(s, i as nat, total as nat),
            offsets@[g_count as int] == total,
            forall|i: int, j: int| 0 <= i <= j <= g_count ==> offsets@[i] <= offsets@[j],
            k <= n,
            r@.len() == total,
            filled@.len() == g_count,
            forall|i: int| 0 <= i < g_count ==> #[trigger] filled@[i] == count_equal(s, i as nat, ko[k as int] as nat),
            forall|i: int|
                0 <= i < g_count ==> #[trigger] keys_with_index(s, ko, i as nat, k as nat).len() == count_equal(
                    s,
                    i as nat,
                    ko[k as int] as nat,
                ),
            forall|i: int, t: int|
                0 <= i < g_count && 0 <= t < keys_with_index(s, ko, i as nat, k as nat).len() ==> r@[offsets@[i]
                    + t] as nat == #[trigger] keys_with_index(s, ko, i as nat, k as nat)[t],
        decreases n - k,
    {
        let a = key_offsets[k] as usize;
        let b = key_offsets[k + 1] as usize;
        proof {
            assert(ko[k as int] <= ko[k + 1]);
            assert(ko[k + 1] <= ko.last());
            assert(segment_increasing(s, ko[k as int] as int, ko[k + 1] as int));
        }
        let mut e = a;
        while e < b
            invariant
                s == idx@,
                ko == key_offsets@,
                total == s.len(),
                k < n,
                a == ko[k as int],
                b == ko[k + 1],
                a <= e <= b <= total,
                segment_increasing(s, a as int, b as int),
                forall|e2: int| 0 <= e2 < s.len() ==> (#[trigger] s[e2] as int) < g_count,
                offsets@.len() == g_count + 1,
                forall|i: int|
                    #![trigger offsets@[i]]
                    0 <= i < g_count ==> offsets@[i] <= offsets@[i + 1] && offsets@[i + 1] - offsets@[i]
                        == count_equal(s, i as nat, total as nat),
                forall|i: int| 0 <= i <= g_count ==> #[trigger] offsets@[i] == count_below(s, i as nat, total as nat),
                offsets@[g_count as int] == total,
                forall|i: int, j: int| 0 <= i <= j <= g_count ==> offsets@[i] <= offsets@[j],
                r@.len() == total,
                filled@.len() == g_count,
                forall|i: int| 0 <= i < g_count ==> #[trigger] filled@[i] == count_equal(s, i as nat, e as nat),
                forall|i: int|
                    0 <= i < g_count ==> #[trigger] keys_with_index(s, ko, i as nat, k as nat).len() + if in_segment(
                        s,
                        i as nat,
                        a as int,
                        e as int,
                    ) {
                        1nat
                    } else {
                        0nat
                    } == count_equal(s, i as nat, e as nat),
                forall|i: int, t: int|
                    0 <= i < g_count && 0 <= t < keys_with_index(s, ko, i as nat, k as nat).len() ==> r@[offsets@[i]
                        + t] as nat == #[trigger] keys_with_index(s, ko, i as nat, k as nat)[t],
                forall|i: int|
                    0 <= i < g_count && #[trigger] in_segment(s, i as nat, a as int, e as int) ==> r@[offsets@[i]
                        + keys_with_index(s, ko, i as nat, k as nat).len()] as nat == k,
            decreases b - e,
        {
            let i = idx[e] as usize;
            proof {
                lemma_count_equal_monotone(s, i as nat, (e + 1) as nat, total as nat);
                lemma_count_below_range(s, i as nat, (i + 1) as nat, g_count as nat, total as nat);
                lemma_count_below_range(s, (i + 1) as nat, g_count as nat, g_count as nat, total as nat);
            }
            let ghost old_r = r@;
            let ghost old_f = filled@;
            proof {
                if in_segment(s, i as nat, a as int, e as int) {
                    let e1 = choose|e1: int| a <= e1 < e && s[e1] == i as nat;
                    assert(s[e1] < s[e as int]);
                }
                lemma_counts_bounded(s, i as nat, total as nat);
                assert(count_equal(s, i as nat, (e + 1) as nat) == count_equal(s, i as nat, e as nat) + 1) by {
                    assert(((e + 1) as nat - 1) as nat == e as nat);
                }
                assert forall|j: int| 0 <= j < g_count implies #[trigger] keys_with_index(
                    s,
                    ko,
                    j as nat,
                    k as nat,
                ).len() + if in_segment(s, j as nat, a as int, e as int) {
                    1nat
                } else {
                    0nat
                } <= count_equal(s, j as nat, total as nat) by {
                    lemma_count_equal_monotone(s, j as nat, e as nat, total as nat);
                }
            }
            let pos = (offsets[i] + filled[i]) as usize;
            r.set(pos, k);
            let f = filled[i];
            filled.set(i, f + 1);
            proof {
                lemma_place_counts(s, ko, g_count as nat, k as nat, a as int, e as int, i as nat, old_f, filled@);
                lemma_place_slots(
                    s,
                    ko,
                    offsets@,
                    g_count as nat,
                    k as nat,
                    a as int,
                    e as int,
                    i as nat,
                    pos as int,
                    old_r,
                    r@,
                );
            }
            e = e + 1;
        }
        let k1 = k + 1;
        proof {
            assert forall|i: int| 0 <= i < g_count implies #[trigger] keys_with_index(
                s,
                ko,
                i as nat,
                k1 as nat,
            ) == keys_with_index(s, ko, i as nat, k as nat) + if in_segment(s, i as nat, a as int, b as int) {
                seq![k as nat]
            } else {
                Seq::<nat>::empty()
            } by {
                assert((k1 as nat - 1) as nat == k as nat);
            }
            assert forall|i: int| 0 <= i < g_count implies #[trigger] keys_with_index(
                s,
                ko,
                i as nat,
                k1 as nat,
            ).len() == count_equal(s, i as nat, ko[k1 as int] as nat) by {
                assert(keys_with_index(s, ko, i as nat, k as nat).len() + if in_segment(
                    s,
                    i as nat,
                    a as int,
                    e as int,
                ) {
                    1nat
                } else {
                    0nat
                } == count_equal(s, i as nat, e as nat));
            }
            assert forall|i: int, t: int|
                0 <= i < g_count && 0 <= t < keys_with_index(s, ko, i as nat, k1 as nat).len() implies r@[offsets@[i]
                    + t] as nat == #[trigger] keys_with_index(s, ko, i as nat, k1 as nat)[t] by {
                let w = keys_with_index(s, ko, i as nat, k as nat).len();
                if t < w {
                    assert(keys_with_index(s, ko, i as nat, k1 as nat)[t] == keys_with_index(
                        s,
                        ko,
                        i as nat,
                        k as nat,
                    )[t]);
                } else {
                    assert(in_segment(s, i as nat, a as int, e as int));
                }
            }
        }
        k = k1;
    }
    r
}

} // verus!
