//! Counting the grams two sorted gram-count lists have in common.
use vstd::prelude::*;

verus! {

/// The sum of the counts of a list of `(gram id, count)` pairs.
pub open spec fn total_count(s: Seq<(usize, usize)>) -> nat
    decreases s.len(),
{
    if s.len() == 0 {
        0
    } else {
        s[0].1 as nat + total_count(s.drop_first())
    }
}

/// Appending a pair adds its count to the total.
pub(crate) proof fn lemma_total_push(s: Seq<(usize, usize)>, x: (usize, usize))
    ensures
        total_count(s.push(x)) == total_count(s) + x.1,
    decreases s.len(),
{
    let t = s.push(x);
    if s.len() > 0 {
        assert(t.drop_first() =~= s.drop_first().push(x));
        assert(t[0] == s[0]);
        lemma_total_push(s.drop_first(), x);
        assert(total_count(t) == t[0].1 + total_count(t.drop_first()));
        assert(total_count(s) == s[0].1 + total_count(s.drop_first()));
    } else {
        assert(t.drop_first() =~= Seq::<(usize, usize)>::empty());
        assert(t[0] == x);
        assert(total_count(t) == t[0].1 + total_count(t.drop_first()));
        assert(total_count(t.drop_first()) == 0);
    }
}

/// Changing one pair changes the total by the difference of their counts.
pub(crate) proof fn lemma_total_update(s: Seq<(usize, usize)>, i: int, x: (usize, usize))
    requires
        0 <= i < s.len(),
    ensures
        total_count(s.update(i, x)) + s[i].1 == total_count(s) + x.1,
    decreases s.len(),
{
    let u = s.update(i, x);
    if i > 0 {
        assert(u.drop_first() =~= s.drop_first().update(i - 1, x));
        lemma_total_update(s.drop_first(), i - 1, x);
        assert(u[0] == s[0]);
    } else {
        assert(u.drop_first() =~= s.drop_first());
        assert(u[0] == x);
    }
}

/// The smaller of two counts.
pub open spec fn min_count(a: usize, b: usize) -> nat {
    if a <= b {
        a as nat
    } else {
        b as nat
    }
}

/// The number of shared grams found by walking both lists in step: when the
/// heads have the same id the smaller count is taken and both lists advance,
/// otherwise the list with the smaller head id advances.
pub open spec fn merged_shared(l: Seq<(usize, usize)>, r: Seq<(usize, usize)>) -> nat
    decreases l.len() + r.len(),
{
    if l.len() == 0 || r.len() == 0 {
        0
    } else if l[0].0 < r[0].0 {
        merged_shared(l.drop_first(), r)
    } else if l[0].0 > r[0].0 {
        merged_shared(l, r.drop_first())
    } else {
        min_count(l[0].1, r[0].1) + merged_shared(l.drop_first(), r.drop_first())
    }
}

/// The ids of the list are strictly increasing.
pub open spec fn strictly_sorted(s: Seq<(usize, usize)>) -> bool {
    forall|i: int, j: int| 0 <= i < j < s.len() ==> s[i].0 < s[j].0
}

/// The count that `r` gives to the id `id`, or zero when `r` lacks it.
pub open spec fn count_in(r: Seq<(usize, usize)>, id: usize) -> nat
    decreases r.len(),
{
    if r.len() == 0 {
        0
    } else if r[0].0 == id {
        r[0].1 as nat
    } else {
        count_in(r.drop_first(), id)
    }
}

/// For each gram of `l`, the smaller of its count in `l` and its count in `r`,
/// summed over `l`.
pub open spec fn common_count(l: Seq<(usize, usize)>, r: Seq<(usize, usize)>) -> nat
    decreases l.len(),
{
    if l.len() == 0 {
        0
    } else {
        let c = count_in(r, l[0].0);
        (if l[0].1 as nat <= c {
            l[0].1 as nat
        } else {
            c
        }) + common_count(l.drop_first(), r)
    }
}

/// The shared count never exceeds the total count of the right list.
pub proof fn lemma_merged_shared_le_right(l: Seq<(usize, usize)>, r: Seq<(usize, usize)>)
    ensures
        merged_shared(l, r) <= total_count(r),
    decreases l.len() + r.len(),
{
    if l.len() == 0 || r.len() == 0 {
    } else if l[0].0 < r[0].0 {
        lemma_merged_shared_le_right(l.drop_first(), r);
    } else if l[0].0 > r[0].0 {
        lemma_merged_shared_le_right(l, r.drop_first());
    } else {
        lemma_merged_shared_le_right(l.drop_first(), r.drop_first());
    }
}

/// The shared count never exceeds the total count of the left list.
pub proof fn lemma_merged_shared_le_left(l: Seq<(usize, usize)>, r: Seq<(usize, usize)>)
    ensures
        merged_shared(l, r) <= total_count(l),
    decreases l.len() + r.len(),
{
    if l.len() == 0 || r.len() == 0 {
    } else if l[0].0 < r[0].0 {
        lemma_merged_shared_le_left(l.drop_first(), r);
    } else if l[0].0 > r[0].0 {
        lemma_merged_shared_le_left(l, r.drop_first());
    } else {
        lemma_merged_shared_le_left(l.drop_first(), r.drop_first());
    }
}

/// An id below every id of `r` has no count in `r`.
proof fn lemma_count_in_below(r: Seq<(usize, usize)>, id: usize)
    requires
        forall|k: int| 0 <= k < r.len() ==> id < #[trigger] r[k].0,
    ensures
        count_in(r, id) == 0,
    decreases r.len(),
{
    if r.len() > 0 {
        assert forall|k: int| 0 <= k < r.drop_first().len() implies id < #[trigger] r.drop_first()[k].0 by {
            assert(r.drop_first()[k] == r[k + 1]);
        }
        lemma_count_in_below(r.drop_first(), id);
    }
}

/// Dropping the head of `r` changes nothing for lists whose ids all exceed it.
proof fn lemma_common_skip_right(l: Seq<(usize, usize)>, r: Seq<(usize, usize)>)
    requires
        r.len() > 0,
        forall|k: int| 0 <= k < l.len() ==> r[0].0 < #[trigger] l[k].0,
    ensures
        common_count(l, r) == common_count(l, r.drop_first()),
    decreases l.len(),
{
    if l.len() > 0 {
        assert forall|k: int| 0 <= k < l.drop_first().len() implies r[0].0 < #[trigger] l.drop_first()[k].0 by {
            assert(l.drop_first()[k] == l[k + 1]);
        }
        lemma_common_skip_right(l.drop_first(), r);
    }
}

/// On strictly sorted lists, walking both lists in step counts, for every gram,
/// the smaller of its two counts.
pub proof fn lemma_merged_shared_is_common(l: Seq<(usize, usize)>, r: Seq<(usize, usize)>)
    requires
        strictly_sorted(l),
        strictly_sorted(r),
    ensures
        merged_shared(l, r) == common_count(l, r),
    decreases l.len() + r.len(),
{
    if l.len() == 0 {
    } else if r.len() == 0 {
        lemma_common_empty_right(l, r);
    } else {
        let tl = l.drop_first();
        let tr = r.drop_first();
        assert(strictly_sorted(tl)) by {
            assert forall|i: int, j: int| 0 <= i < j < tl.len() implies tl[i].0 < tl[j].0 by {
                assert(tl[i] == l[i + 1] && tl[j] == l[j + 1]);
            }
        }
        assert(strictly_sorted(tr)) by {
            assert forall|i: int, j: int| 0 <= i < j < tr.len() implies tr[i].0 < tr[j].0 by {
                assert(tr[i] == r[i + 1] && tr[j] == r[j + 1]);
            }
        }
        if l[0].0 < r[0].0 {
            assert forall|k: int| 0 <= k < r.len() implies l[0].0 < #[trigger] r[k].0 by {
                if k > 0 {
                    assert(r[0].0 < r[k].0);
                }
            }
            lemma_count_in_below(r, l[0].0);
            lemma_merged_shared_is_common(tl, r);
        } else if l[0].0 > r[0].0 {
            assert forall|k: int| 0 <= k < l.len() implies r[0].0 < #[trigger] l[k].0 by {
                if k > 0 {
                    assert(l[0].0 < l[k].0);
                }
            }
            lemma_common_skip_right(l, r);
            lemma_merged_shared_is_common(l, tr);
        } else {
            assert forall|k: int| 0 <= k < tl.len() implies r[0].0 < #[trigger] tl[k].0 by {
                assert(tl[k] == l[k + 1]);
                assert(l[0].0 < l[k + 1].0);
            }
            lemma_common_skip_right(tl, r);
            lemma_merged_shared_is_common(tl, tr);
        }
    }
}

/// Nothing is in common with an empty list.
proof fn lemma_common_empty_right(l: Seq<(usize, usize)>, r: Seq<(usize, usize)>)
    requires
        r.len() == 0,
    ensures
        common_count(l, r) == 0,
    decreases l.len(),
{
    if l.len() > 0 {
        lemma_common_empty_right(l.drop_first(), r);
    }
}

/// A list shares all of its grams with itself.
pub proof fn lemma_merged_shared_self(l: Seq<(usize, usize)>)
    ensures
        merged_shared(l, l) == total_count(l),
    decreases l.len(),
{
    if l.len() > 0 {
        lemma_merged_shared_self(l.drop_first());
    }
}

/// Returns the number of shared ngrams between two lists of `(gram id, count)`
/// pairs, and the total count of the right list.
///
/// Both lists are walked in step, as `merged_shared` describes; on lists
/// sorted by id this counts, for every gram, the smaller of its two counts
/// (`lemma_merged_shared_is_common`).
pub fn number_of_shared_items(left: &[(usize, usize)], right: &[(usize, usize)]) -> (r: (
    usize,
    usize,
))
    requires
        total_count(right@) <= usize::MAX,
    ensures
        r.0 == merged_shared(left@, right@),
        r.1 == total_count(right@),
{
    let ghost l = left@;
    let ghost rr = right@;
    let mut count: usize = 0;
    let mut i: usize = 0;
    let mut j: usize = 0;
    proof {
        assert(l.subrange(0, l.len() as int) =~= l);
        assert(rr.subrange(0, rr.len() as int) =~= rr);
        lemma_merged_shared_le_right(l, rr);
    }
    while i < left.len() && j < right.len()
        invariant
            l == left@,
            rr == right@,
            i <= l.len(),
            j <= rr.len(),
            count + merged_shared(l.subrange(i as int, l.len() as int), rr.subrange(j as int, rr.len() as int))
                == merged_shared(l, rr),
            merged_shared(l, rr) <= total_count(rr),
            total_count(rr) <= usize::MAX,
        decreases l.len() + rr.len() - i - j,
    {
        let ghost ls = l.subrange(i as int, l.len() as int);
        let ghost rs = rr.subrange(j as int, rr.len() as int);
        proof {
            assert(ls.drop_first() =~= l.subrange(i + 1, l.len() as int));
            assert(rs.drop_first() =~= rr.subrange(j + 1, rr.len() as int));
        }
        let (left_gram, left_count) = left[i];
        let (right_gram, right_count) = right[j];
        if left_gram < right_gram {
            i = i + 1;
        } else if left_gram > right_gram {
            j = j + 1;
        } else {
            let m = if left_count <= right_count {
                left_count
            } else {
                right_count
            };
            count = count + m;
            i = i + 1;
            j = j + 1;
        }
    }
    proof {
        let ls = l.subrange(i as int, l.len() as int);
        let rs = rr.subrange(j as int, rr.len() as int);
        assert(ls.len() == 0 || rs.len() == 0);
    }
    let other_count = sum_of_counts(right);
    (count, other_count)
}

/// The sum of the counts of a list of `(gram id, count)` pairs.
pub(crate) fn sum_of_counts(s: &[(usize, usize)]) -> (r: usize)
    requires
        total_count(s@) <= usize::MAX,
    ensures
        r == total_count(s@),
{
    let mut sum: usize = 0;
    let mut k: usize = 0;
    proof {
        assert(s@.subrange(0, s@.len() as int) =~= s@);
    }
    while k < s.len()
        invariant
            k <= s@.len(),
            sum + total_count(s@.subrange(k as int, s@.len() as int)) == total_count(s@),
            total_count(s@) <= usize::MAX,
        decreases s@.len() - k,
    {
        proof {
            let rest = s@.subrange(k as int, s@.len() as int);
            assert(rest.drop_first() =~= s@.subrange(k + 1, s@.len() as int));
        }
        sum = sum + s[k].1;
        k = k + 1;
    }
    proof {
        assert(s@.subrange(k as int, s@.len() as int).len() == 0);
    }
    sum
}

/// Whether walking both sorted lists in step meets an id present in both:
/// the list with the smaller head advances until the heads are equal.
pub open spec fn merged_any(l: Seq<usize>, r: Seq<usize>) -> bool
    decreases l.len() + r.len(),
{
    if l.len() == 0 || r.len() == 0 {
        false
    } else if l[0] < r[0] {
        merged_any(l.drop_first(), r)
    } else if l[0] > r[0] {
        merged_any(l, r.drop_first())
    } else {
        true
    }
}

/// The ids never decrease.
pub open spec fn nondecreasing_ids(s: Seq<usize>) -> bool {
    forall|i: int, j: int| 0 <= i <= j < s.len() ==> s[i] <= s[j]
}

/// On sorted lists, the walk meets a common id exactly when there is one.
pub proof fn lemma_merged_any_is_common(l: Seq<usize>, r: Seq<usize>)
    requires
        nondecreasing_ids(l),
        nondecreasing_ids(r),
    ensures
        merged_any(l, r) == exists|i: int, j: int| 0 <= i < l.len() && 0 <= j < r.len() && l[i] == r[j],
    decreases l.len() + r.len(),
{
    if l.len() == 0 || r.len() == 0 {
    } else {
        let tl = l.drop_first();
        let tr = r.drop_first();
        assert(nondecreasing_ids(tl)) by {
            assert forall|i: int, j: int| 0 <= i <= j < tl.len() implies tl[i] <= tl[j] by {
                assert(tl[i] == l[i + 1] && tl[j] == l[j + 1]);
            }
        }
        assert(nondecreasing_ids(tr)) by {
            assert forall|i: int, j: int| 0 <= i <= j < tr.len() implies tr[i] <= tr[j] by {
                assert(tr[i] == r[i + 1] && tr[j] == r[j + 1]);
            }
        }
        if l[0] < r[0] {
            lemma_merged_any_is_common(tl, r);
            if exists|i: int, j: int| 0 <= i < l.len() && 0 <= j < r.len() && l[i] == r[j] {
                let (i, j) = choose|i: int, j: int| 0 <= i < l.len() && 0 <= j < r.len() && l[i] == r[j];
                assert(r[0] <= r[j]);
                assert(i > 0);
                assert(tl[i - 1] == r[j]);
            }
            if exists|i: int, j: int| 0 <= i < tl.len() && 0 <= j < r.len() && tl[i] == r[j] {
                let (i, j) = choose|i: int, j: int| 0 <= i < tl.len() && 0 <= j < r.len() && tl[i] == r[j];
                assert(l[i + 1] == r[j]);
            }
        } else if l[0] > r[0] {
            lemma_merged_any_is_common(l, tr);
            if exists|i: int, j: int| 0 <= i < l.len() && 0 <= j < r.len() && l[i] == r[j] {
                let (i, j) = choose|i: int, j: int| 0 <= i < l.len() && 0 <= j < r.len() && l[i] == r[j];
                assert(l[0] <= l[i]);
                assert(j > 0);
                assert(tr[j - 1] == l[i]);
            }
            if exists|i: int, j: int| 0 <= i < l.len() && 0 <= j < tr.len() && l[i] == tr[j] {
                let (i, j) = choose|i: int, j: int| 0 <= i < l.len() && 0 <= j < tr.len() && l[i] == tr[j];
                assert(l[i] == r[j + 1]);
            }
        } else {
            assert(l[0] == r[0]);
        }
    }
}

/// Whether any id of `left` is also in `right`, walking both lists in step as
/// `merged_any` describes; on sorted lists this is whether they share an id
/// (`lemma_merged_any_is_common`).
pub fn contains_any(left: &[usize], right: &[usize]) -> (r: bool)
    ensures
        r == merged_any(left@, right@),
{
    let ghost l = left@;
    let ghost rr = right@;
    let mut i: usize = 0;
    let mut j: usize = 0;
    proof {
        assert(l.subrange(0, l.len() as int) =~= l);
        assert(rr.subrange(0, rr.len() as int) =~= rr);
    }
    while i < left.len() && j < right.len()
        invariant
            l == left@,
            rr == right@,
            i <= l.len(),
            j <= rr.len(),
            merged_any(l, rr) == merged_any(l.subrange(i as int, l.len() as int), rr.subrange(j as int, rr.len() as int)),
        decreases l.len() + rr.len() - i - j,
    {
        let ghost ls = l.subrange(i as int, l.len() as int);
        let ghost rs = rr.subrange(j as int, rr.len() as int);
        proof {
            assert(ls.drop_first() =~= l.subrange(i + 1, l.len() as int));
            assert(rs.drop_first() =~= rr.subrange(j + 1, rr.len() as int));
        }
        if left[i] < right[j] {
            i = i + 1;
        } else if left[i] > right[j] {
            j = j + 1;
        } else {
            return true;
        }
    }
    proof {
        let ls = l.subrange(i as int, l.len() as int);
        let rs = rr.subrange(j as int, rr.len() as int);
        assert(ls.len() == 0 || rs.len() == 0);
    }
    false
}


/// The ids met in both lists when walking them in step, in the order met,
/// each with its count in `l` and its count in `r`.
pub open spec fn merged_matches(l: Seq<(usize, usize)>, r: Seq<(usize, usize)>) -> Seq<(usize, usize, usize)>
    decreases l.len() + r.len(),
{
    if l.len() == 0 || r.len() == 0 {
        Seq::empty()
    } else if l[0].0 < r[0].0 {
        merged_matches(l.drop_first(), r)
    } else if l[0].0 > r[0].0 {
        merged_matches(l, r.drop_first())
    } else {
        seq![(l[0].0, l[0].1, r[0].1)] + merged_matches(l.drop_first(), r.drop_first())
    }
}

/// Returns the ids present in both lists of `(id, count)` pairs, walking
/// them in step, each with its count in `left` and its count in `right`.
pub fn matching_items(left: &[(usize, usize)], right: &[(usize, usize)]) -> (r: Vec<(usize, usize, usize)>)
    ensures
        r@ == merged_matches(left@, right@),
{
    let ghost l = left@;
    let ghost rr = right@;
    let mut out: Vec<(usize, usize, usize)> = Vec::new();
    let mut i: usize = 0;
    let mut j: usize = 0;
    proof {
        assert(l.subrange(0, l.len() as int) =~= l);
        assert(rr.subrange(0, rr.len() as int) =~= rr);
        assert(out@ + merged_matches(l, rr) =~= merged_matches(l, rr));
    }
    while i < left.len() && j < right.len()
        invariant
            l == left@,
            rr == right@,
            i <= l.len(),
            j <= rr.len(),
            out@ + merged_matches(l.subrange(i as int, l.len() as int), rr.subrange(j as int, rr.len() as int))
                == merged_matches(l, rr),
        decreases l.len() + rr.len() - i - j,
    {
        let ghost ls = l.subrange(i as int, l.len() as int);
        let ghost rs = rr.subrange(j as int, rr.len() as int);
        let ghost before = out@;
        proof {
            assert(ls.drop_first() =~= l.subrange(i + 1, l.len() as int));
            assert(rs.drop_first() =~= rr.subrange(j + 1, rr.len() as int));
        }
        if left[i].0 < right[j].0 {
            i = i + 1;
        } else if left[i].0 > right[j].0 {
            j = j + 1;
        } else {
            out.push((left[i].0, left[i].1, right[j].1));
            proof {
                assert(out@ + merged_matches(ls.drop_first(), rs.drop_first()) =~= before + merged_matches(ls, rs));
            }
            i = i + 1;
            j = j + 1;
        }
    }
    proof {
        let ls = l.subrange(i as int, l.len() as int);
        let rs = rr.subrange(j as int, rr.len() as int);
        assert(merged_matches(ls, rs) == Seq::<(usize, usize, usize)>::empty());
        assert(out@ + merged_matches(ls, rs) =~= out@);
    }
    out
}

/// On lists sorted by strictly increasing id, the walk meets exactly the ids
/// present in both lists, each with its count in either list.
pub proof fn lemma_merged_matches_common(l: Seq<(usize, usize)>, r: Seq<(usize, usize)>)
    requires
        strictly_sorted(l),
        strictly_sorted(r),
    ensures
        forall|m: (usize, usize, usize)|
            #[trigger] merged_matches(l, r).contains(m) <==> (l.contains((m.0, m.1)) && r.contains((m.0, m.2))),
    decreases l.len() + r.len(),
{
    if l.len() == 0 || r.len() == 0 {
        assert forall|m: (usize, usize, usize)|
            #[trigger] merged_matches(l, r).contains(m) <==> (l.contains((m.0, m.1)) && r.contains((m.0, m.2))) by {
            if l.contains((m.0, m.1)) {
                let i = choose|i: int| 0 <= i < l.len() && l[i] == (m.0, m.1);
            }
            if r.contains((m.0, m.2)) {
                let i = choose|i: int| 0 <= i < r.len() && r[i] == (m.0, m.2);
            }
        }
    } else {
        let tl = l.drop_first();
        let tr = r.drop_first();
        assert(strictly_sorted(tl)) by {
            assert forall|i: int, j: int| 0 <= i < j < tl.len() implies tl[i].0 < tl[j].0 by {
                assert(tl[i] == l[i + 1] && tl[j] == l[j + 1]);
            }
        }
        assert(strictly_sorted(tr)) by {
            assert forall|i: int, j: int| 0 <= i < j < tr.len() implies tr[i].0 < tr[j].0 by {
                assert(tr[i] == r[i + 1] && tr[j] == r[j + 1]);
            }
        }
        let res = merged_matches(l, r);
        if l[0].0 < r[0].0 {
            lemma_merged_matches_common(tl, r);
            assert(res == merged_matches(tl, r));
            assert forall|m: (usize, usize, usize)|
                #[trigger] res.contains(m) <==> (l.contains((m.0, m.1)) && r.contains((m.0, m.2))) by {
                if l.contains((m.0, m.1)) && r.contains((m.0, m.2)) {
                    let i = choose|i: int| 0 <= i < l.len() && l[i] == (m.0, m.1);
                    let j = choose|j: int| 0 <= j < r.len() && r[j] == (m.0, m.2);
                    if i == 0 {
                        if j > 0 {
                            assert(r[0].0 < r[j].0);
                        }
                    }
                    assert(i > 0);
                    assert(tl[i - 1] == (m.0, m.1));
                    assert(tl.contains((m.0, m.1)));
                }
                if tl.contains((m.0, m.1)) {
                    let i = choose|i: int| 0 <= i < tl.len() && tl[i] == (m.0, m.1);
                    assert(l[i + 1] == (m.0, m.1));
                }
            }
        } else if l[0].0 > r[0].0 {
            lemma_merged_matches_common(l, tr);
            assert(res == merged_matches(l, tr));
            assert forall|m: (usize, usize, usize)|
                #[trigger] res.contains(m) <==> (l.contains((m.0, m.1)) && r.contains((m.0, m.2))) by {
                if l.contains((m.0, m.1)) && r.contains((m.0, m.2)) {
                    let i = choose|i: int| 0 <= i < l.len() && l[i] == (m.0, m.1);
                    let j = choose|j: int| 0 <= j < r.len() && r[j] == (m.0, m.2);
                    if j == 0 {
                        if i > 0 {
                            assert(l[0].0 < l[i].0);
                        }
                    }
                    assert(j > 0);
                    assert(tr[j - 1] == (m.0, m.2));
                    assert(tr.contains((m.0, m.2)));
                }
                if tr.contains((m.0, m.2)) {
                    let j = choose|j: int| 0 <= j < tr.len() && tr[j] == (m.0, m.2);
                    assert(r[j + 1] == (m.0, m.2));
                }
            }
        } else {
            lemma_merged_matches_common(tl, tr);
            let head = (l[0].0, l[0].1, r[0].1);
            let rest = merged_matches(tl, tr);
            assert(res == seq![head] + rest);
            assert forall|m: (usize, usize, usize)|
                #[trigger] res.contains(m) <==> (l.contains((m.0, m.1)) && r.contains((m.0, m.2))) by {
                if res.contains(m) {
                    let k = choose|k: int| 0 <= k < res.len() && res[k] == m;
                    if k == 0 {
                        assert(l[0] == (m.0, m.1));
                        assert(r[0] == (m.0, m.2));
                    } else {
                        assert(rest[k - 1] == m);
                        assert(rest.contains(m));
                        let i = choose|i: int| 0 <= i < tl.len() && tl[i] == (m.0, m.1);
                        let j = choose|j: int| 0 <= j < tr.len() && tr[j] == (m.0, m.2);
                        assert(l[i + 1] == (m.0, m.1));
                        assert(r[j + 1] == (m.0, m.2));
                    }
                }
                if l.contains((m.0, m.1)) && r.contains((m.0, m.2)) {
                    let i = choose|i: int| 0 <= i < l.len() && l[i] == (m.0, m.1);
                    let j = choose|j: int| 0 <= j < r.len() && r[j] == (m.0, m.2);
                    if i == 0 || j == 0 {
                        if i > 0 {
                            assert(l[0].0 < l[i].0);
                        }
                        if j > 0 {
                            assert(r[0].0 < r[j].0);
                        }
                        assert(i == 0 && j == 0);
                        assert(res[0] == m);
                    } else {
                        assert(tl[i - 1] == (m.0, m.1));
                        assert(tr[j - 1] == (m.0, m.2));
                        assert(rest.contains(m));
                        let k = choose|k: int| 0 <= k < rest.len() && rest[k] == m;
                        assert(res[k + 1] == m);
                    }
                }
            }
        }
    }
}

} // verus!
