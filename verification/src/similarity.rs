//! Counting the grams two gram-count lists have in common.
use vstd::prelude::*;

use crate::trigram_similarity::{merged_shared, min_count};

verus! {

/// Returns the number of shared ngrams between two lists of `(gram, count)`
/// pairs, walking both lists in step as `merged_shared` describes.
pub fn number_of_shared_items(left: &[(usize, usize)], right: &[(usize, usize)]) -> (r: usize)
    requires
        merged_shared(left@, right@) <= usize::MAX,
    ensures
        r == merged_shared(left@, right@),
{
    let ghost l = left@;
    let ghost rr = right@;
    let mut count: usize = 0;
    let mut i: usize = 0;
    let mut j: usize = 0;
    proof {
        assert(l.subrange(0, l.len() as int) =~= l);
        assert(rr.subrange(0, rr.len() as int) =~= rr);
    }
    while i < left.len() && j < right.len()
        invariant
            l == left@,
            rr == right@,
            i <= l.len(),
            j <= rr.len(),
            count + merged_shared(l.subrange(i as int, l.len() as int), rr.subrange(j as int, rr.len() as int))
                == merged_shared(l, rr),
            merged_shared(l, rr) <= usize::MAX,
        decreases l.len() + rr.len() - i - j,
    {
        let ghost ls = l.subrange(i as int, l.len() as int);
        let ghost rs = rr.subrange(j as int, rr.len() as int);
        proof {
            assert(ls.drop_first() =~= l.subrange(i + 1, l.len() as int));
            assert(rs.drop_first() =~= rr.subrange(j + 1, rr.len() as int));
        }
        let (left_gram, left_count) = left[i];
        let (right_gram, right_count) = right[j];
        if left_gram < right_gram {
            i = i + 1;
        } else if left_gram > right_gram {
            j = j + 1;
        } else {
            let m = if left_count <= right_count {
                left_count
            } else {
                right_count
            };
            assert(m == min_count(left_count, right_count));
            count = count + m;
            i = i + 1;
            j = j + 1;
        }
    }
    proof {
        let ls = l.subrange(i as int, l.len() as int);
        let rs = rr.subrange(j as int, rr.len() as int);
        assert(ls.len() == 0 || rs.len() == 0);
    }
    count
}

} // verus!
