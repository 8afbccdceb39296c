use vstd::prelude::*;

use crate::sums::lemma_range_sum_one;
use crate::sums::range_sum;
use crate::sums::seq_sum;
use crate::tree::is_seg_tree;
use crate::tree::leaf_count;
use crate::tree::leaves;
use crate::tree::lemma_subtree_sum;
use crate::tree::node_covers;

verus! {

/// Writing an element and then reading it yields the written value: over
/// the leaf view that `set_nth` and `nth` are specified with, an update at
/// `i` followed by a read at `i` gives back exactly `x`, whatever earlier
/// updates produced `s`.
pub proof fn lemma_set_then_get(s: Seq<i64>, i: int, x: i64)
    requires
        0 <= i < s.len(),
    ensures
        s.update(i, x)[i] == x,
{
}

/// A write at `i` leaves every other element unchanged.
pub proof fn lemma_set_preserves_others(s: Seq<i64>, i: int, x: i64, j: int)
    requires
        0 <= i < s.len(),
        0 <= j < s.len(),
        j != i,
    ensures
        s.update(i, x)[j] == s[j],
{
}

/// The aggregate over the full range of leaf slots equals the sum of the
/// individual leaf values read one by one: `sum(0, P - 1)` agrees with
/// folding `nth` over every position.
pub proof fn lemma_full_range_sum(s: Seq<i64>)
    ensures
        range_sum(s, 0, s.len() as int) == seq_sum(s),
{
    assert(s.subrange(0, s.len() as int) =~= s);
}

/// In a well-formed tree the root carries the sum of all leaf slots, after
/// any sequence of updates that kept the tree well-formed.
pub proof fn lemma_root_total(t: Seq<i64>)
    requires
        is_seg_tree(t),
    ensures
        t[0] == seq_sum(leaves(t)),
{
    let p = leaf_count(t);
    assert(node_covers(p, 0, 0, p)) by {
        assert(p * 1 == p);
    }
    lemma_subtree_sum(t, p, 0, 0, p);
    lemma_full_range_sum(leaves(t));
}

/// A single-position range aggregate equals the value at that position:
/// `sum(i, i)` agrees with `nth(i)`.
pub proof fn lemma_single_slot_sum(s: Seq<i64>, i: int)
    requires
        0 <= i < s.len(),
    ensures
        range_sum(s, i, i + 1) == s[i],
{
    lemma_range_sum_one(s, i);
}

} // verus!
