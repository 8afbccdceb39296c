use vstd::prelude::*;

use crate::sums::all_range_sums_fit;
use crate::sums::fits_i64;
use crate::sums::lemma_range_sum_one;
use crate::sums::lemma_range_sum_split;
use crate::sums::lemma_sums_fit_padded;
use crate::sums::range_sum;
use crate::sums::sums_fit;

verus! {

/// `n` is a power of two.
pub open spec fn is_pow2(n: int) -> bool
    decreases n,
{
    if n <= 0 {
        false
    } else if n == 1 {
        true
    } else {
        n % 2 == 0 && is_pow2(n / 2)
    }
}

/// The number of leaf slots of a tree buffer of (odd) length `2P - 1`.
pub open spec fn leaf_count(t: Seq<i64>) -> int {
    (t.len() + 1) as int / 2
}

/// The leaf slots: the second half of the buffer, one slot per padded
/// element position.
pub open spec fn leaves(t: Seq<i64>) -> Seq<i64> {
    t.subrange(t.len() as int / 2, t.len() as int)
}

/// The aggregate equation at internal node `i`: its value is the sum of its
/// two children's values.
pub open spec fn node_ok(t: Seq<i64>, i: int) -> bool {
    t[i] == t[2 * i + 1] + t[2 * i + 2]
}

/// The aggregate equation holds at every internal node with index at least
/// `k`. (`k == 0` says it holds everywhere.)
pub open spec fn nodes_ok_from(t: Seq<i64>, k: int) -> bool {
    forall|j: int| k <= j < t.len() as int / 2 ==> #[trigger] node_ok(t, j)
}

/// A well-formed segment tree buffer: an odd-length array over a
/// power-of-two number of leaf slots whose every internal node carries the
/// sum of its children, and whose leaves are such that no contiguous range
/// sum overflows an `i64`.
pub open spec fn is_seg_tree(t: Seq<i64>) -> bool {
    &&& t.len() % 2 == 1
    &&& is_pow2(leaf_count(t))
    &&& nodes_ok_from(t, 0)
    &&& sums_fit(leaves(t))
}

/// Node `i` of a tree with `p` leaf slots covers the `w` leaf positions
/// starting at `l`. The product form `w * (i + 1) == p + l` is the
/// arithmetic fingerprint of the standard array layout: it holds of the
/// root `(i, l, w) = (0, 0, p)` and is preserved exactly by stepping to
/// `(2i + 1, l, w / 2)` and `(2i + 2, l + w / 2, w / 2)`.
pub open spec fn node_covers(p: int, i: int, l: int, w: int) -> bool {
    &&& 0 <= l
    &&& 1 <= w
    &&& l + w <= p
    &&& is_pow2(w)
    &&& w * (i + 1) == p + l
}

/// The two children of a node of width at least 2 cover its two half
/// ranges, and such a node is internal (its children are in bounds).
pub proof fn lemma_child_covers(p: int, i: int, l: int, w: int)
    requires
        is_pow2(p),
        node_covers(p, i, l, w),
        w >= 2,
    ensures
        node_covers(p, 2 * i + 1, l, w / 2),
        node_covers(p, 2 * i + 2, l + w / 2, w / 2),
        0 <= i,
        i + 1 < p,
{
    let h = w / 2;
    assert(w == 2 * h);
    assert(h * (2 * i + 1 + 1) == p + l) by (nonlinear_arith)
        requires
            w * (i + 1) == p + l,
            w == 2 * h,
    ;
    assert(h * (2 * i + 2 + 1) == p + l + h) by (nonlinear_arith)
        requires
            w * (i + 1) == p + l,
            w == 2 * h,
    ;
    assert(0 <= i && i + 1 < p) by (nonlinear_arith)
        requires
            2 <= w,
            w * (i + 1) == p + l,
            0 <= l,
            l + w <= p,
    ;
}

/// In a buffer whose aggregate equations hold from node `i` on, the value
/// at node `i` is the sum of the leaf slots it covers.
pub proof fn lemma_subtree_sum(t: Seq<i64>, p: int, i: int, l: int, w: int)
    requires
        is_pow2(p),
        t.len() == 2 * p - 1,
        node_covers(p, i, l, w),
        nodes_ok_from(t, i),
    ensures
        t[i] == range_sum(leaves(t), l, l + w),
    decreases w,
{
    assert(leaves(t).len() == p);
    if w == 1 {
        assert(i == p - 1 + l);
        assert(leaves(t)[l] == t[i]);
        lemma_range_sum_one(leaves(t), l);
    } else {
        let h = w / 2;
        lemma_child_covers(p, i, l, w);
        assert(i < t.len() as int / 2);
        assert(node_ok(t, i));
        lemma_subtree_sum(t, p, 2 * i + 1, l, h);
        lemma_subtree_sum(t, p, 2 * i + 2, l + h, h);
        lemma_range_sum_split(leaves(t), l, l + h, l + w);
    }
}

/// Every node index of a tree with `p` leaf slots covers some leaf range.
pub proof fn lemma_node_covers_exists(p: int, i: int)
    requires
        is_pow2(p),
        0 <= i < 2 * p - 1,
    ensures
        exists|l: int, w: int| node_covers(p, i, l, w),
    decreases i,
{
    if i == 0 {
        assert(node_covers(p, 0, 0, p)) by {
            assert(p * 1 == p);
        }
    } else {
        let j = (i - 1) / 2;
        lemma_node_covers_exists(p, j);
        let (l, w) = choose|l: int, w: int| node_covers(p, j, l, w);
        if w == 1 {
            // then j would be a leaf slot and i out of bounds
            assert(j + 1 == p + l);
            assert(i >= 2 * j + 1);
            assert(false);
        }
        lemma_child_covers(p, j, l, w);
        if i % 2 == 1 {
            assert(i == 2 * j + 1);
            assert(node_covers(p, i, l, w / 2));
        } else {
            assert(i == 2 * j + 2);
            assert(node_covers(p, i, l + w / 2, w / 2));
        }
    }
}

/// If everything strictly after internal node `i` satisfies the aggregate
/// equations and the leaves admit no overflowing range sum, then the sum of
/// `i`'s two children fits in an `i64` — so `i` itself can be recomputed.
pub proof fn lemma_children_sum_fits(t: Seq<i64>, p: int, i: int)
    requires
        is_pow2(p),
        t.len() == 2 * p - 1,
        0 <= i < p - 1,
        nodes_ok_from(t, i + 1),
        sums_fit(leaves(t)),
    ensures
        fits_i64(t[2 * i + 1] + t[2 * i + 2]),
{
    lemma_node_covers_exists(p, i);
    let (l, w) = choose|l: int, w: int| node_covers(p, i, l, w);
    if w == 1 {
        assert(i + 1 == p + l) by (nonlinear_arith)
            requires
                w == 1,
                w * (i + 1) == p + l,
        ;
        assert(false);
    }
    lemma_child_covers(p, i, l, w);
    let h = w / 2;
    lemma_subtree_sum(t, p, 2 * i + 1, l, h);
    lemma_subtree_sum(t, p, 2 * i + 2, l + h, h);
    lemma_range_sum_split(leaves(t), l, l + h, l + w);
    assert(leaves(t).len() == p);
    assert(fits_i64(range_sum(leaves(t), l, l + w)));
}

/// Builds a sum segment tree over `elements`.
///
/// The buffer has `2P - 1` slots, where `P` is the smallest power of two
/// at least the element count; the elements occupy the first leaf slots
/// and the remaining leaf slots pad with the sum identity `0`. Every
/// internal node carries the sum of its children, computed in one backward
/// pass (children have strictly larger indices than their parent, so they
/// are final when the parent is computed).
pub fn segment_tree(elements: Vec<i64>) -> (tree: Vec<i64>)
    requires
        elements@.len() >= 1,
        elements@.len() <= usize::MAX / 4,
        sums_fit(elements@),
    ensures
        is_seg_tree(tree@),
        elements@.len() <= leaf_count(tree@) < 2 * elements@.len(),
        tree@.len() == 2 * leaf_count(tree@) - 1,
        forall|j: int| 0 <= j < elements@.len() ==> leaves(tree@)[j] == elements@[j],
        forall|j: int| elements@.len() <= j < leaf_count(tree@) ==> leaves(tree@)[j] == 0,
{
    let n = elements.len();
    let mut p: usize = 1;
    while p < n
        invariant
            1 <= p,
            is_pow2(p as int),
            p == 1 || p / 2 < n,
            n <= usize::MAX / 4,
        decreases 2 * n - p,
    {
        p = p * 2;
    }
    let len = 2 * p - 1;
    let mut tree: Vec<i64> = Vec::new();
    let mut j: usize = 0;
    while j < len
        invariant
            j <= len,
            tree@.len() == j,
            forall|q: int| 0 <= q < j ==> tree@[q] == 0,
        decreases len - j,
    {
        tree.push(0);
        j = j + 1;
    }
    let mut i: usize = 0;
    while i < n
        invariant
            i <= n,
            n <= p,
            len == 2 * p - 1,
            n == elements@.len(),
            tree@.len() == len,
            forall|q: int| 0 <= q < i ==> tree@[p - 1 + q] == elements@[q],
            forall|q: int| 0 <= q < len && !(p - 1 <= q < p - 1 + i) ==> tree@[q] == 0,
        decreases n - i,
    {
        tree[p - 1 + i] = elements[i];
        i = i + 1;
    }
    proof {
        assert(leaf_count(tree@) == p);
        assert(leaves(tree@).len() == p);
        assert(forall|q: int| 0 <= q < n ==> leaves(tree@)[q] == elements@[q]);
        assert(forall|q: int| n <= q < p ==> leaves(tree@)[q] == 0);
        lemma_sums_fit_padded(elements@, leaves(tree@));
    }
    let mut k: usize = p - 1;
    while k > 0
        invariant
            k <= p - 1,
            1 <= p,
            is_pow2(p as int),
            len == 2 * p - 1,
            n == elements@.len(),
            n <= p,
            1 <= n,
            tree@.len() == len,
            forall|q: int| 0 <= q < n ==> leaves(tree@)[q] == elements@[q],
            forall|q: int| n <= q < p ==> leaves(tree@)[q] == 0,
            sums_fit(leaves(tree@)),
            nodes_ok_from(tree@, k as int),
        decreases k,
    {
        k = k - 1;
        proof {
            lemma_children_sum_fits(tree@, p as int, k as int);
        }
        let v = tree[2 * k + 1] + tree[2 * k + 2];
        let ghost pre = tree@;
        tree[k] = v;
        proof {
            assert(leaves(tree@) =~= leaves(pre));
            assert forall|q: int| k <= q < tree@.len() as int / 2 implies #[trigger] node_ok(
                tree@,
                q,
            ) by {
                if q > k {
                    assert(node_ok(pre, q));
                }
            }
        }
    }
    tree
}

/// `a` lies on the path from node `k` up to the root (inclusive of `k`
/// itself): repeatedly stepping to the parent `(k - 1) / 2` reaches `a`.
pub open spec fn is_ancestor(a: int, k: int) -> bool
    decreases k,
{
    if a == k {
        true
    } else if k <= 0 {
        false
    } else {
        is_ancestor(a, (k - 1) / 2)
    }
}

/// An ancestor never has a larger index than its descendant.
pub proof fn lemma_ancestor_le(a: int, k: int)
    requires
        0 <= k,
        is_ancestor(a, k),
    ensures
        a <= k,
    decreases k,
{
    if a != k {
        lemma_ancestor_le(a, (k - 1) / 2);
    }
}

/// Writes `value` into the leaf slot of element `i` and recomputes the sum
/// at each node on the path from that leaf up to the root; all other leaf
/// slots keep their values, and the tree stays well-formed.
pub fn set_nth(tree: &mut Vec<i64>, i: usize, value: i64)
    requires
        is_seg_tree(old(tree)@),
        i < leaf_count(old(tree)@),
        sums_fit(leaves(old(tree)@).update(i as int, value)),
    ensures
        is_seg_tree(final(tree)@),
        final(tree)@.len() == old(tree)@.len(),
        leaves(final(tree)@) == leaves(old(tree)@).update(i as int, value),
{
    let ghost p = leaf_count(old(tree)@);
    let half = tree.len() / 2;
    let mut k = half + i;
    let ghost pre = tree@;
    tree[k] = value;
    proof {
        assert(leaves(tree@) =~= leaves(old(tree)@).update(i as int, value));
        assert forall|j: int|
            0 <= j < p - 1 && !(is_ancestor(j, k as int) && j != k as int) implies #[trigger] node_ok(tree@, j) by {
            assert(node_ok(pre, j));
            if 2 * j + 1 == k as int || 2 * j + 2 == k as int {
                assert(j == (k as int - 1) / 2);
                assert(is_ancestor(j, j));
                assert(is_ancestor(j, k as int));
                assert(false);
            }
        }
    }
    while k > 0
        invariant
            is_pow2(p),
            tree@.len() <= usize::MAX,
            tree@.len() == 2 * p - 1,
            tree@.len() == old(tree)@.len(),
            k < tree@.len(),
            leaves(tree@) == leaves(old(tree)@).update(i as int, value),
            sums_fit(leaves(tree@)),
            forall|j: int|
                0 <= j < p - 1 && !(is_ancestor(j, k as int) && j != k as int)
                    ==> #[trigger] node_ok(tree@, j),
        decreases k,
    {
        let ghost k0 = k as int;
        k = (k - 1) / 2;
        proof {
            assert forall|j: int| k as int + 1 <= j < tree@.len() as int / 2 implies #[trigger] node_ok(tree@, j) by {
                if is_ancestor(j, k0) && j != k0 {
                    assert(is_ancestor(j, k as int));
                    lemma_ancestor_le(j, k as int);
                    assert(false);
                }
            }
            assert(k as int <= p - 2);
            lemma_children_sum_fits(tree@, p, k as int);
            assert(2 * (k as int) + 2 < tree@.len());
        }
        let v = tree[2 * k + 1] + tree[2 * k + 2];
        let ghost mid = tree@;
        tree[k] = v;
        proof {
            assert(leaves(tree@) =~= leaves(mid));
            assert(is_ancestor(k as int, k as int));
            assert(is_ancestor(k as int, k0));
            assert forall|j: int|
                0 <= j < p - 1 && !(is_ancestor(j, k as int) && j != k as int) implies #[trigger] node_ok(tree@, j) by {
                if j == k as int {
                    assert(node_ok(tree@, j));
                } else {
                    if is_ancestor(j, k0) && j != k0 {
                        assert(k0 > 0 && k as int == (k0 - 1) / 2);
                        assert(is_ancestor(j, (k0 - 1) / 2));
                        assert(false);
                    }
                    assert(node_ok(mid, j));
                    if 2 * j + 1 == k as int || 2 * j + 2 == k as int {
                        assert(j == (k as int - 1) / 2);
                        assert(is_ancestor(j, j));
                        assert(is_ancestor(j, k as int));
                        lemma_ancestor_le(j, k as int);
                        assert(false);
                    }
                }
            }
        }
    }
    proof {
        assert forall|j: int| 0 <= j < tree@.len() as int / 2 implies #[trigger] node_ok(tree@, j) by {
            assert(!(is_ancestor(j, 0) && j != 0));
        }
    }
}

/// Returns the value of element `i`: the contents of leaf slot
/// `len / 2 + i`, read directly.
pub fn nth(tree: &Vec<i64>, i: usize) -> (value: i64)
    requires
        is_seg_tree(tree@),
        i < leaf_count(tree@),
    ensures
        value == leaves(tree@)[i as int],
{
    tree[tree.len() / 2 + i]
}

/// Builds a sum segment tree after checking every precondition of
/// `segment_tree` at run time: the input must be non-empty, small enough
/// for the padded buffer to be addressable, and free of overflowing range
/// sums. Returns `None` exactly when one of those checks fails.
pub fn try_segment_tree(elements: Vec<i64>) -> (result: Option<Vec<i64>>)
    ensures
        match result {
            Some(tree) => {
                &&& is_seg_tree(tree@)
                &&& elements@.len() <= leaf_count(tree@) < 2 * elements@.len()
                &&& tree@.len() == 2 * leaf_count(tree@) - 1
                &&& forall|j: int| 0 <= j < elements@.len() ==> leaves(tree@)[j] == elements@[j]
                &&& forall|j: int|
                    elements@.len() <= j < leaf_count(tree@) ==> leaves(tree@)[j] == 0
            },
            None => elements@.len() == 0 || elements@.len() > usize::MAX / 4 || !sums_fit(
                elements@,
            ),
        },
{
    if elements.len() == 0 || elements.len() > usize::MAX / 4 {
        return None;
    }
    if !all_range_sums_fit(&elements) {
        return None;
    }
    Some(segment_tree(elements))
}

/// Sets element `i` after checking at run time that the updated leaves
/// admit no overflowing range sum; on failure the tree is left unchanged.
pub fn try_set_nth(tree: &mut Vec<i64>, i: usize, value: i64) -> (ok: bool)
    requires
        is_seg_tree(old(tree)@),
        i < leaf_count(old(tree)@),
    ensures
        ok == sums_fit(leaves(old(tree)@).update(i as int, value)),
        ok ==> is_seg_tree(final(tree)@) && final(tree)@.len() == old(tree)@.len() && leaves(
            final(tree)@,
        ) == leaves(old(tree)@).update(i as int, value),
        !ok ==> final(tree)@ == old(tree)@,
{
    let ghost p = leaf_count(old(tree)@);
    let half = tree.len() / 2;
    let count = half + 1;
    let mut updated: Vec<i64> = Vec::new();
    let mut q: usize = 0;
    while q < count
        invariant
            q <= count,
            count == p,
            i < p,
            tree@ == old(tree)@,
            tree@.len() <= usize::MAX,
            tree@.len() == 2 * p - 1,
            half == p - 1,
            updated@.len() == q,
            forall|t: int|
                0 <= t < q ==> updated@[t] == leaves(tree@).update(i as int, value)[t],
        decreases count - q,
    {
        if q == i {
            updated.push(value);
        } else {
            updated.push(tree[half + q]);
        }
        q = q + 1;
    }
    proof {
        assert(updated@ =~= leaves(tree@).update(i as int, value));
    }
    let ok = all_range_sums_fit(&updated);
    if ok {
        set_nth(tree, i, value);
    }
    ok
}

/// What a query over `[first, last]` contributes at a node covering the
/// leaf range `[l, r]`: nothing where the two ranges are disjoint, and the
/// sum of the leaves in their intersection otherwise.
pub open spec fn clipped_sum(s: Seq<i64>, l: int, r: int, first: int, last: int) -> int {
    if first > r || last < l {
        0
    } else {
        range_sum(s, vstd::math::max(l, first), vstd::math::min(r, last) + 1)
    }
}

/// Recursive descent for `sum`, at node `i` covering the inclusive leaf
/// range `[l, r]`: contributes the identity where the query misses the
/// node's range, the stored node value where the query contains it, and
/// descends into both children otherwise.
fn query(tree: &Vec<i64>, i: usize, l: usize, r: usize, first: usize, last: usize) -> (s: i64)
    requires
        tree@.len() % 2 == 1,
        tree@.len() <= usize::MAX,
        is_pow2(leaf_count(tree@)),
        nodes_ok_from(tree@, 0),
        sums_fit(leaves(tree@)),
        l <= r,
        node_covers(leaf_count(tree@), i as int, l as int, r - l + 1),
        first <= last,
    ensures
        s == clipped_sum(leaves(tree@), l as int, r as int, first as int, last as int),
    decreases r - l,
{
    let ghost p = leaf_count(tree@);
    let ghost lv = leaves(tree@);
    let ghost w = r - l + 1;
    proof {
        assert(tree@.len() == 2 * p - 1);
        assert(lv.len() == p);
        assert(i as int + 1 <= w * (i as int + 1)) by (nonlinear_arith)
            requires
                1 <= w,
                0 <= i as int,
        ;
        assert(i < tree@.len());
    }
    if first > r || last < l {
        0
    } else if first <= l && r <= last {
        proof {
            lemma_subtree_sum(tree@, p, i as int, l as int, w);
        }
        tree[i]
    } else {
        proof {
            if l == r {
                assert(first <= l && r <= last);
            }
            lemma_child_covers(p, i as int, l as int, w);
            assert(r < p);
            assert(2 * (i as int) + 2 < tree@.len());
        }
        let mid = (l + r) / 2;
        let a = query(tree, 2 * i + 1, l, mid, first, last);
        let b = query(tree, 2 * i + 2, mid + 1, r, first, last);
        proof {
            let h = w / 2;
            assert(mid == l + h - 1);
            let lo = vstd::math::max(l as int, first as int);
            let hi = vstd::math::min(r as int, last as int);
            if first as int > mid as int {
                assert(a == 0);
                assert(b == range_sum(lv, lo, hi + 1));
            } else if (last as int) < mid + 1 {
                assert(b == 0);
                assert(a == range_sum(lv, lo, hi + 1));
            } else {
                assert(a == range_sum(lv, lo, mid + 1));
                assert(b == range_sum(lv, mid + 1, hi + 1));
                lemma_range_sum_split(lv, lo, mid + 1, hi + 1);
            }
            assert(fits_i64(range_sum(lv, lo, hi + 1)));
        }
        a + b
    }
}

/// Returns the sum of the elements at positions `first ..= last`, by
/// pruned recursive descent from the root.
pub fn sum(tree: &Vec<i64>, first: usize, last: usize) -> (total: i64)
    requires
        is_seg_tree(tree@),
        first <= last,
        last < leaf_count(tree@),
    ensures
        total == range_sum(leaves(tree@), first as int, last as int + 1),
{
    let ghost p = leaf_count(tree@);
    let half = tree.len() / 2;
    proof {
        assert(node_covers(p, 0, 0, p)) by {
            assert(p * 1 == p);
        }
    }
    query(tree, 0, 0, half, first, last)
}

} // verus!
