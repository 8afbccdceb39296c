use vstd::prelude::*;

verus! {

/// The mathematical sum of a sequence of machine integers.
pub open spec fn seq_sum(s: Seq<i64>) -> int
    decreases s.len(),
{
    if s.len() == 0 {
        0
    } else {
        s[0] + seq_sum(s.drop_first())
    }
}

/// The sum of the half-open slice `s[a .. b]`.
pub open spec fn range_sum(s: Seq<i64>, a: int, b: int) -> int
    recommends
        0 <= a <= b <= s.len(),
{
    seq_sum(s.subrange(a, b))
}

/// Whether a mathematical value is representable as an `i64`.
pub open spec fn fits_i64(v: int) -> bool {
    i64::MIN <= v <= i64::MAX
}

/// Every contiguous slice of `s` sums to a value representable as an `i64`.
///
/// Sums of contiguous slices are exactly the values that tree nodes and
/// range queries produce, so this is the condition under which no tree
/// operation can overflow.
pub open spec fn sums_fit(s: Seq<i64>) -> bool {
    forall|a: int, b: int| 0 <= a <= b <= s.len() ==> fits_i64(#[trigger] range_sum(s, a, b))
}

pub proof fn lemma_seq_sum_concat(x: Seq<i64>, y: Seq<i64>)
    ensures
        seq_sum(x + y) == seq_sum(x) + seq_sum(y),
    decreases x.len(),
{
    if x.len() == 0 {
        assert(x + y =~= y);
    } else {
        assert((x + y).drop_first() =~= x.drop_first() + y);
        lemma_seq_sum_concat(x.drop_first(), y);
        assert(seq_sum(x + y) == (x + y)[0] + seq_sum((x + y).drop_first()));
    }
}

pub proof fn lemma_range_sum_split(s: Seq<i64>, a: int, m: int, b: int)
    requires
        0 <= a <= m <= b <= s.len(),
    ensures
        range_sum(s, a, b) == range_sum(s, a, m) + range_sum(s, m, b),
{
    assert(s.subrange(a, b) =~= s.subrange(a, m) + s.subrange(m, b));
    lemma_seq_sum_concat(s.subrange(a, m), s.subrange(m, b));
}

pub proof fn lemma_range_sum_one(s: Seq<i64>, i: int)
    requires
        0 <= i < s.len(),
    ensures
        range_sum(s, i, i + 1) == s[i],
{
    let one = s.subrange(i, i + 1);
    assert(one.drop_first() =~= Seq::<i64>::empty());
    assert(seq_sum(one) == one[0] + seq_sum(one.drop_first()));
}

pub proof fn lemma_range_sum_zeros(s: Seq<i64>, a: int, b: int)
    requires
        0 <= a <= b <= s.len(),
        forall|j: int| a <= j < b ==> s[j] == 0,
    ensures
        range_sum(s, a, b) == 0,
    decreases b - a,
{
    if a == b {
        assert(s.subrange(a, b) =~= Seq::<i64>::empty());
    } else {
        lemma_range_sum_split(s, a, a + 1, b);
        lemma_range_sum_one(s, a);
        lemma_range_sum_zeros(s, a + 1, b);
    }
}

/// Extending a sequence with zero padding preserves `sums_fit`: the sum of
/// any slice of the padded sequence equals the sum of a slice of the
/// original, because the padding contributes nothing.
pub proof fn lemma_sums_fit_padded(el: Seq<i64>, padded: Seq<i64>)
    requires
        sums_fit(el),
        el.len() <= padded.len(),
        forall|j: int| 0 <= j < el.len() ==> padded[j] == el[j],
        forall|j: int| el.len() <= j < padded.len() ==> padded[j] == 0,
    ensures
        sums_fit(padded),
{
    let n = el.len() as int;
    assert forall|a: int, b: int| 0 <= a <= b <= padded.len() implies fits_i64(
        #[trigger] range_sum(padded, a, b),
    ) by {
        if b <= n {
            assert(padded.subrange(a, b) =~= el.subrange(a, b));
            assert(fits_i64(range_sum(el, a, b)));
        } else if a >= n {
            lemma_range_sum_zeros(padded, a, b);
        } else {
            lemma_range_sum_split(padded, a, n, b);
            lemma_range_sum_zeros(padded, n, b);
            assert(padded.subrange(a, n) =~= el.subrange(a, n));
            assert(fits_i64(range_sum(el, a, n)));
        }
    }
}

/// Decides `sums_fit` at run time in one pass. The sum of `s[a .. b]` is
/// the prefix sum at `b` minus the prefix sum at `a`, so it suffices to
/// compare each prefix sum against the least and greatest prefix sums seen
/// before it. Prefix sums are tracked in `i128`, which the length bound
/// keeps from overflowing.
pub fn all_range_sums_fit(elements: &Vec<i64>) -> (ok: bool)
    requires
        elements@.len() <= usize::MAX / 2 + 1,
    ensures
        ok == sums_fit(elements@),
{
    let ghost s = elements@;
    let n = elements.len();
    let mut cur: i128 = 0;
    let mut mn: i128 = 0;
    let mut mx: i128 = 0;
    let ghost mut mni: int = 0;
    let ghost mut mxi: int = 0;
    let mut j: usize = 0;
    while j < n
        invariant
            s == elements@,
            n == s.len(),
            n <= usize::MAX / 2 + 1,
            j <= n,
            cur == range_sum(s, 0, j as int),
            0 <= mni <= j,
            0 <= mxi <= j,
            mn == range_sum(s, 0, mni),
            mx == range_sum(s, 0, mxi),
            j as int * (i64::MIN as int) <= mn <= mx <= j as int * (i64::MAX as int),
            forall|a: int| 0 <= a <= j ==> mn <= #[trigger] range_sum(s, 0, a) <= mx,
            forall|a: int, b: int|
                0 <= a <= b <= j ==> fits_i64(#[trigger] range_sum(s, a, b)),
        decreases n - j,
    {
        let x = elements[j];
        proof {
            lemma_range_sum_split(s, 0, j as int, j as int + 1);
            lemma_range_sum_one(s, j as int);
            assert(mn <= range_sum(s, 0, j as int) <= mx);
        }
        let nc = cur + (x as i128);
        if nc > mn + (i64::MAX as i128) {
            proof {
                lemma_range_sum_split(s, 0, mni, j as int + 1);
                assert(!fits_i64(range_sum(s, mni, j as int + 1)));
            }
            return false;
        }
        if nc < mx + (i64::MIN as i128) {
            proof {
                lemma_range_sum_split(s, 0, mxi, j as int + 1);
                assert(!fits_i64(range_sum(s, mxi, j as int + 1)));
            }
            return false;
        }
        proof {
            assert forall|a: int, b: int| 0 <= a <= b <= j as int + 1 implies fits_i64(
                #[trigger] range_sum(s, a, b),
            ) by {
                if b == j as int + 1 {
                    lemma_range_sum_split(s, 0, a, b);
                    if a <= j as int {
                        assert(mn <= range_sum(s, 0, a) <= mx);
                    }
                }
            }
        }
        cur = nc;
        if nc < mn {
            mn = nc;
            proof {
                mni = j as int + 1;
            }
        }
        if nc > mx {
            mx = nc;
            proof {
                mxi = j as int + 1;
            }
        }
        j = j + 1;
    }
    true
}

} // verus!
