//! Ordering a column: running minimum and maximum, sorting by the total
//! order, and order statistics.

use vstd::prelude::*;
use vstd::relations::sorted_by;
use vstd::seq_lib::{lemma_multiset_commutative, lemma_sorted_unique};
use crate::binary64::{
    INFINITY, NEG_INFINITY, spec_is_nan, spec_lt, spec_le, order_key, total_le_fn, is_nan, lt,
    total_key, lemma_total_le_is_total_ordering,
};

verus! {

broadcast use vstd::seq_lib::group_to_multiset_ensures;

/// One step of `min`: a NaN operand is skipped (the other one is returned);
/// otherwise the right operand wins only when it is strictly smaller.
pub open spec fn min_step(acc: u64, x: u64) -> u64 {
    if spec_is_nan(x) {
        acc
    } else if spec_is_nan(acc) {
        x
    } else if spec_lt(x, acc) {
        x
    } else {
        acc
    }
}

/// One step of `max`, the mirror image of `min_step`.
pub open spec fn max_step(acc: u64, x: u64) -> u64 {
    if spec_is_nan(x) {
        acc
    } else if spec_is_nan(acc) {
        x
    } else if spec_lt(acc, x) {
        x
    } else {
        acc
    }
}

/// Left fold of `min_step` over `s`, starting from `+inf`.
pub open spec fn fold_min(s: Seq<u64>) -> u64
    decreases s.len(),
{
    if s.len() == 0 {
        INFINITY
    } else {
        min_step(fold_min(s.drop_last()), s.last())
    }
}

/// Left fold of `max_step` over `s`, starting from `-inf`.
pub open spec fn fold_max(s: Seq<u64>) -> u64
    decreases s.len(),
{
    if s.len() == 0 {
        NEG_INFINITY
    } else {
        max_step(fold_max(s.drop_last()), s.last())
    }
}

/// `s` is nondecreasing in the total order.
pub open spec fn sorted_total(s: Seq<u64>) -> bool {
    forall|i: int, j: int| 0 <= i < j < s.len() ==> order_key(s[i]) <= order_key(s[j])
}

/// No element of `s` is a NaN.
pub open spec fn nan_free(s: Seq<u64>) -> bool {
    forall|i: int| 0 <= i < s.len() ==> !spec_is_nan(#[trigger] s[i])
}

/// `s` sorted by the total order, the unique such arrangement of its
/// elements.
pub open spec fn sorted_copy(s: Seq<u64>) -> Seq<u64> {
    s.sort_by(total_le_fn())
}

fn min_step_exec(acc: u64, x: u64) -> (r: u64)
    ensures
        r == min_step(acc, x),
{
    if is_nan(x) {
        acc
    } else if is_nan(acc) {
        x
    } else if lt(x, acc) {
        x
    } else {
        acc
    }
}

fn max_step_exec(acc: u64, x: u64) -> (r: u64)
    ensures
        r == max_step(acc, x),
{
    if is_nan(x) {
        acc
    } else if is_nan(acc) {
        x
    } else if lt(acc, x) {
        x
    } else {
        acc
    }
}

/// Minimum of `s[from..]` as folding `min` from `+inf` computes it.
pub fn min_from(s: &Vec<u64>, from: usize) -> (m: u64)
    requires
        from <= s.len(),
    ensures
        m == fold_min(s@.subrange(from as int, s.len() as int)),
{
    let mut acc = INFINITY;
    let mut i = from;
    assert(s@.subrange(from as int, from as int) =~= Seq::<u64>::empty());
    while i < s.len()
        invariant
            from <= i <= s.len(),
            acc == fold_min(s@.subrange(from as int, i as int)),
        decreases s.len() - i,
    {
        assert(s@.subrange(from as int, i + 1).drop_last() =~= s@.subrange(from as int, i as int));
        acc = min_step_exec(acc, s[i]);
        i = i + 1;
    }
    acc
}

/// Maximum of `s` as folding `max` from `-inf` computes it.
pub fn max_of(s: &Vec<u64>) -> (m: u64)
    ensures
        m == fold_max(s@),
{
    let mut acc = NEG_INFINITY;
    let mut i: usize = 0;
    assert(s@.subrange(0, 0) =~= Seq::<u64>::empty());
    while i < s.len()
        invariant
            i <= s.len(),
            acc == fold_max(s@.subrange(0, i as int)),
        decreases s.len() - i,
    {
        assert(s@.subrange(0, i + 1).drop_last() =~= s@.subrange(0, i as int));
        acc = max_step_exec(acc, s[i]);
        i = i + 1;
    }
    assert(s@.subrange(0, s.len() as int) =~= s@);
    acc
}

/// Minimum of `s` as folding `min` from `+inf` computes it.
pub fn min_of(s: &Vec<u64>) -> (m: u64)
    ensures
        m == fold_min(s@),
{
    let m = min_from(s, 0);
    assert(s@.subrange(0, s.len() as int) =~= s@);
    m
}

/// The running minimum is `+inf` or an element, and it is at most every
/// non-NaN element.
pub proof fn lemma_fold_min_bounds(s: Seq<u64>)
    ensures
        fold_min(s) == INFINITY || s.contains(fold_min(s)),
        !spec_is_nan(fold_min(s)),
        forall|i: int| 0 <= i < s.len() && !spec_is_nan(s[i]) ==> spec_le(fold_min(s), #[trigger] s[i]),
    decreases s.len(),
{
    if s.len() > 0 {
        let t = s.drop_last();
        lemma_fold_min_bounds(t);
        assert forall|i: int| 0 <= i < s.len() && !spec_is_nan(s[i]) implies spec_le(fold_min(s), #[trigger] s[i]) by {
            if i < s.len() - 1 {
                assert(t[i] == s[i]);
            }
        }
        if fold_min(s) != INFINITY && fold_min(s) != fold_min(t) {
            assert(fold_min(s) == s[s.len() - 1]);
        } else if fold_min(s) != INFINITY {
            let k = choose|k: int| 0 <= k < t.len() && t[k] == fold_min(t);
            assert(s[k] == fold_min(s));
        }
    }
}

/// The running maximum is `-inf` or an element, and it is at least every
/// non-NaN element.
pub proof fn lemma_fold_max_bounds(s: Seq<u64>)
    ensures
        fold_max(s) == NEG_INFINITY || s.contains(fold_max(s)),
        !spec_is_nan(fold_max(s)),
        forall|i: int| 0 <= i < s.len() && !spec_is_nan(s[i]) ==> spec_le(#[trigger] s[i], fold_max(s)),
    decreases s.len(),
{
    if s.len() > 0 {
        let t = s.drop_last();
        lemma_fold_max_bounds(t);
        assert forall|i: int| 0 <= i < s.len() && !spec_is_nan(s[i]) implies spec_le(#[trigger] s[i], fold_max(s)) by {
            if i < s.len() - 1 {
                assert(t[i] == s[i]);
            }
        }
        if fold_max(s) != NEG_INFINITY && fold_max(s) != fold_max(t) {
            assert(fold_max(s) == s[s.len() - 1]);
        } else if fold_max(s) != NEG_INFINITY {
            let k = choose|k: int| 0 <= k < t.len() && t[k] == fold_max(t);
            assert(s[k] == fold_max(s));
        }
    }
}

/// On a NaN-free sequence sorted by the total order, the running minimum is
/// its first element.
pub proof fn lemma_fold_min_sorted(s: Seq<u64>)
    requires
        s.len() > 0,
        sorted_total(s),
        nan_free(s),
    ensures
        fold_min(s) == s[0],
    decreases s.len(),
{
    let t = s.drop_last();
    let last = s[s.len() - 1];
    assert(!spec_is_nan(last));
    if s.len() > 1 {
        assert forall|i: int, j: int| 0 <= i < j < t.len() implies order_key(t[i]) <= order_key(
            t[j],
        ) by {
            assert(t[i] == s[i] && t[j] == s[j]);
        }
        assert forall|i: int| 0 <= i < t.len() implies !spec_is_nan(#[trigger] t[i]) by {
            assert(t[i] == s[i]);
        }
        lemma_fold_min_sorted(t);
        assert(t[0] == s[0]);
        assert(!spec_is_nan(s[0]));
        assert(order_key(s[0]) <= order_key(last));
        assert(!spec_lt(last, s[0]));
        assert(fold_min(s) == min_step(fold_min(t), last));
    } else {
        assert(t =~= Seq::<u64>::empty());
        assert(fold_min(t) == INFINITY);
        assert(fold_min(s) == min_step(INFINITY, last));
        assert(!spec_lt(last, INFINITY) ==> last == INFINITY);
    }
}

proof fn lemma_sorted_total_is_sorted_by(s: Seq<u64>)
    ensures
        sorted_total(s) <==> sorted_by(s, total_le_fn()),
{
    if sorted_by(s, total_le_fn()) {
        assert forall|i: int, j: int| 0 <= i < j < s.len() implies order_key(s[i]) <= order_key(s[j]) by {
            assert(total_le_fn()(s[i], s[j]));
        }
    }
}

/// The unique sorted arrangement: `sorted_copy(s)` has the elements of `s`
/// and is sorted; any sorted arrangement of the same elements equals it.
pub proof fn lemma_sorted_copy(s: Seq<u64>, r: Seq<u64>)
    ensures
        sorted_copy(s).to_multiset() == s.to_multiset(),
        sorted_total(sorted_copy(s)),
        sorted_copy(s).len() == s.len(),
        (sorted_total(r) && r.to_multiset() == s.to_multiset()) ==> r == sorted_copy(s),
{
    lemma_total_le_is_total_ordering();
    s.lemma_sort_by_ensures(total_le_fn());
    lemma_sorted_total_is_sorted_by(sorted_copy(s));
    lemma_sorted_total_is_sorted_by(r);
    assert(sorted_copy(s).len() == sorted_copy(s).to_multiset().len());
    if sorted_total(r) && r.to_multiset() == s.to_multiset() {
        lemma_sorted_unique(r, sorted_copy(s), total_le_fn());
    }
}

fn copy_range(v: &Vec<u64>, lo: usize, hi: usize) -> (r: Vec<u64>)
    requires
        lo <= hi <= v.len(),
    ensures
        r@ == v@.subrange(lo as int, hi as int),
{
    let mut r: Vec<u64> = Vec::new();
    let mut i = lo;
    while i < hi
        invariant
            lo <= i <= hi <= v.len(),
            r@ == v@.subrange(lo as int, i as int),
        decreases hi - i,
    {
        r.push(v[i]);
        i = i + 1;
        assert(r@ =~= v@.subrange(lo as int, i as int));
    }
    r
}

fn merge(a: &Vec<u64>, b: &Vec<u64>) -> (r: Vec<u64>)
    requires
        sorted_total(a@),
        sorted_total(b@),
    ensures
        sorted_total(r@),
        r@.to_multiset() == a@.to_multiset().add(b@.to_multiset()),
{
    let mut r: Vec<u64> = Vec::new();
    let mut i: usize = 0;
    let mut j: usize = 0;
    assert(a@.subrange(0, 0) =~= Seq::<u64>::empty());
    assert(b@.subrange(0, 0) =~= Seq::<u64>::empty());
    while i < a.len() || j < b.len()
        invariant
            i <= a.len(),
            j <= b.len(),
            sorted_total(a@),
            sorted_total(b@),
            sorted_total(r@),
            r@.to_multiset() == a@.subrange(0, i as int).to_multiset().add(
                b@.subrange(0, j as int).to_multiset(),
            ),
            forall|k: int|
                0 <= k < r.len() ==> (i < a.len() ==> order_key(#[trigger] r@[k]) <= order_key(
                    a@[i as int],
                )) && (j < b.len() ==> order_key(r@[k]) <= order_key(b@[j as int])),
        decreases a.len() + b.len() - i - j,
    {
        if j >= b.len() || (i < a.len() && total_key(a[i]) <= total_key(b[j])) {
            let x = a[i];
            assert(a@.subrange(0, i + 1) =~= a@.subrange(0, i as int).push(x));
            r.push(x);
            i = i + 1;
        } else {
            let x = b[j];
            assert(b@.subrange(0, j + 1) =~= b@.subrange(0, j as int).push(x));
            r.push(x);
            j = j + 1;
        }
    }
    assert(a@.subrange(0, a.len() as int) =~= a@);
    assert(b@.subrange(0, b.len() as int) =~= b@);
    r
}

fn merge_sort(v: &Vec<u64>) -> (r: Vec<u64>)
    ensures
        sorted_total(r@),
        r@.to_multiset() == v@.to_multiset(),
    decreases v.len(),
{
    let n = v.len();
    if n <= 1 {
        let r = copy_range(v, 0, n);
        assert(r@ =~= v@);
        return r;
    }
    let mid = n / 2;
    let left = copy_range(v, 0, mid);
    let right = copy_range(v, mid, n);
    assert(v@ =~= left@ + right@);
    proof {
        lemma_multiset_commutative(left@, right@);
    }
    let ls = merge_sort(&left);
    let rs = merge_sort(&right);
    merge(&ls, &rs)
}

/// A copy of `col` sorted by the total order (`total_cmp`).
pub fn sort_total(col: &Vec<u64>) -> (r: Vec<u64>)
    ensures
        r@ == sorted_copy(col@),
{
    let r = merge_sort(col);
    proof {
        lemma_sorted_copy(col@, r@);
    }
    r
}

/// Selects the `k`-th order statistic (0-based) of `xs` in the total order,
/// reordering `xs` in place: afterwards `xs` holds the same elements, its
/// `k`-th entry is that order statistic, everything before it is no larger
/// and everything after it no smaller (this arrangement is the sorted one).
/// Returns the `k`-th order statistic and, when `want_next` and there is
/// one, the minimum of the entries after it; otherwise the `k`-th order
/// statistic again.
pub fn select_kth(xs: &mut Vec<u64>, k: usize, want_next: bool) -> (r: (u64, u64))
    requires
        k < old(xs).len(),
    ensures
        final(xs)@.to_multiset() == old(xs)@.to_multiset(),
        final(xs)@ == sorted_copy(old(xs)@),
        forall|i: int| 0 <= i < k ==> order_key(#[trigger] final(xs)@[i]) <= order_key(final(xs)@[k as int]),
        forall|i: int|
            k < i < final(xs)@.len() ==> order_key(final(xs)@[k as int]) <= order_key(#[trigger] final(xs)@[i]),
        r.0 == final(xs)@[k as int],
        r.0 == sorted_copy(old(xs)@)[k as int],
        r.1 == if want_next && k + 1 < old(xs).len() {
            fold_min(final(xs)@.subrange(k + 1, old(xs).len() as int))
        } else {
            r.0
        },
{
    let sorted = sort_total(xs);
    proof {
        lemma_sorted_copy(old(xs)@, sorted@);
    }
    *xs = sorted;
    let kth = xs[k];
    if want_next && k + 1 < xs.len() {
        let next = min_from(xs, k + 1);
        (kth, next)
    } else {
        (kth, kth)
    }
}

/// On NaN-free input, the element found after the `k`-th order statistic is
/// the next order statistic.
pub proof fn lemma_select_next_is_next_order_statistic(xs: Seq<u64>, k: int)
    requires
        0 <= k,
        k + 1 < xs.len(),
        nan_free(xs),
    ensures
        fold_min(sorted_copy(xs).subrange(k + 1, xs.len() as int)) == sorted_copy(xs)[k + 1],
{
    let s = sorted_copy(xs);
    lemma_sorted_copy(xs, xs);
    assert forall|i: int| 0 <= i < s.len() implies !spec_is_nan(#[trigger] s[i]) by {
        assert(s.to_multiset().count(s[i]) > 0);
        assert(xs.contains(s[i]));
        let m = choose|m: int| 0 <= m < xs.len() && xs[m] == s[i];
        assert(!spec_is_nan(xs[m]));
    }
    let t = s.subrange(k + 1, xs.len() as int);
    assert(t[0] == s[k + 1]);
    lemma_fold_min_sorted(t);
}

} // verus!
