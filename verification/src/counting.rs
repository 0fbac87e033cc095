//! Finite sums and counts over integer ranges, used to specify the
//! heuristic values and the inversion count of a configuration.

use vstd::prelude::*;

verus! {

/// Sum of `f(i)` for `i` in `[lo, hi)`.
pub open spec fn sum_range(lo: int, hi: int, f: spec_fn(int) -> int) -> int
    decreases hi - lo,
{
    if lo >= hi {
        0
    } else {
        sum_range(lo, hi - 1, f) + f(hi - 1)
    }
}

/// Number of `i` in `[lo, hi)` with `f(i)`.
pub open spec fn count_range(lo: int, hi: int, f: spec_fn(int) -> bool) -> int
    decreases hi - lo,
{
    if lo >= hi {
        0
    } else {
        count_range(lo, hi - 1, f) + if f(hi - 1) {
            1int
        } else {
            0int
        }
    }
}

pub proof fn lemma_sum_range_nonneg(lo: int, hi: int, f: spec_fn(int) -> int)
    requires
        forall|i: int| lo <= i < hi ==> #[trigger] f(i) >= 0,
    ensures
        sum_range(lo, hi, f) >= 0,
    decreases hi - lo,
{
    if lo < hi {
        lemma_sum_range_nonneg(lo, hi - 1, f);
    }
}

/// A pointwise bound on the terms bounds the sum.
pub proof fn lemma_sum_range_bound(lo: int, hi: int, f: spec_fn(int) -> int, b: int)
    requires
        lo <= hi,
        forall|i: int| lo <= i < hi ==> #[trigger] f(i) <= b,
    ensures
        sum_range(lo, hi, f) <= b * (hi - lo),
    decreases hi - lo,
{
    if lo < hi {
        lemma_sum_range_bound(lo, hi - 1, f, b);
        assert(f(hi - 1) <= b);
        assert(sum_range(lo, hi, f) == sum_range(lo, hi - 1, f) + f(hi - 1));
        assert(b * (hi - lo) == b * (hi - 1 - lo) + b) by (nonlinear_arith);
        assert(sum_range(lo, hi, f) <= b * (hi - lo));
    } else {
        assert(sum_range(lo, hi, f) == 0);
        assert(b * (hi - lo) == 0) by (nonlinear_arith)
            requires
                hi == lo,
        ;
    }
}

/// Sums agree when the terms agree on the whole range.
pub proof fn lemma_sum_range_congruence(lo: int, hi: int, f: spec_fn(int) -> int, g: spec_fn(
    int,
) -> int)
    requires
        forall|i: int| lo <= i < hi ==> #[trigger] f(i) == #[trigger] g(i),
    ensures
        sum_range(lo, hi, f) == sum_range(lo, hi, g),
    decreases hi - lo,
{
    if lo < hi {
        lemma_sum_range_congruence(lo, hi - 1, f, g);
    }
}

pub proof fn lemma_sum_range_split(lo: int, mid: int, hi: int, f: spec_fn(int) -> int)
    requires
        lo <= mid <= hi,
    ensures
        sum_range(lo, hi, f) == sum_range(lo, mid, f) + sum_range(mid, hi, f),
    decreases hi - mid,
{
    if mid < hi {
        lemma_sum_range_split(lo, mid, hi - 1, f);
    }
}

/// A sum of zero terms is zero.
pub proof fn lemma_sum_range_zero(lo: int, hi: int, f: spec_fn(int) -> int)
    requires
        forall|i: int| lo <= i < hi ==> #[trigger] f(i) == 0,
    ensures
        sum_range(lo, hi, f) == 0,
    decreases hi - lo,
{
    if lo < hi {
        lemma_sum_range_zero(lo, hi - 1, f);
    }
}

/// In a sum of nonnegative terms, each term is at most the sum.
pub proof fn lemma_sum_range_term_le(lo: int, hi: int, f: spec_fn(int) -> int, k: int)
    requires
        forall|i: int| lo <= i < hi ==> #[trigger] f(i) >= 0,
        lo <= k < hi,
    ensures
        f(k) <= sum_range(lo, hi, f),
{
    lemma_sum_range_split(lo, k, hi, f);
    lemma_sum_range_split(k, k + 1, hi, f);
    lemma_sum_range_nonneg(lo, k, f);
    lemma_sum_range_nonneg(k + 1, hi, f);
    assert(sum_range(k, k, f) == 0);
    assert(sum_range(k, k + 1, f) == sum_range(k, k, f) + f(k));
}

pub proof fn lemma_count_range_nonneg(lo: int, hi: int, f: spec_fn(int) -> bool)
    ensures
        count_range(lo, hi, f) >= 0,
    decreases hi - lo,
{
    if lo < hi {
        lemma_count_range_nonneg(lo, hi - 1, f);
    }
}

pub proof fn lemma_count_range_le(lo: int, hi: int, f: spec_fn(int) -> bool)
    requires
        lo <= hi,
    ensures
        count_range(lo, hi, f) <= hi - lo,
    decreases hi - lo,
{
    if lo < hi {
        lemma_count_range_le(lo, hi - 1, f);
    }
}

/// Counts agree when the predicates agree on the whole range.
pub proof fn lemma_count_range_congruence(lo: int, hi: int, f: spec_fn(int) -> bool, g: spec_fn(
    int,
) -> bool)
    requires
        forall|i: int| lo <= i < hi ==> (#[trigger] f(i) <==> #[trigger] g(i)),
    ensures
        count_range(lo, hi, f) == count_range(lo, hi, g),
    decreases hi - lo,
{
    if lo < hi {
        lemma_count_range_congruence(lo, hi - 1, f, g);
    }
}

/// A count of an everywhere-false predicate is zero.
pub proof fn lemma_count_range_zero(lo: int, hi: int, f: spec_fn(int) -> bool)
    requires
        forall|i: int| lo <= i < hi ==> !(#[trigger] f(i)),
    ensures
        count_range(lo, hi, f) == 0,
    decreases hi - lo,
{
    if lo < hi {
        lemma_count_range_zero(lo, hi - 1, f);
    }
}

/// A count of an everywhere-true predicate is the range's size.
pub proof fn lemma_count_range_full(lo: int, hi: int, f: spec_fn(int) -> bool)
    requires
        lo <= hi,
        forall|i: int| lo <= i < hi ==> #[trigger] f(i),
    ensures
        count_range(lo, hi, f) == hi - lo,
    decreases hi - lo,
{
    if lo < hi {
        lemma_count_range_full(lo, hi - 1, f);
    }
}

pub proof fn lemma_count_range_split(lo: int, mid: int, hi: int, f: spec_fn(int) -> bool)
    requires
        lo <= mid <= hi,
    ensures
        count_range(lo, hi, f) == count_range(lo, mid, f) + count_range(mid, hi, f),
    decreases hi - mid,
{
    if mid < hi {
        lemma_count_range_split(lo, mid, hi - 1, f);
    }
}

/// Two term functions that agree except at one point give sums that differ
/// exactly by the difference at that point.
pub proof fn lemma_sum_range_one_point(
    lo: int,
    hi: int,
    f: spec_fn(int) -> int,
    g: spec_fn(int) -> int,
    p: int,
)
    requires
        lo <= p < hi,
        forall|i: int| lo <= i < hi && i != p ==> #[trigger] f(i) == #[trigger] g(i),
    ensures
        sum_range(lo, hi, g) == sum_range(lo, hi, f) + g(p) - f(p),
{
    lemma_sum_range_split(lo, p, hi, f);
    lemma_sum_range_split(p, p + 1, hi, f);
    lemma_sum_range_split(lo, p, hi, g);
    lemma_sum_range_split(p, p + 1, hi, g);
    lemma_sum_range_congruence(lo, p, f, g);
    lemma_sum_range_congruence(p + 1, hi, f, g);
    assert(sum_range(p, p, f) == 0);
    assert(sum_range(p, p, g) == 0);
    assert(sum_range(p, p + 1, f) == sum_range(p, p, f) + f(p));
    assert(sum_range(p, p + 1, g) == sum_range(p, p, g) + g(p));
}

/// Two complementary predicates split the range between them.
pub proof fn lemma_count_range_complement(lo: int, hi: int, f: spec_fn(int) -> bool, g: spec_fn(
    int,
) -> bool)
    requires
        lo <= hi,
        forall|i: int| lo <= i < hi ==> (#[trigger] f(i) <==> !(#[trigger] g(i))),
    ensures
        count_range(lo, hi, f) + count_range(lo, hi, g) == hi - lo,
    decreases hi - lo,
{
    if lo < hi {
        lemma_count_range_complement(lo, hi - 1, f, g);
    }
}

/// When each term of `g` is the matching term of `f` less the indicator of
/// `pred`, the sums differ by the count of `pred`.
pub proof fn lemma_sum_range_minus_indicator(
    lo: int,
    hi: int,
    f: spec_fn(int) -> int,
    g: spec_fn(int) -> int,
    pred: spec_fn(int) -> bool,
)
    requires
        lo <= hi,
        forall|i: int|
            lo <= i < hi ==> #[trigger] g(i) == #[trigger] f(i) - (if pred(i) {
                1int
            } else {
                0int
            }),
    ensures
        sum_range(lo, hi, g) == sum_range(lo, hi, f) - count_range(lo, hi, pred),
    decreases hi - lo,
{
    if lo < hi {
        lemma_sum_range_minus_indicator(lo, hi - 1, f, g, pred);
    }
}

/// Two predicates that agree except at one point give counts that differ
/// exactly by the difference at that point.
pub proof fn lemma_count_range_one_point(
    lo: int,
    hi: int,
    f: spec_fn(int) -> bool,
    g: spec_fn(int) -> bool,
    p: int,
)
    requires
        lo <= p < hi,
        forall|i: int| lo <= i < hi && i != p ==> (#[trigger] f(i) <==> #[trigger] g(i)),
    ensures
        count_range(lo, hi, g) == count_range(lo, hi, f) + (if g(p) {
            1int
        } else {
            0int
        }) - (if f(p) {
            1int
        } else {
            0int
        }),
{
    lemma_count_range_split(lo, p, hi, f);
    lemma_count_range_split(p, p + 1, hi, f);
    lemma_count_range_split(lo, p, hi, g);
    lemma_count_range_split(p, p + 1, hi, g);
    lemma_count_range_congruence(lo, p, f, g);
    lemma_count_range_congruence(p + 1, hi, f, g);
    assert(count_range(p, p, f) == 0);
    assert(count_range(p, p, g) == 0);
    assert(count_range(p, p + 1, f) == count_range(p, p, f) + if f(p) {
        1int
    } else {
        0int
    });
    assert(count_range(p, p + 1, g) == count_range(p, p, g) + if g(p) {
        1int
    } else {
        0int
    });
}

/// Two predicates that agree except at two points give counts that differ
/// exactly by the differences at those points.
pub proof fn lemma_count_range_two_point(
    lo: int,
    hi: int,
    f: spec_fn(int) -> bool,
    g: spec_fn(int) -> bool,
    p: int,
    q: int,
)
    requires
        lo <= p < q < hi,
        forall|i: int| lo <= i < hi && i != p && i != q ==> (#[trigger] f(i) <==> #[trigger] g(i)),
    ensures
        count_range(lo, hi, g) == count_range(lo, hi, f) + (if g(p) {
            1int
        } else {
            0int
        }) - (if f(p) {
            1int
        } else {
            0int
        }) + (if g(q) {
            1int
        } else {
            0int
        }) - (if f(q) {
            1int
        } else {
            0int
        }),
{
    let h = |i: int|
        if i == p {
            g(p)
        } else {
            f(i)
        };
    lemma_count_range_one_point(lo, hi, f, h, p);
    lemma_count_range_one_point(lo, hi, h, g, q);
}

} // verus!
