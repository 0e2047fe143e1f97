//! Counting machinery over sequences of string values: occurrence counts,
//! first-seen deduplication, and sums of (squared) class counts. These are
//! the mathematical backbone of the impurity computations.

use vstd::prelude::*;

verus! {

/// How many entries of `xs` equal `v`.
pub open spec fn count_val(xs: Seq<Seq<char>>, v: Seq<char>) -> int
    decreases xs.len(),
{
    if xs.len() == 0 {
        0
    } else {
        (if xs[0] == v {
            1int
        } else {
            0int
        }) + count_val(xs.drop_first(), v)
    }
}

/// Append `x` to `acc` unless it is already present.
pub open spec fn push_distinct(acc: Seq<Seq<char>>, x: Seq<char>) -> Seq<Seq<char>> {
    if acc.contains(x) {
        acc
    } else {
        acc.push(x)
    }
}

/// Fold the values of `xs` into `acc`, keeping the first occurrence of each.
pub open spec fn distinct_from(xs: Seq<Seq<char>>, acc: Seq<Seq<char>>) -> Seq<Seq<char>>
    decreases xs.len(),
{
    if xs.len() == 0 {
        acc
    } else {
        distinct_from(xs.drop_first(), push_distinct(acc, xs[0]))
    }
}

/// The distinct values of `xs`, in order of first occurrence.
pub open spec fn distinct_of(xs: Seq<Seq<char>>) -> Seq<Seq<char>> {
    distinct_from(xs, Seq::empty())
}

/// The sum over `ls` of the count in `xs` of each value.
pub open spec fn sum_counts(xs: Seq<Seq<char>>, ls: Seq<Seq<char>>) -> int
    decreases ls.len(),
{
    if ls.len() == 0 {
        0
    } else {
        count_val(xs, ls[0]) + sum_counts(xs, ls.drop_first())
    }
}

/// The sum over `ls` of the squared count in `xs` of each value.
pub open spec fn sum_sq_counts(xs: Seq<Seq<char>>, ls: Seq<Seq<char>>) -> int
    decreases ls.len(),
{
    if ls.len() == 0 {
        0
    } else {
        count_val(xs, ls[0]) * count_val(xs, ls[0]) + sum_sq_counts(xs, ls.drop_first())
    }
}

/// A count is between zero and the length of the sequence counted over.
pub proof fn lemma_count_bounds(xs: Seq<Seq<char>>, v: Seq<char>)
    ensures
        0 <= count_val(xs, v) <= xs.len(),
    decreases xs.len(),
{
    if xs.len() > 0 {
        lemma_count_bounds(xs.drop_first(), v);
    }
}

/// A value occurs in `xs` exactly when its count is positive.
pub proof fn lemma_count_pos_iff_contains(xs: Seq<Seq<char>>, v: Seq<char>)
    ensures
        count_val(xs, v) > 0 <==> xs.contains(v),
    decreases xs.len(),
{
    if xs.len() > 0 {
        lemma_count_pos_iff_contains(xs.drop_first(), v);
        lemma_count_bounds(xs.drop_first(), v);
        if xs[0] != v && xs.contains(v) {
            let k = choose|k: int| 0 <= k < xs.len() && xs[k] == v;
            assert(xs.drop_first()[k - 1] == v);
            assert(xs.drop_first().contains(v));
        }
        if xs.drop_first().contains(v) {
            let k = choose|k: int| 0 <= k < xs.drop_first().len() && xs.drop_first()[k] == v;
            assert(xs[k + 1] == v);
        }
    }
}

/// In a duplicate-free sequence every value occurs at most once.
pub proof fn lemma_count_no_dup(ls: Seq<Seq<char>>, v: Seq<char>)
    requires
        ls.no_duplicates(),
    ensures
        count_val(ls, v) <= 1,
    decreases ls.len(),
{
    if ls.len() > 0 {
        assert(ls.drop_first().no_duplicates());
        lemma_count_no_dup(ls.drop_first(), v);
        if ls[0] == v {
            lemma_count_pos_iff_contains(ls.drop_first(), v);
            if ls.drop_first().contains(v) {
                let k = choose|k: int|
                    0 <= k < ls.drop_first().len() && ls.drop_first()[k] == v;
                assert(ls[k + 1] == ls[0]);
                assert(false);
            }
        }
    }
}

/// Counting a value in `ls` after counting in the tail of `xs`: the head of
/// `xs` contributes its own occurrence count in `ls`.
pub proof fn lemma_sum_counts_drop(xs: Seq<Seq<char>>, ls: Seq<Seq<char>>)
    requires
        xs.len() > 0,
    ensures
        sum_counts(xs, ls) == count_val(ls, xs[0]) + sum_counts(xs.drop_first(), ls),
    decreases ls.len(),
{
    if ls.len() > 0 {
        lemma_sum_counts_drop(xs, ls.drop_first());
    }
}

/// Summing the counts of duplicate-free values never exceeds the length of
/// the sequence counted over; with every value of `xs` listed, it is exact.
pub proof fn lemma_sum_counts_le(xs: Seq<Seq<char>>, ls: Seq<Seq<char>>)
    requires
        ls.no_duplicates(),
    ensures
        sum_counts(xs, ls) <= xs.len(),
        (forall|v: Seq<char>| xs.contains(v) ==> ls.contains(v)) ==> sum_counts(xs, ls)
            == xs.len(),
    decreases xs.len(),
{
    if xs.len() == 0 {
        lemma_sum_counts_zero(xs, ls);
    } else {
        lemma_sum_counts_drop(xs, ls);
        lemma_sum_counts_le(xs.drop_first(), ls);
        lemma_count_no_dup(ls, xs[0]);
        lemma_count_bounds(ls, xs[0]);
        assert(xs.contains(xs[0]));
        if forall|v: Seq<char>| xs.contains(v) ==> ls.contains(v) {
            assert(ls.contains(xs[0]));
            lemma_count_pos_iff_contains(ls, xs[0]);
            assert forall|v: Seq<char>| xs.drop_first().contains(v) implies ls.contains(
                v,
            ) by {
                let k = choose|k: int|
                    0 <= k < xs.drop_first().len() && xs.drop_first()[k] == v;
                assert(xs[k + 1] == v);
                assert(xs.contains(v));
            }
        }
    }
}

/// Counts of values over an empty sequence sum to zero.
pub proof fn lemma_sum_counts_zero(xs: Seq<Seq<char>>, ls: Seq<Seq<char>>)
    requires
        xs.len() == 0,
    ensures
        sum_counts(xs, ls) == 0,
    decreases ls.len(),
{
    if ls.len() > 0 {
        lemma_sum_counts_zero(xs, ls.drop_first());
    }
}

/// Sums of counts are nonnegative.
pub proof fn lemma_sum_counts_nonneg(xs: Seq<Seq<char>>, ls: Seq<Seq<char>>)
    ensures
        0 <= sum_counts(xs, ls),
    decreases ls.len(),
{
    if ls.len() > 0 {
        lemma_count_bounds(xs, ls[0]);
        lemma_sum_counts_nonneg(xs, ls.drop_first());
    }
}

/// Sums of squared counts are nonnegative.
pub proof fn lemma_sum_sq_nonneg(xs: Seq<Seq<char>>, ls: Seq<Seq<char>>)
    ensures
        0 <= sum_sq_counts(xs, ls),
    decreases ls.len(),
{
    if ls.len() > 0 {
        let c = count_val(xs, ls[0]);
        lemma_count_bounds(xs, ls[0]);
        assert(c * c >= 0) by (nonlinear_arith)
            requires
                c >= 0,
        ;
        lemma_sum_sq_nonneg(xs, ls.drop_first());
    }
}

/// The sum of squared counts is at most the square of the summed counts.
pub proof fn lemma_sum_sq_le_square(xs: Seq<Seq<char>>, ls: Seq<Seq<char>>)
    ensures
        sum_sq_counts(xs, ls) <= sum_counts(xs, ls) * sum_counts(xs, ls),
    decreases ls.len(),
{
    if ls.len() > 0 {
        let c = count_val(xs, ls[0]);
        let a = sum_counts(xs, ls.drop_first());
        lemma_sum_sq_le_square(xs, ls.drop_first());
        lemma_count_bounds(xs, ls[0]);
        lemma_sum_counts_nonneg(xs, ls.drop_first());
        assert(c * c + a * a <= (c + a) * (c + a)) by (nonlinear_arith)
            requires
                c >= 0,
                a >= 0,
        ;
    }
}

/// Cauchy-Schwarz for class counts: the square of the total is at most the
/// number of listed values times the sum of squared counts.
pub proof fn lemma_cauchy_schwarz(xs: Seq<Seq<char>>, ls: Seq<Seq<char>>)
    ensures
        sum_counts(xs, ls) * sum_counts(xs, ls) <= ls.len() * sum_sq_counts(xs, ls),
    decreases ls.len(),
{
    if ls.len() == 0 {
    } else {
        let c = count_val(xs, ls[0]);
        let a = sum_counts(xs, ls.drop_first());
        let s = sum_sq_counts(xs, ls.drop_first());
        let k = ls.drop_first().len() as int;
        lemma_cauchy_schwarz(xs, ls.drop_first());
        lemma_count_bounds(xs, ls[0]);
        lemma_sum_counts_nonneg(xs, ls.drop_first());
        lemma_sum_sq_nonneg(xs, ls.drop_first());
        assert((a + c) * (a + c) <= (k + 1) * (s + c * c)) by (nonlinear_arith)
            requires
                a * a <= k * s,
                c >= 0,
                a >= 0,
                s >= 0,
                k >= 0,
        ;
    }
}

/// The sum of squared counts over the distinct values of `xs` lies between
/// zero and the square of the length of `xs`.
pub proof fn lemma_subset_sum_sq_bounds(xs: Seq<Seq<char>>)
    ensures
        0 <= sum_sq_counts(xs, distinct_of(xs)) <= xs.len() * xs.len(),
        sum_counts(xs, distinct_of(xs)) == xs.len(),
{
    let ls = distinct_of(xs);
    lemma_distinct_of_props(xs);
    lemma_sum_counts_le(xs, ls);
    lemma_sum_sq_le_square(xs, ls);
    lemma_sum_sq_nonneg(xs, ls);
    assert(sum_counts(xs, ls) == xs.len());
}

/// What `distinct_from` accumulates: exactly the starting values plus the
/// values of `xs`, without duplicates (given a duplicate-free start).
pub proof fn lemma_distinct_from_props(xs: Seq<Seq<char>>, acc: Seq<Seq<char>>)
    requires
        acc.no_duplicates(),
    ensures
        distinct_from(xs, acc).no_duplicates(),
        forall|v: Seq<char>| #[trigger]
            distinct_from(xs, acc).contains(v) <==> (acc.contains(v) || xs.contains(v)),
    decreases xs.len(),
{
    if xs.len() == 0 {
        assert(forall|v: Seq<char>| !xs.contains(v));
    } else {
        let acc2 = push_distinct(acc, xs[0]);
        assert(acc2.no_duplicates()) by {
            if !acc.contains(xs[0]) {
                assert(forall|i: int|
                    0 <= i < acc.len() ==> acc2[i] == #[trigger] acc[i]);
            }
        }
        lemma_distinct_from_props(xs.drop_first(), acc2);
        assert forall|v: Seq<char>| #[trigger]
            distinct_from(xs, acc).contains(v) <==> (acc.contains(v) || xs.contains(
            v,
        )) by {
            assert(distinct_from(xs, acc) == distinct_from(xs.drop_first(), acc2));
            assert(acc2.contains(v) <==> (acc.contains(v) || v == xs[0])) by {
                if acc2.contains(v) && !acc.contains(v) {
                    let k = choose|k: int| 0 <= k < acc2.len() && acc2[k] == v;
                    assert(k == acc.len());
                }
                if v == xs[0] && !acc.contains(v) {
                    assert(acc2[acc.len() as int] == v);
                }
                if acc.contains(v) {
                    let k = choose|k: int| 0 <= k < acc.len() && acc[k] == v;
                    assert(acc2[k] == v);
                }
            }
            assert(xs.contains(v) <==> (v == xs[0] || xs.drop_first().contains(v))) by {
                if xs.contains(v) && v != xs[0] {
                    let k = choose|k: int| 0 <= k < xs.len() && xs[k] == v;
                    assert(xs.drop_first()[k - 1] == v);
                }
                if xs.drop_first().contains(v) {
                    let k = choose|k: int|
                        0 <= k < xs.drop_first().len() && xs.drop_first()[k] == v;
                    assert(xs[k + 1] == v);
                }
                assert(xs.contains(xs[0]));
            }
        }
    }
}

/// The distinct values of `xs` are duplicate-free and are exactly the values
/// occurring in `xs`.
pub proof fn lemma_distinct_of_props(xs: Seq<Seq<char>>)
    ensures
        distinct_of(xs).no_duplicates(),
        forall|v: Seq<char>| #[trigger]
            distinct_of(xs).contains(v) <==> xs.contains(v),
{
    lemma_distinct_from_props(xs, Seq::empty());
}

} // verus!
