//! Split finder: exhaustive search over (feature, value) pairs for the
//! equality split of minimal weighted Gini impurity. Weighted impurities are
//! compared as exact rationals by cross-multiplication, so the search is
//! deterministic and free of floating-point rounding.

use vstd::prelude::*;

use crate::counts::distinct_of;
use crate::counts::lemma_distinct_of_props;
use crate::dataset::Dataset;
use crate::dataset::MAX_ROWS;
use crate::dataset::valid_subset;
use crate::dataset::views_of;
use crate::impurity::distinct_values;
use crate::impurity::gini_den;
use crate::impurity::gini_num;
use crate::impurity::gini_impurity;
use crate::impurity::lemma_gini_bounds;

verus! {

/// The rows of `s` whose value in column `f` equals `v`, in subset order.
pub open spec fn split_left(d: Dataset, s: Seq<usize>, f: int, v: Seq<char>) -> Seq<usize>
    decreases s.len(),
{
    if s.len() == 0 {
        Seq::empty()
    } else {
        let rest = split_left(d, s.drop_first(), f, v);
        if d.feat(s[0] as int, f) == v {
            seq![s[0]] + rest
        } else {
            rest
        }
    }
}

/// The rows of `s` whose value in column `f` differs from `v`, in subset
/// order.
pub open spec fn split_right(d: Dataset, s: Seq<usize>, f: int, v: Seq<char>) -> Seq<usize>
    decreases s.len(),
{
    if s.len() == 0 {
        Seq::empty()
    } else {
        let rest = split_right(d, s.drop_first(), f, v);
        if d.feat(s[0] as int, f) != v {
            seq![s[0]] + rest
        } else {
            rest
        }
    }
}

/// The values of column `f` across the rows of `s`, in subset order.
pub open spec fn col_values(d: Dataset, s: Seq<usize>, f: int) -> Seq<Seq<char>> {
    s.map_values(|i: usize| d.feat(i as int, f))
}

/// A candidate split: the column tested, the value compared against, and the
/// two sides of the partition.
pub struct SplitSpec {
    /// Index of the feature column tested by the split.
    pub feature: int,
    /// The value the column is compared against.
    pub value: Seq<char>,
    /// Rows whose column value equals `value`.
    pub left: Seq<usize>,
    /// Rows whose column value differs from `value`.
    pub right: Seq<usize>,
}

/// The candidate split of `s` at column `f` and value `v`.
pub open spec fn candidate(d: Dataset, s: Seq<usize>, f: int, v: Seq<char>) -> SplitSpec {
    SplitSpec {
        feature: f,
        value: v,
        left: split_left(d, s, f, v),
        right: split_right(d, s, f, v),
    }
}

/// A split is usable when neither side is empty.
pub open spec fn usable(c: SplitSpec) -> bool {
    c.left.len() > 0 && c.right.len() > 0
}

/// Numerator of the weighted impurity `(|l|/n)*gini(l) + (|r|/n)*gini(r)` of
/// a partition `(l, r)` of the parent subset, over the common denominator
/// `w_den`.
pub open spec fn w_num(d: Dataset, l: Seq<usize>, r: Seq<usize>) -> int {
    gini_num(d, l) * r.len() as int + gini_num(d, r) * l.len() as int
}

/// Denominator of the weighted impurity of a partition `(l, r)`:
/// `n * |l| * |r|` with `n = |l| + |r|`.
pub open spec fn w_den(l: Seq<usize>, r: Seq<usize>) -> int {
    (l.len() as int + r.len() as int) * l.len() as int * r.len() as int
}

/// The weighted impurity of `(l1, r1)` is at most that of `(l2, r2)`,
/// compared by cross-multiplication.
pub open spec fn weighted_le(
    d: Dataset,
    l1: Seq<usize>,
    r1: Seq<usize>,
    l2: Seq<usize>,
    r2: Seq<usize>,
) -> bool {
    w_num(d, l1, r1) * w_den(l2, r2) <= w_num(d, l2, r2) * w_den(l1, r1)
}

/// The weighted impurity of `(l1, r1)` is strictly below that of `(l2, r2)`.
pub open spec fn strictly_better(
    d: Dataset,
    l1: Seq<usize>,
    r1: Seq<usize>,
    l2: Seq<usize>,
    r2: Seq<usize>,
) -> bool {
    w_num(d, l1, r1) * w_den(l2, r2) < w_num(d, l2, r2) * w_den(l1, r1)
}

/// The two sides of a split partition the subset: their lengths sum to the
/// subset's, and a row index lands on the side its column value selects.
pub proof fn lemma_split_parts(d: Dataset, s: Seq<usize>, f: int, v: Seq<char>)
    ensures
        split_left(d, s, f, v).len() + split_right(d, s, f, v).len() == s.len(),
        forall|i: usize| #[trigger]
            split_left(d, s, f, v).contains(i) <==> (s.contains(i) && d.feat(i as int, f)
                == v),
        forall|i: usize| #[trigger]
            split_right(d, s, f, v).contains(i) <==> (s.contains(i) && d.feat(i as int, f)
                != v),
    decreases s.len(),
{
    if s.len() > 0 {
        let tail = s.drop_first();
        lemma_split_parts(d, tail, f, v);
        let sl_tail = split_left(d, tail, f, v);
        let sr_tail = split_right(d, tail, f, v);
        assert forall|i: usize| #[trigger]
            split_left(d, s, f, v).contains(i) <==> (s.contains(i) && d.feat(i as int, f)
                == v) by {
            lemma_head_tail_contains(s, i);
            lemma_cons_contains(s[0], sl_tail, i);
            assert(sl_tail.contains(i) <==> (tail.contains(i) && d.feat(i as int, f) == v));
            if d.feat(s[0] as int, f) == v {
                assert(split_left(d, s, f, v) == seq![s[0]] + sl_tail);
            } else {
                assert(split_left(d, s, f, v) == sl_tail);
            }
        }
        assert forall|i: usize| #[trigger]
            split_right(d, s, f, v).contains(i) <==> (s.contains(i) && d.feat(i as int, f)
                != v) by {
            lemma_head_tail_contains(s, i);
            lemma_cons_contains(s[0], sr_tail, i);
            assert(sr_tail.contains(i) <==> (tail.contains(i) && d.feat(i as int, f) != v));
            if d.feat(s[0] as int, f) != v {
                assert(split_right(d, s, f, v) == seq![s[0]] + sr_tail);
            } else {
                assert(split_right(d, s, f, v) == sr_tail);
            }
        }
    }
}

/// Membership in a nonempty sequence is membership at the head or in the
/// tail.
proof fn lemma_head_tail_contains(s: Seq<usize>, i: usize)
    requires
        s.len() > 0,
    ensures
        s.contains(i) <==> (i == s[0] || s.drop_first().contains(i)),
{
    let tail = s.drop_first();
    if s.contains(i) && i != s[0] {
        let k = choose|k: int| 0 <= k < s.len() && s[k] == i;
        assert(tail[k - 1] == i);
    }
    if tail.contains(i) {
        let k = choose|k: int| 0 <= k < tail.len() && tail[k] == i;
        assert(s[k + 1] == i);
    }
    assert(s[0] == s[0] ==> s.contains(s[0]));
}

/// Membership in a sequence with one element prepended.
proof fn lemma_cons_contains(x: usize, rest: Seq<usize>, i: usize)
    ensures
        (seq![x] + rest).contains(i) <==> (i == x || rest.contains(i)),
{
    let c = seq![x] + rest;
    if c.contains(i) {
        let k = choose|k: int| 0 <= k < c.len() && c[k] == i;
        if k > 0 {
            assert(rest[k - 1] == i);
        }
    }
    if i == x {
        assert(c[0] == i);
    }
    if rest.contains(i) {
        let k = choose|k: int| 0 <= k < rest.len() && rest[k] == i;
        assert(c[k + 1] == i);
    }
}

/// The sides of a split are valid subsets no longer than the subset itself.
pub proof fn lemma_split_within(d: Dataset, s: Seq<usize>, f: int, v: Seq<char>)
    requires
        valid_subset(d, s),
    ensures
        valid_subset(d, split_left(d, s, f, v)),
        valid_subset(d, split_right(d, s, f, v)),
        split_left(d, s, f, v).len() <= s.len(),
        split_right(d, s, f, v).len() <= s.len(),
{
    lemma_split_parts(d, s, f, v);
    let sl = split_left(d, s, f, v);
    let sr = split_right(d, s, f, v);
    assert forall|j: int| 0 <= j < sl.len() implies (#[trigger] sl[j]) < d.num_samples by {
        assert(sl.contains(sl[j]));
        assert(s.contains(sl[j]));
        let k = choose|k: int| 0 <= k < s.len() && s[k] == sl[j];
        assert(s[k] < d.num_samples);
    }
    assert forall|j: int| 0 <= j < sr.len() implies (#[trigger] sr[j]) < d.num_samples by {
        assert(sr.contains(sr[j]));
        assert(s.contains(sr[j]));
        let k = choose|k: int| 0 <= k < s.len() && s[k] == sr[j];
        assert(s[k] < d.num_samples);
    }
}

/// The two sides of any candidate split are disjoint and together cover
/// exactly the input subset.
pub proof fn lemma_split_disjoint_union(d: Dataset, s: Seq<usize>, f: int, v: Seq<char>)
    ensures
        forall|i: usize|
            !(#[trigger] split_left(d, s, f, v).contains(i) && split_right(
                d,
                s,
                f,
                v,
            ).contains(i)),
        forall|i: usize| #[trigger]
            s.contains(i) <==> (split_left(d, s, f, v).contains(i) || split_right(
                d,
                s,
                f,
                v,
            ).contains(i)),
        split_left(d, s, f, v).len() + split_right(d, s, f, v).len() == s.len(),
{
    lemma_split_parts(d, s, f, v);
}

/// A nonempty left side means the tested value occurs in the column.
pub proof fn lemma_left_nonempty_in_col(d: Dataset, s: Seq<usize>, f: int, v: Seq<char>)
    requires
        split_left(d, s, f, v).len() > 0,
    ensures
        col_values(d, s, f).contains(v),
{
    lemma_split_parts(d, s, f, v);
    let sl = split_left(d, s, f, v);
    assert(sl.contains(sl[0]));
    assert(s.contains(sl[0]));
    let k = choose|k: int| 0 <= k < s.len() && s[k] == sl[0];
    assert(col_values(d, s, f)[k] == v);
}

/// Transitivity of the cross-multiplied rational order with positive
/// denominators.
pub proof fn lemma_frac_le_trans(n1: int, d1: int, n2: int, d2: int, n3: int, d3: int)
    requires
        d1 > 0,
        d2 > 0,
        d3 > 0,
        n1 * d2 <= n2 * d1,
        n2 * d3 <= n3 * d2,
    ensures
        n1 * d3 <= n3 * d1,
{
    assert((n1 * d3) * d2 <= (n3 * d1) * d2) by (nonlinear_arith)
        requires
            d1 > 0,
            d2 > 0,
            d3 > 0,
            n1 * d2 <= n2 * d1,
            n2 * d3 <= n3 * d2,
    ;
    assert(n1 * d3 <= n3 * d1) by (nonlinear_arith)
        requires
            (n1 * d3) * d2 <= (n3 * d1) * d2,
            d2 > 0,
    ;
}

/// The weighted-impurity denominator of a usable split is positive.
pub proof fn lemma_w_den_pos(l: Seq<usize>, r: Seq<usize>)
    requires
        l.len() > 0,
        r.len() > 0,
    ensures
        w_den(l, r) > 0,
{
    let a = l.len() as int;
    let b = r.len() as int;
    assert((a + b) * a * b > 0) by (nonlinear_arith)
        requires
            a > 0,
            b > 0,
    ;
}

/// Bounded nonnegative factors give a bounded nonnegative product.
pub proof fn lemma_mul_le(a: int, x: int, b: int, y: int)
    requires
        0 <= a <= x,
        0 <= b <= y,
    ensures
        0 <= a * b <= x * y,
{
    assert(0 <= a * b <= x * y) by (nonlinear_arith)
        requires
            0 <= a <= x,
            0 <= b <= y,
    ;
}

/// Keep `cur` unless the candidate at `(f, v)` is usable and strictly
/// better (or no candidate is held yet): the greedy step of the search.
pub open spec fn step_best(
    d: Dataset,
    s: Seq<usize>,
    f: int,
    v: Seq<char>,
    cur: Option<SplitSpec>,
) -> Option<SplitSpec> {
    let c = candidate(d, s, f, v);
    if usable(c) && (match cur {
        None => true,
        Some(b) => strictly_better(d, c.left, c.right, b.left, b.right),
    }) {
        Some(c)
    } else {
        cur
    }
}

/// Fold the greedy step over the values of `vals` at column `f`.
pub open spec fn best_over_vals(
    d: Dataset,
    s: Seq<usize>,
    f: int,
    vals: Seq<Seq<char>>,
    cur: Option<SplitSpec>,
) -> Option<SplitSpec>
    decreases vals.len(),
{
    if vals.len() == 0 {
        cur
    } else {
        best_over_vals(d, s, f, vals.drop_first(), step_best(d, s, f, vals[0], cur))
    }
}

/// Fold the greedy scan over the columns from `f` upward, trying at each
/// column its distinct values in order of first occurrence in the subset.
pub open spec fn best_over_feats(d: Dataset, s: Seq<usize>, f: int, cur: Option<SplitSpec>) -> Option<
    SplitSpec,
>
    decreases d.num_features - f,
{
    if f < 0 || f >= d.num_features {
        cur
    } else {
        best_over_feats(
            d,
            s,
            f + 1,
            best_over_vals(d, s, f, distinct_of(col_values(d, s, f)), cur),
        )
    }
}

/// The split the exhaustive search selects: the first candidate of minimal
/// weighted impurity in scan order of columns, then first-seen values.
/// Nothing when the subset is empty or no candidate has two nonempty sides.
pub open spec fn best_split(d: Dataset, s: Seq<usize>) -> Option<SplitSpec> {
    if s.len() == 0 {
        None
    } else {
        best_over_feats(d, s, 0, None)
    }
}

/// A held candidate is an in-range, usable candidate split of `s`.
pub open spec fn good_cand(d: Dataset, s: Seq<usize>, c: SplitSpec) -> bool {
    &&& 0 <= c.feature < d.num_features
    &&& c.left == split_left(d, s, c.feature, c.value)
    &&& c.right == split_right(d, s, c.feature, c.value)
    &&& usable(c)
}

/// `good_cand` lifted to an optional candidate.
pub open spec fn good_opt(d: Dataset, s: Seq<usize>, o: Option<SplitSpec>) -> bool {
    match o {
        None => true,
        Some(c) => good_cand(d, s, c),
    }
}

/// The weighted impurity of `a` is at most that of `b`.
pub open spec fn le_cand(d: Dataset, a: SplitSpec, b: SplitSpec) -> bool {
    weighted_le(d, a.left, a.right, b.left, b.right)
}

/// Both options hold candidates and the first is at most the second.
pub open spec fn opt_le(d: Dataset, a: Option<SplitSpec>, b: Option<SplitSpec>) -> bool {
    match (a, b) {
        (Some(x), Some(y)) => le_cand(d, x, y),
        _ => false,
    }
}

/// `o` holds a candidate whose weighted impurity is at most that of `c`.
pub open spec fn dominates(d: Dataset, o: Option<SplitSpec>, c: SplitSpec) -> bool {
    match o {
        Some(b) => le_cand(d, b, c),
        None => false,
    }
}

/// Transitivity of `le_cand` over usable candidates.
proof fn lemma_le_cand_trans(d: Dataset, a: SplitSpec, b: SplitSpec, c: SplitSpec)
    requires
        usable(a),
        usable(b),
        usable(c),
        le_cand(d, a, b),
        le_cand(d, b, c),
    ensures
        le_cand(d, a, c),
{
    lemma_w_den_pos(a.left, a.right);
    lemma_w_den_pos(b.left, b.right);
    lemma_w_den_pos(c.left, c.right);
    lemma_frac_le_trans(
        w_num(d, a.left, a.right),
        w_den(a.left, a.right),
        w_num(d, b.left, b.right),
        w_den(b.left, b.right),
        w_num(d, c.left, c.right),
        w_den(c.left, c.right),
    );
}

/// The value fold keeps a good candidate, never worsens, returns nothing
/// only when given nothing, and dominates every usable candidate it scanned.
proof fn lemma_fold_vals(
    d: Dataset,
    s: Seq<usize>,
    f: int,
    vals: Seq<Seq<char>>,
    cur: Option<SplitSpec>,
)
    requires
        0 <= f < d.num_features,
        good_opt(d, s, cur),
    ensures
        good_opt(d, s, best_over_vals(d, s, f, vals, cur)),
        cur is Some ==> opt_le(d, best_over_vals(d, s, f, vals, cur), cur),
        best_over_vals(d, s, f, vals, cur) is None ==> cur is None,
        forall|j: int|
            0 <= j < vals.len() && usable(candidate(d, s, f, #[trigger] vals[j]))
                ==> dominates(d, best_over_vals(d, s, f, vals, cur), candidate(d, s, f, vals[j])),
    decreases vals.len(),
{
    if vals.len() > 0 {
        let c0 = candidate(d, s, f, vals[0]);
        let stepped = step_best(d, s, f, vals[0], cur);
        let res = best_over_vals(d, s, f, vals, cur);
        assert(res == best_over_vals(d, s, f, vals.drop_first(), stepped));
        assert(good_opt(d, s, stepped));
        lemma_fold_vals(d, s, f, vals.drop_first(), stepped);
        match cur {
            None => {},
            Some(b) => {
                if usable(c0) && strictly_better(d, c0.left, c0.right, b.left, b.right) {
                    assert(stepped == Some(c0));
                    assert(le_cand(d, c0, b));
                    match res {
                        Some(rb) => {
                            assert(le_cand(d, rb, c0));
                            lemma_le_cand_trans(d, rb, c0, b);
                        },
                        None => {
                            assert(false);
                        },
                    }
                } else {
                    assert(stepped == cur);
                }
            },
        }
        assert forall|j: int|
            0 <= j < vals.len() && usable(candidate(d, s, f, #[trigger] vals[j])) implies dominates(
            d,
            res,
            candidate(d, s, f, vals[j]),
        ) by {
            if j == 0 {
                match stepped {
                    Some(sb) => {
                        if sb == c0 {
                            assert(opt_le(d, res, stepped));
                        } else {
                            assert(stepped == cur);
                            match cur {
                                Some(b) => {
                                    assert(!strictly_better(
                                        d,
                                        c0.left,
                                        c0.right,
                                        b.left,
                                        b.right,
                                    ));
                                    assert(le_cand(d, b, c0));
                                    match res {
                                        Some(rb) => {
                                            assert(le_cand(d, rb, b));
                                            lemma_le_cand_trans(d, rb, b, c0);
                                        },
                                        None => {
                                            assert(false);
                                        },
                                    }
                                },
                                None => {
                                    assert(false);
                                },
                            }
                        }
                    },
                    None => {
                        assert(!usable(c0));
                    },
                }
            } else {
                assert(vals.drop_first()[j - 1] == vals[j]);
            }
        }
    }
}

/// The column fold keeps a good candidate, never worsens, returns nothing
/// only when given nothing, and dominates every usable candidate at any
/// column from `f` on.
proof fn lemma_fold_feats(d: Dataset, s: Seq<usize>, f: int, cur: Option<SplitSpec>)
    requires
        0 <= f <= d.num_features,
        good_opt(d, s, cur),
    ensures
        good_opt(d, s, best_over_feats(d, s, f, cur)),
        cur is Some ==> opt_le(d, best_over_feats(d, s, f, cur), cur),
        best_over_feats(d, s, f, cur) is None ==> cur is None,
        forall|f2: int, v: Seq<char>|
            f <= f2 < d.num_features && usable(#[trigger] candidate(d, s, f2, v)) ==> dominates(
                d,
                best_over_feats(d, s, f, cur),
                candidate(d, s, f2, v),
            ),
    decreases d.num_features - f,
{
    if f < d.num_features {
        let vals = distinct_of(col_values(d, s, f));
        let mid = best_over_vals(d, s, f, vals, cur);
        lemma_fold_vals(d, s, f, vals, cur);
        lemma_fold_feats(d, s, f + 1, mid);
        let res = best_over_feats(d, s, f, cur);
        assert(res == best_over_feats(d, s, f + 1, mid));
        match cur {
            Some(b) => {
                match (res, mid) {
                    (Some(rb), Some(mb)) => {
                        lemma_le_cand_trans(d, rb, mb, b);
                    },
                    _ => {
                        assert(false);
                    },
                }
            },
            None => {},
        }
        assert forall|f2: int, v: Seq<char>|
            f <= f2 < d.num_features && usable(#[trigger] candidate(d, s, f2, v)) implies dominates(
            d,
            res,
            candidate(d, s, f2, v),
        ) by {
            if f2 == f {
                lemma_distinct_of_props(col_values(d, s, f));
                lemma_left_nonempty_in_col(d, s, f, v);
                assert(vals.contains(v));
                let j = choose|j: int| 0 <= j < vals.len() && vals[j] == v;
                assert(dominates(d, mid, candidate(d, s, f, vals[j])));
                match (res, mid) {
                    (Some(rb), Some(mb)) => {
                        lemma_le_cand_trans(d, rb, mb, candidate(d, s, f2, v));
                    },
                    _ => {
                        assert(false);
                    },
                }
            }
        }
    }
}

/// Validity and optimality of the selected split: a returned split is a
/// usable in-range candidate whose weighted impurity is at most that of
/// every usable candidate; nothing is returned exactly when no usable
/// candidate exists.
pub proof fn lemma_best_split_props(d: Dataset, s: Seq<usize>)
    ensures
        match best_split(d, s) {
            Some(c) => good_cand(d, s, c) && forall|f: int, v: Seq<char>|
                0 <= f < d.num_features && usable(#[trigger] candidate(d, s, f, v))
                    ==> weighted_le(
                    d,
                    c.left,
                    c.right,
                    candidate(d, s, f, v).left,
                    candidate(d, s, f, v).right,
                ),
            None => forall|f: int, v: Seq<char>|
                0 <= f < d.num_features ==> !usable(#[trigger] candidate(d, s, f, v)),
        },
{
    if s.len() == 0 {
        assert forall|f: int, v: Seq<char>| 0 <= f < d.num_features implies !usable(
            #[trigger] candidate(d, s, f, v),
        ) by {
            lemma_split_parts(d, s, f, v);
        }
    } else {
        lemma_fold_feats(d, s, 0, None);
        match best_split(d, s) {
            Some(c) => {
                assert forall|f: int, v: Seq<char>|
                    0 <= f < d.num_features && usable(#[trigger] candidate(d, s, f, v)) implies
                    weighted_le(
                    d,
                    c.left,
                    c.right,
                    candidate(d, s, f, v).left,
                    candidate(d, s, f, v).right,
                ) by {
                    assert(dominates(d, best_split(d, s), candidate(d, s, f, v)));
                }
            },
            None => {
                assert forall|f: int, v: Seq<char>| 0 <= f < d.num_features implies !usable(
                    #[trigger] candidate(d, s, f, v),
                ) by {
                    if usable(candidate(d, s, f, v)) {
                        assert(dominates(d, best_split(d, s), candidate(d, s, f, v)));
                    }
                }
            },
        }
    }
}

/// The candidate a returned tuple stands for.
pub open spec fn split_of(t: (usize, String, Vec<usize>, Vec<usize>)) -> SplitSpec {
    SplitSpec { feature: t.0 as int, value: t.1@, left: t.2@, right: t.3@ }
}

/// The candidate an optional returned tuple stands for.
pub open spec fn opt_split_of(o: Option<(usize, String, Vec<usize>, Vec<usize>)>) -> Option<
    SplitSpec,
> {
    match o {
        None => None,
        Some(t) => Some(split_of(t)),
    }
}

/// Search every (column, value) pair for the usable equality split of
/// minimal weighted Gini impurity. Returns the split column, the value
/// tested, and the two sides of the partition in subset order; ties keep
/// the earliest candidate in scan order. Returns nothing exactly when no
/// candidate has two nonempty sides (in particular for an empty subset).
pub fn find_best_split(dataset: &Dataset, row_indices: &Vec<usize>) -> (r: Option<
    (usize, String, Vec<usize>, Vec<usize>),
>)
    requires
        dataset.wf(),
        valid_subset(*dataset, row_indices@),
        row_indices@.len() <= MAX_ROWS,
    ensures
        opt_split_of(r) == best_split(*dataset, row_indices@),
        (r is Some) <==> (exists|f: int, v: Seq<char>|
            0 <= f < dataset.num_features && usable(
                #[trigger] candidate(*dataset, row_indices@, f, v),
            )),
        match r {
            None => true,
            Some(t) => good_cand(*dataset, row_indices@, split_of(t)) && forall|
                f: int,
                v: Seq<char>,
            |
                0 <= f < dataset.num_features && usable(
                    #[trigger] candidate(*dataset, row_indices@, f, v),
                ) ==> weighted_le(
                    *dataset,
                    t.2@,
                    t.3@,
                    candidate(*dataset, row_indices@, f, v).left,
                    candidate(*dataset, row_indices@, f, v).right,
                ),
        },
{
    let ghost s = row_indices@;
    if row_indices.len() == 0 {
        proof {
            assert forall|f: int, v: Seq<char>| 0 <= f < dataset.num_features implies !usable(
                #[trigger] candidate(*dataset, s, f, v),
            ) by {
                lemma_split_parts(*dataset, s, f, v);
            }
        }
        return None;
    }
    let mut best: Option<(usize, String, Vec<usize>, Vec<usize>)> = None;
    let mut fi: usize = 0;
    while fi < dataset.num_features
        invariant
            dataset.wf(),
            valid_subset(*dataset, s),
            s.len() <= MAX_ROWS,
            s == row_indices@,
            s.len() > 0,
            fi <= dataset.num_features,
            good_opt(*dataset, s, opt_split_of(best)),
            best_over_feats(*dataset, s, 0, None) == best_over_feats(
                *dataset,
                s,
                fi as int,
                opt_split_of(best),
            ),
        decreases dataset.num_features - fi,
    {
        let col = collect_col(dataset, row_indices, fi);
        let vals = distinct_values(&col);
        let ghost ls = distinct_of(col_values(*dataset, s, fi as int));
        proof {
            assert(views_of(vals@) == ls);
            assert(ls.skip(0) =~= ls);
        }
        let mut j: usize = 0;
        while j < vals.len()
            invariant
                dataset.wf(),
                valid_subset(*dataset, s),
                s.len() <= MAX_ROWS,
                s == row_indices@,
                s.len() > 0,
                fi < dataset.num_features,
                j <= vals@.len(),
                views_of(vals@) == ls,
                ls == distinct_of(col_values(*dataset, s, fi as int)),
                good_opt(*dataset, s, opt_split_of(best)),
                best_over_feats(*dataset, s, 0, None) == best_over_feats(
                    *dataset,
                    s,
                    fi as int + 1,
                    best_over_vals(*dataset, s, fi as int, ls.skip(j as int), opt_split_of(best)),
                ),
            decreases vals@.len() - j,
        {
            proof {
                assert(ls.skip(j as int)[0] == ls[j as int]);
                assert(ls.skip(j as int).drop_first() =~= ls.skip(j as int + 1));
                assert(views_of(vals@)[j as int] == vals@[j as int]@);
            }
            let ghost cur = opt_split_of(best);
            let ghost c0 = candidate(*dataset, s, fi as int, ls[j as int]);
            let (left_rows, right_rows) = partition_rows(dataset, row_indices, fi, &vals[j]);
            proof {
                lemma_split_within(*dataset, s, fi as int, ls[j as int]);
            }
            if left_rows.len() > 0 && right_rows.len() > 0 {
                let replace = match &best {
                    None => true,
                    Some(t) => {
                        proof {
                            let b = split_of(*t);
                            lemma_split_within(*dataset, s, b.feature, b.value);
                        }
                        better_split(dataset, &left_rows, &right_rows, &t.2, &t.3)
                    },
                };
                if replace {
                    let tup = (fi, vals[j].clone(), left_rows, right_rows);
                    proof {
                        assert(split_of(tup) == c0);
                    }
                    best = Some(tup);
                    proof {
                        assert(opt_split_of(best) == step_best(
                            *dataset,
                            s,
                            fi as int,
                            ls[j as int],
                            cur,
                        ));
                    }
                } else {
                    proof {
                        assert(opt_split_of(best) == step_best(
                            *dataset,
                            s,
                            fi as int,
                            ls[j as int],
                            cur,
                        ));
                    }
                }
            } else {
                proof {
                    assert(!usable(c0));
                    assert(opt_split_of(best) == step_best(
                        *dataset,
                        s,
                        fi as int,
                        ls[j as int],
                        cur,
                    ));
                }
            }
            j += 1;
        }
        proof {
            assert(ls.skip(vals@.len() as int) =~= Seq::<Seq<char>>::empty());
        }
        fi += 1;
    }
    proof {
        assert(best_split(*dataset, s) == opt_split_of(best));
        lemma_best_split_props(*dataset, s);
        match &best {
            Some(t) => {
                let c = split_of(*t);
                assert(candidate(*dataset, s, c.feature, c.value) == c);
                assert(0 <= c.feature < dataset.num_features && usable(
                    candidate(*dataset, s, c.feature, c.value),
                ));
            },
            None => {},
        }
    }
    best
}

/// Collect clones of column `f` of the rows selected by `s`.
fn collect_col(dataset: &Dataset, s: &Vec<usize>, f: usize) -> (out: Vec<String>)
    requires
        dataset.wf(),
        valid_subset(*dataset, s@),
        f < dataset.num_features,
    ensures
        views_of(out@) == col_values(*dataset, s@, f as int),
{
    let mut out: Vec<String> = Vec::new();
    let mut j: usize = 0;
    while j < s.len()
        invariant
            dataset.wf(),
            valid_subset(*dataset, s@),
            f < dataset.num_features,
            j <= s@.len(),
            out@.len() == j,
            forall|k: int|
                0 <= k < j ==> (#[trigger] out@[k])@ == dataset.feat(s@[k] as int, f as int),
        decreases s@.len() - j,
    {
        let idx = s[j];
        out.push(dataset.features[idx][f].clone());
        j += 1;
    }
    proof {
        assert(views_of(out@) =~= col_values(*dataset, s@, f as int));
    }
    out
}

/// Partition the subset by an equality test on column `f` against `v`,
/// keeping subset order on both sides.
fn partition_rows(dataset: &Dataset, s: &Vec<usize>, f: usize, v: &String) -> (lr: (
    Vec<usize>,
    Vec<usize>,
))
    requires
        dataset.wf(),
        valid_subset(*dataset, s@),
        f < dataset.num_features,
    ensures
        lr.0@ == split_left(*dataset, s@, f as int, v@),
        lr.1@ == split_right(*dataset, s@, f as int, v@),
{
    let mut left: Vec<usize> = Vec::new();
    let mut right: Vec<usize> = Vec::new();
    let mut j: usize = 0;
    proof {
        assert(s@.skip(0) =~= s@);
        assert(left@ =~= Seq::<usize>::empty());
        assert(right@ =~= Seq::<usize>::empty());
    }
    while j < s.len()
        invariant
            dataset.wf(),
            valid_subset(*dataset, s@),
            f < dataset.num_features,
            j <= s@.len(),
            split_left(*dataset, s@, f as int, v@) == left@ + split_left(
                *dataset,
                s@.skip(j as int),
                f as int,
                v@,
            ),
            split_right(*dataset, s@, f as int, v@) == right@ + split_right(
                *dataset,
                s@.skip(j as int),
                f as int,
                v@,
            ),
        decreases s@.len() - j,
    {
        proof {
            assert(s@.skip(j as int)[0] == s@[j as int]);
            assert(s@.skip(j as int).drop_first() =~= s@.skip(j as int + 1));
        }
        let idx = s[j];
        let ghost lsuffix = split_left(*dataset, s@.skip(j as int + 1), f as int, v@);
        let ghost rsuffix = split_right(*dataset, s@.skip(j as int + 1), f as int, v@);
        if dataset.features[idx][f] == *v {
            let ghost before = left@;
            left.push(idx);
            proof {
                assert(left@ =~= before + seq![idx]);
                assert((before + seq![idx]) + lsuffix =~= before + (seq![idx] + lsuffix));
            }
        } else {
            let ghost before = right@;
            right.push(idx);
            proof {
                assert(right@ =~= before + seq![idx]);
                assert((before + seq![idx]) + rsuffix =~= before + (seq![idx] + rsuffix));
            }
        }
        j += 1;
    }
    proof {
        assert(s@.skip(j as int) =~= Seq::<usize>::empty());
        assert(left@ + Seq::<usize>::empty() =~= left@);
        assert(right@ + Seq::<usize>::empty() =~= right@);
    }
    (left, right)
}

/// Whether the partition `(l1, r1)` has strictly smaller weighted impurity
/// than `(l2, r2)`, decided by exact cross-multiplication in `u128`.
fn better_split(
    dataset: &Dataset,
    l1: &Vec<usize>,
    r1: &Vec<usize>,
    l2: &Vec<usize>,
    r2: &Vec<usize>,
) -> (b: bool)
    requires
        dataset.wf(),
        valid_subset(*dataset, l1@),
        valid_subset(*dataset, r1@),
        valid_subset(*dataset, l2@),
        valid_subset(*dataset, r2@),
        l1@.len() <= MAX_ROWS,
        r1@.len() <= MAX_ROWS,
        l2@.len() <= MAX_ROWS,
        r2@.len() <= MAX_ROWS,
    ensures
        b == strictly_better(*dataset, l1@, r1@, l2@, r2@),
{
    let (wn1, wd1) = weighted_parts(dataset, l1, r1);
    let (wn2, wd2) = weighted_parts(dataset, l2, r2);
    proof {
        assert(MAX_ROWS == 1048576);
        lemma_mul_le(wn1 as int, 0x2000000000000000int, wd2 as int, 0x2000000000000000int);
        lemma_mul_le(wn2 as int, 0x2000000000000000int, wd1 as int, 0x2000000000000000int);
    }
    wn1 * wd2 < wn2 * wd1
}

/// Numerator and denominator of the weighted impurity of `(l, r)`.
fn weighted_parts(dataset: &Dataset, l: &Vec<usize>, r: &Vec<usize>) -> (p: (u128, u128))
    requires
        dataset.wf(),
        valid_subset(*dataset, l@),
        valid_subset(*dataset, r@),
        l@.len() <= MAX_ROWS,
        r@.len() <= MAX_ROWS,
    ensures
        p.0 as int == w_num(*dataset, l@, r@),
        p.1 as int == w_den(l@, r@),
        p.0 <= 0x2000000000000000u128,
        p.1 <= 0x2000000000000000u128,
{
    let gl = gini_impurity(dataset, l).0;
    let gr = gini_impurity(dataset, r).0;
    let ll = l.len() as u128;
    let rl = r.len() as u128;
    proof {
        assert(MAX_ROWS == 1048576);
        lemma_gini_bounds(*dataset, l@);
        lemma_gini_bounds(*dataset, r@);
        assert(gini_den(l@) <= 0x10000000000int) by (nonlinear_arith)
            requires
                gini_den(l@) == if l@.len() == 0 {
                    1int
                } else {
                    l@.len() as int * l@.len() as int
                },
                l@.len() <= 1048576,
        ;
        assert(gini_den(r@) <= 0x10000000000int) by (nonlinear_arith)
            requires
                gini_den(r@) == if r@.len() == 0 {
                    1int
                } else {
                    r@.len() as int * r@.len() as int
                },
                r@.len() <= 1048576,
        ;
        lemma_mul_le(gl as int, 0x10000000000int, rl as int, 0x100000int);
        lemma_mul_le(gr as int, 0x10000000000int, ll as int, 0x100000int);
        lemma_mul_le(ll as int + rl as int, 0x200000int, ll as int, 0x100000int);
        lemma_mul_le((ll as int + rl as int) * ll as int, 0x20000000000int, rl as int, 0x100000int);
    }
    let wn = gl as u128 * rl + gr as u128 * ll;
    let wd = (ll + rl) * ll * rl;
    (wn, wd)
}

} // verus!
