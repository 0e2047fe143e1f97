//! Impurity engine: Gini impurity, unanimity check and majority vote over a
//! row-index subset. Impurities are exact rationals `(numerator,
//! denominator)` rather than floating-point approximations: for a subset of
//! `n` rows with class counts `c_1..c_k`, the Gini impurity `1 - sum((c/n)^2)`
//! is represented as `(n^2 - sum(c^2)) / n^2`.

use vstd::prelude::*;

use crate::counts::count_val;
use crate::counts::distinct_of;
use crate::counts::lemma_count_bounds;
use crate::counts::lemma_count_pos_iff_contains;
use crate::counts::lemma_cauchy_schwarz;
use crate::counts::lemma_distinct_of_props;
use crate::counts::lemma_subset_sum_sq_bounds;
use crate::counts::lemma_sum_counts_le;
use crate::counts::lemma_sum_sq_nonneg;
use crate::counts::sum_sq_counts;
use crate::dataset::Dataset;
use crate::dataset::MAX_ROWS;
use crate::dataset::valid_subset;
use crate::dataset::views_of;

verus! {

/// The labels of the rows selected by `s`, in subset order.
pub open spec fn subset_labels(d: Dataset, s: Seq<usize>) -> Seq<Seq<char>> {
    s.map_values(|i: usize| d.target(i as int))
}

/// Sum of the squared class counts of the subset.
pub open spec fn subset_sum_sq(d: Dataset, s: Seq<usize>) -> int {
    sum_sq_counts(subset_labels(d, s), distinct_of(subset_labels(d, s)))
}

/// Numerator of the Gini impurity of the subset: `n^2 - sum(c^2)`.
/// Zero for an empty subset, so the impurity is zero there by convention.
pub open spec fn gini_num(d: Dataset, s: Seq<usize>) -> int {
    s.len() as int * s.len() as int - subset_sum_sq(d, s)
}

/// Denominator of the Gini impurity of the subset: `n^2`, or one for an
/// empty subset so that the rational stays well-formed.
pub open spec fn gini_den(s: Seq<usize>) -> int {
    if s.len() == 0 {
        1
    } else {
        s.len() as int * s.len() as int
    }
}

/// Number of distinct labels occurring in the subset.
pub open spec fn num_classes(d: Dataset, s: Seq<usize>) -> int {
    distinct_of(subset_labels(d, s)).len() as int
}

/// Every row of the subset carries the same label as its first row.
/// Vacuously true for an empty subset.
pub open spec fn all_same_spec(d: Dataset, s: Seq<usize>) -> bool {
    forall|j: int|
        0 <= j < s.len() ==> d.target((#[trigger] s[j]) as int) == d.target(s[0] as int)
}

/// Scan `ls` keeping the value whose count strictly exceeds the best so far;
/// earlier values win ties. Returns the winner and its count.
pub open spec fn best_label_from(
    xs: Seq<Seq<char>>,
    ls: Seq<Seq<char>>,
    best: Seq<char>,
    best_count: int,
) -> (Seq<char>, int)
    decreases ls.len(),
{
    if ls.len() == 0 {
        (best, best_count)
    } else {
        if count_val(xs, ls[0]) > best_count {
            best_label_from(xs, ls.drop_first(), ls[0], count_val(xs, ls[0]))
        } else {
            best_label_from(xs, ls.drop_first(), best, best_count)
        }
    }
}

/// The majority label of a label sequence: the first distinct value of
/// maximal count, or the empty label for an empty sequence.
pub open spec fn majority_label(xs: Seq<Seq<char>>) -> Seq<char> {
    best_label_from(xs, distinct_of(xs), Seq::empty(), 0).0
}

/// The majority label of the rows selected by `s`.
pub open spec fn majority_of(d: Dataset, s: Seq<usize>) -> Seq<char> {
    majority_label(subset_labels(d, s))
}

/// The scan of `best_label_from` never lowers the best count, returns either
/// the start pair or a listed value with its true count, and dominates the
/// count of every listed value.
pub proof fn lemma_best_label_from_props(
    xs: Seq<Seq<char>>,
    ls: Seq<Seq<char>>,
    best: Seq<char>,
    best_count: int,
)
    ensures
        best_label_from(xs, ls, best, best_count).1 >= best_count,
        (best_label_from(xs, ls, best, best_count) == (best, best_count)) || (ls.contains(
            best_label_from(xs, ls, best, best_count).0,
        ) && best_label_from(xs, ls, best, best_count).1 == count_val(
            xs,
            best_label_from(xs, ls, best, best_count).0,
        )),
        forall|j: int|
            0 <= j < ls.len() ==> count_val(xs, #[trigger] ls[j]) <= best_label_from(
                xs,
                ls,
                best,
                best_count,
            ).1,
    decreases ls.len(),
{
    if ls.len() > 0 {
        let c0 = count_val(xs, ls[0]);
        if c0 > best_count {
            lemma_best_label_from_props(xs, ls.drop_first(), ls[0], c0);
        } else {
            lemma_best_label_from_props(xs, ls.drop_first(), best, best_count);
        }
        assert forall|j: int| 0 <= j < ls.len() implies count_val(xs, #[trigger] ls[j])
            <= best_label_from(xs, ls, best, best_count).1 by {
            if j > 0 {
                assert(ls.drop_first()[j - 1] == ls[j]);
            }
        }
        let r = best_label_from(xs, ls, best, best_count);
        if r != (best, best_count) {
            if !(r == (ls[0], c0) && c0 > best_count) {
                let tail = ls.drop_first();
                if tail.contains(r.0) {
                    let k = choose|k: int| 0 <= k < tail.len() && tail[k] == r.0;
                    assert(ls[k + 1] == r.0);
                }
            }
        }
    }
}

/// For a nonempty label sequence the majority label occurs in it and has a
/// count at least that of every label in the sequence.
pub proof fn lemma_majority_props(xs: Seq<Seq<char>>)
    requires
        xs.len() > 0,
    ensures
        xs.contains(majority_label(xs)),
        forall|j: int|
            0 <= j < xs.len() ==> count_val(xs, #[trigger] xs[j]) <= count_val(
                xs,
                majority_label(xs),
            ),
{
    let ls = distinct_of(xs);
    lemma_distinct_of_props(xs);
    lemma_best_label_from_props(xs, ls, Seq::empty(), 0);
    let r = best_label_from(xs, ls, Seq::empty(), 0);
    assert(xs.contains(xs[0]));
    assert(ls.contains(xs[0]));
    let k0 = choose|k: int| 0 <= k < ls.len() && ls[k] == xs[0];
    lemma_count_pos_iff_contains(xs, xs[0]);
    assert(count_val(xs, ls[k0]) >= 1);
    assert(r.1 >= 1);
    assert(ls.contains(r.0) && r.1 == count_val(xs, r.0));
    assert(xs.contains(majority_label(xs)));
    assert forall|j: int| 0 <= j < xs.len() implies count_val(xs, #[trigger] xs[j])
        <= count_val(xs, majority_label(xs)) by {
        assert(xs.contains(xs[j]));
        assert(ls.contains(xs[j]));
        let k = choose|k: int| 0 <= k < ls.len() && ls[k] == xs[j];
        assert(count_val(xs, ls[k]) <= r.1);
    }
}

/// On a nonempty subset with unanimous labels the majority vote returns
/// that unanimous label, so a leaf grown there carries it.
pub proof fn lemma_unanimous_label(d: Dataset, s: Seq<usize>)
    requires
        all_same_spec(d, s),
        s.len() > 0,
    ensures
        majority_of(d, s) == d.target(s[0] as int),
{
    let xs = subset_labels(d, s);
    lemma_majority_props(xs);
    let j = choose|j: int| 0 <= j < xs.len() && xs[j] == majority_label(xs);
    assert(xs[j] == d.target(s[j] as int));
    assert(d.target(s[j] as int) == d.target(s[0] as int));
}

/// Gini bounds: the impurity is between zero and `1 - 1/k` for `k` observed
/// classes, it is zero exactly on pure or empty subsets, and it never
/// exceeds one.
pub proof fn lemma_gini_bounds(d: Dataset, s: Seq<usize>)
    ensures
        0 <= gini_num(d, s),
        gini_num(d, s) <= gini_den(s),
        s.len() > 0 ==> gini_num(d, s) * num_classes(d, s) <= (num_classes(d, s) - 1)
            * gini_den(s),
        s.len() == 0 ==> gini_num(d, s) == 0,
        s.len() > 0 && num_classes(d, s) == 1 ==> gini_num(d, s) == 0,
{
    let xs = subset_labels(d, s);
    let ls = distinct_of(xs);
    let n = s.len() as int;
    let ssq = sum_sq_counts(xs, ls);
    let k = ls.len() as int;
    assert(xs.len() == n);
    lemma_subset_sum_sq_bounds(xs);
    lemma_distinct_of_props(xs);
    lemma_sum_counts_le(xs, ls);
    lemma_cauchy_schwarz(xs, ls);
    assert(crate::counts::sum_counts(xs, ls) == n);
    assert(n * n <= k * ssq);
    if s.len() > 0 {
        assert((n * n - ssq) * k <= (k - 1) * (n * n)) by (nonlinear_arith)
            requires
                n * n <= k * ssq,
        ;
        if k == 1 {
            assert(gini_num(d, s) * 1 <= 0 * gini_den(s));
            assert(gini_num(d, s) == gini_num(d, s) * 1) by (nonlinear_arith);
            assert(0 * gini_den(s) == 0) by (nonlinear_arith);
        }
    }
}

/// Collect clones of the labels of the rows selected by `s`.
fn collect_labels(dataset: &Dataset, s: &Vec<usize>) -> (out: Vec<String>)
    requires
        dataset.wf(),
        valid_subset(*dataset, s@),
    ensures
        views_of(out@) == subset_labels(*dataset, s@),
        out@.len() == s@.len(),
{
    let mut out: Vec<String> = Vec::new();
    let mut j: usize = 0;
    while j < s.len()
        invariant
            dataset.wf(),
            valid_subset(*dataset, s@),
            j <= s@.len(),
            out@.len() == j,
            forall|k: int|
                0 <= k < j ==> (#[trigger] out@[k])@ == dataset.target(s@[k] as int),
        decreases s@.len() - j,
    {
        let idx = s[j];
        out.push(dataset.targets[idx].clone());
        j += 1;
    }
    proof {
        assert(views_of(out@) =~= subset_labels(*dataset, s@));
    }
    out
}

/// Whether some entry of `xs` equals `v`.
fn contains_value(xs: &Vec<String>, v: &String) -> (b: bool)
    ensures
        b == views_of(xs@).contains(v@),
{
    let mut j: usize = 0;
    while j < xs.len()
        invariant
            j <= xs@.len(),
            forall|k: int| 0 <= k < j ==> views_of(xs@)[k] != v@,
        decreases xs@.len() - j,
    {
        if xs[j] == *v {
            proof {
                assert(views_of(xs@)[j as int] == v@);
            }
            return true;
        }
        j += 1;
    }
    false
}

/// How many entries of `xs` equal `v`.
fn count_value(xs: &Vec<String>, v: &String) -> (c: usize)
    ensures
        c as int == count_val(views_of(xs@), v@),
        c <= xs@.len(),
{
    let ghost vs = views_of(xs@);
    let mut c: usize = 0;
    let mut j: usize = 0;
    proof {
        assert(vs.skip(0) =~= vs);
    }
    while j < xs.len()
        invariant
            j <= xs@.len(),
            c <= j,
            vs == views_of(xs@),
            c as int + count_val(vs.skip(j as int), v@) == count_val(vs, v@),
        decreases xs@.len() - j,
    {
        proof {
            assert(vs.skip(j as int)[0] == vs[j as int]);
            assert(vs.skip(j as int).drop_first() =~= vs.skip(j as int + 1));
        }
        if xs[j] == *v {
            c += 1;
        }
        j += 1;
    }
    proof {
        assert(vs.skip(j as int) =~= Seq::<Seq<char>>::empty());
        lemma_count_bounds(vs, v@);
    }
    c
}

/// The distinct values of `xs`, keeping the first occurrence of each.
pub(crate) fn distinct_values(xs: &Vec<String>) -> (out: Vec<String>)
    ensures
        views_of(out@) == distinct_of(views_of(xs@)),
{
    let ghost vs = views_of(xs@);
    let mut out: Vec<String> = Vec::new();
    let mut j: usize = 0;
    proof {
        assert(vs.skip(0) =~= vs);
        assert(views_of(out@) =~= Seq::<Seq<char>>::empty());
    }
    while j < xs.len()
        invariant
            j <= xs@.len(),
            vs == views_of(xs@),
            distinct_of(vs) == crate::counts::distinct_from(vs.skip(j as int), views_of(out@)),
        decreases xs@.len() - j,
    {
        proof {
            assert(vs.skip(j as int)[0] == vs[j as int]);
            assert(vs.skip(j as int).drop_first() =~= vs.skip(j as int + 1));
        }
        let seen = contains_value(&out, &xs[j]);
        if !seen {
            let ghost before = views_of(out@);
            out.push(xs[j].clone());
            proof {
                assert(views_of(out@) =~= before.push(vs[j as int]));
            }
        }
        j += 1;
    }
    proof {
        assert(vs.skip(j as int) =~= Seq::<Seq<char>>::empty());
    }
    out
}

/// Sum of the squared counts of the distinct values of `xs`.
fn sum_sq_of(xs: &Vec<String>) -> (ssq: u64)
    requires
        xs@.len() <= MAX_ROWS,
    ensures
        ssq as int == sum_sq_counts(views_of(xs@), distinct_of(views_of(xs@))),
{
    let ghost vs = views_of(xs@);
    let ghost ls = distinct_of(vs);
    let dv = distinct_values(xs);
    let mut acc: u64 = 0;
    let mut j: usize = 0;
    proof {
        assert(ls.skip(0) =~= ls);
        lemma_subset_sum_sq_bounds(vs);
    }
    while j < dv.len()
        invariant
            j <= dv@.len(),
            vs == views_of(xs@),
            ls == distinct_of(vs),
            views_of(dv@) == ls,
            xs@.len() <= MAX_ROWS,
            acc as int + sum_sq_counts(vs, ls.skip(j as int)) == sum_sq_counts(vs, ls),
            sum_sq_counts(vs, ls) <= vs.len() * vs.len(),
            vs.len() <= MAX_ROWS,
            acc as int <= sum_sq_counts(vs, ls),
        decreases dv@.len() - j,
    {
        proof {
            assert(ls.skip(j as int)[0] == ls[j as int]);
            assert(ls.skip(j as int).drop_first() =~= ls.skip(j as int + 1));
            assert(views_of(dv@)[j as int] == dv@[j as int]@);
        }
        let c = count_value(xs, &dv[j]);
        let c64 = c as u64;
        proof {
            assert(c64 * c64 <= (MAX_ROWS as u64) * (MAX_ROWS as u64)) by (nonlinear_arith)
                requires
                    0 <= c64 <= MAX_ROWS as u64,
            ;
            lemma_sum_sq_nonneg(vs, ls.skip(j as int + 1));
            assert(vs.len() * vs.len() <= (MAX_ROWS as int) * (MAX_ROWS as int))
                by (nonlinear_arith)
                requires
                    0 <= vs.len() <= MAX_ROWS as int,
            ;
        }
        acc = acc + c64 * c64;
        j += 1;
    }
    proof {
        assert(ls.skip(j as int) =~= Seq::<Seq<char>>::empty());
    }
    acc
}

/// Gini impurity of the rows selected by `row_indices`, as an exact rational
/// `(numerator, denominator)`: `(n^2 - sum(c^2), n^2)` over the class counts
/// `c`, and `(0, 1)` for an empty subset.
pub fn gini_impurity(dataset: &Dataset, row_indices: &Vec<usize>) -> (r: (u64, u64))
    requires
        dataset.wf(),
        valid_subset(*dataset, row_indices@),
        row_indices@.len() <= MAX_ROWS,
    ensures
        r.0 as int == gini_num(*dataset, row_indices@),
        r.1 as int == gini_den(row_indices@),
        r.0 <= r.1,
{
    let n = row_indices.len();
    if n == 0 {
        return (0, 1);
    }
    let labels = collect_labels(dataset, row_indices);
    let ssq = sum_sq_of(&labels);
    let n64 = n as u64;
    proof {
        assert(MAX_ROWS == 1048576);
        assert(n64 as int * n64 as int <= 0x10000000000int) by (nonlinear_arith)
            requires
                0 <= n64 as int <= 1048576int,
        ;
        lemma_subset_sum_sq_bounds(views_of(labels@));
    }
    let nn = n64 * n64;
    (nn - ssq, nn)
}

/// Whether all rows selected by `row_indices` share one label; vacuously
/// true for an empty subset.
pub fn all_same_class(dataset: &Dataset, row_indices: &Vec<usize>) -> (r: bool)
    requires
        dataset.wf(),
        valid_subset(*dataset, row_indices@),
    ensures
        r == all_same_spec(*dataset, row_indices@),
{
    if row_indices.len() == 0 {
        return true;
    }
    let first_idx = row_indices[0];
    let mut j: usize = 1;
    while j < row_indices.len()
        invariant
            dataset.wf(),
            valid_subset(*dataset, row_indices@),
            1 <= j <= row_indices@.len(),
            first_idx == row_indices@[0],
            first_idx < dataset.num_samples,
            forall|k: int|
                0 <= k < j ==> dataset.target((#[trigger] row_indices@[k]) as int)
                    == dataset.target(row_indices@[0] as int),
        decreases row_indices@.len() - j,
    {
        let idx = row_indices[j];
        if !(dataset.targets[idx] == dataset.targets[first_idx]) {
            proof {
                assert(dataset.target((row_indices@[j as int]) as int) != dataset.target(
                    (row_indices@[0]) as int,
                ));
            }
            return false;
        }
        j += 1;
    }
    true
}

/// The most frequent label among the rows selected by `row_indices`; ties go
/// to the label seen first in subset order. Returns the empty string for an
/// empty subset.
pub fn majority_class(dataset: &Dataset, row_indices: &Vec<usize>) -> (r: String)
    requires
        dataset.wf(),
        valid_subset(*dataset, row_indices@),
    ensures
        r@ == majority_of(*dataset, row_indices@),
        row_indices@.len() > 0 ==> subset_labels(*dataset, row_indices@).contains(r@),
        forall|j: int|
            0 <= j < row_indices@.len() ==> count_val(
                subset_labels(*dataset, row_indices@),
                #[trigger] subset_labels(*dataset, row_indices@)[j],
            ) <= count_val(subset_labels(*dataset, row_indices@), r@),
{
    let labels = collect_labels(dataset, row_indices);
    let ghost vs = views_of(labels@);
    let ghost ls = distinct_of(vs);
    let dv = distinct_values(&labels);
    let mut best: String = String::new();
    let mut best_count: usize = 0;
    let mut j: usize = 0;
    proof {
        assert(ls.skip(0) =~= ls);
    }
    while j < dv.len()
        invariant
            j <= dv@.len(),
            vs == views_of(labels@),
            ls == distinct_of(vs),
            views_of(dv@) == ls,
            labels@.len() <= vs.len() + 1,
            best_label_from(vs, ls, Seq::empty(), 0) == best_label_from(
                vs,
                ls.skip(j as int),
                best@,
                best_count as int,
            ),
        decreases dv@.len() - j,
    {
        proof {
            assert(ls.skip(j as int)[0] == ls[j as int]);
            assert(ls.skip(j as int).drop_first() =~= ls.skip(j as int + 1));
            assert(views_of(dv@)[j as int] == dv@[j as int]@);
        }
        let c = count_value(&labels, &dv[j]);
        if c > best_count {
            best = dv[j].clone();
            best_count = c;
        }
        j += 1;
    }
    proof {
        assert(ls.skip(j as int) =~= Seq::<Seq<char>>::empty());
        assert(majority_label(vs) == best@);
        if row_indices@.len() > 0 {
            lemma_majority_props(vs);
        }
    }
    best
}

} // verus!
