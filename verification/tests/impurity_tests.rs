use decision_tree::dataset::Dataset;
use decision_tree::impurity::all_same_class;
use decision_tree::impurity::gini_impurity;
use decision_tree::impurity::majority_class;

fn mk_dataset(rows: &[&[&str]], labels: &[&str]) -> Dataset {
    let features: Vec<Vec<String>> = rows
        .iter()
        .map(|r| r.iter().map(|v| v.to_string()).collect())
        .collect();
    let targets: Vec<String> = labels.iter().map(|v| v.to_string()).collect();
    let num_samples = features.len();
    let num_features = if num_samples == 0 { 0 } else { features[0].len() };
    Dataset { features, targets, num_samples, num_features }
}

fn gini_f64(d: &Dataset, subset: &Vec<usize>) -> f64 {
    let (num, den) = gini_impurity(d, subset);
    num as f64 / den as f64
}

#[test]
fn gini_empty_subset_is_zero() {
    let d = mk_dataset(&[&["A"], &["B"]], &["yes", "no"]);
    let (num, den) = gini_impurity(&d, &vec![]);
    assert_eq!(num, 0);
    assert_eq!(den, 1);
    assert_eq!(gini_f64(&d, &vec![]), 0.0);
}

#[test]
fn all_same_class_empty_is_true() {
    let d = mk_dataset(&[&["A"], &["B"]], &["yes", "no"]);
    assert!(all_same_class(&d, &vec![]));
}

#[test]
fn gini_half_mixed_is_half() {
    let d = mk_dataset(
        &[&["A"], &["A"], &["B"], &["B"]],
        &["yes", "yes", "no", "no"],
    );
    let (num, den) = gini_impurity(&d, &vec![0, 1, 2, 3]);
    assert_eq!((num, den), (8, 16));
    assert_eq!(gini_f64(&d, &vec![0, 1, 2, 3]), 0.5);
}

#[test]
fn gini_pure_subset_is_zero() {
    let d = mk_dataset(
        &[&["A"], &["A"], &["B"], &["B"]],
        &["yes", "yes", "no", "no"],
    );
    let (num, _) = gini_impurity(&d, &vec![0, 1]);
    assert_eq!(num, 0);
}

#[test]
fn gini_within_class_count_bound() {
    // Three observed classes with counts 2, 1, 1: impurity must lie in
    // [0, 1 - 1/3].
    let d = mk_dataset(
        &[&["x"], &["x"], &["x"], &["x"]],
        &["A", "A", "B", "C"],
    );
    let g = gini_f64(&d, &vec![0, 1, 2, 3]);
    assert_eq!(g, 10.0 / 16.0);
    assert!(0.0 <= g && g <= 1.0 - 1.0 / 3.0);
}

#[test]
fn gini_respects_subset_selection() {
    let d = mk_dataset(
        &[&["x"], &["x"], &["x"], &["x"]],
        &["A", "A", "B", "C"],
    );
    // The subset {0, 1} is pure even though the whole dataset is not.
    let (num, _) = gini_impurity(&d, &vec![0, 1]);
    assert_eq!(num, 0);
    // The subset {1, 2} is an even two-class mix.
    assert_eq!(gini_f64(&d, &vec![1, 2]), 0.5);
}

#[test]
fn all_same_class_detects_mixture() {
    let d = mk_dataset(
        &[&["x"], &["x"], &["x"]],
        &["A", "A", "B"],
    );
    assert!(all_same_class(&d, &vec![0, 1]));
    assert!(!all_same_class(&d, &vec![0, 1, 2]));
    assert!(all_same_class(&d, &vec![2]));
}

#[test]
fn majority_class_picks_most_frequent() {
    let d = mk_dataset(
        &[&["x"], &["x"], &["x"], &["x"], &["x"]],
        &["Low", "High", "Low", "High", "Low"],
    );
    assert_eq!(majority_class(&d, &vec![0, 1, 2, 3, 4]), "Low");
    assert_eq!(majority_class(&d, &vec![1, 3, 4]), "High");
}

#[test]
fn majority_class_tie_keeps_first_seen() {
    let d = mk_dataset(
        &[&["x"], &["x"], &["x"], &["x"]],
        &["B", "A", "A", "B"],
    );
    // Counts tie at two each; the label seen first in subset order wins.
    assert_eq!(majority_class(&d, &vec![0, 1, 2, 3]), "B");
    assert_eq!(majority_class(&d, &vec![1, 0, 3, 2]), "A");
}
