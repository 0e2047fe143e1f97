use decision_tree::dataset::Dataset;
use decision_tree::impurity::gini_impurity;
use decision_tree::split::find_best_split;
use decision_tree::tree::build_tree;
use decision_tree::tree::Node;

fn mk_dataset(rows: &[&[&str]], labels: &[&str]) -> Dataset {
    let features: Vec<Vec<String>> = rows
        .iter()
        .map(|r| r.iter().map(|v| v.to_string()).collect())
        .collect();
    let targets: Vec<String> = labels.iter().map(|v| v.to_string()).collect();
    let num_samples = features.len();
    let num_features = if num_samples == 0 { 0 } else { features[0].len() };
    Dataset { features, targets, num_samples, num_features }
}

fn row(vals: &[&str]) -> Vec<String> {
    vals.iter().map(|v| v.to_string()).collect()
}

fn height(n: &Node) -> usize {
    match n {
        Node::Leaf { .. } => 0,
        Node::Internal { left, right, .. } => 1 + height(left).max(height(right)),
    }
}

fn weighted_impurity(d: &Dataset, left: &Vec<usize>, right: &Vec<usize>) -> f64 {
    let n = (left.len() + right.len()) as f64;
    let (ln, ld) = gini_impurity(d, left);
    let (rn, rd) = gini_impurity(d, right);
    (left.len() as f64 / n) * (ln as f64 / ld as f64)
        + (right.len() as f64 / n) * (rn as f64 / rd as f64)
}

#[test]
fn scenario_four_rows_one_feature() {
    let d = mk_dataset(
        &[&["A"], &["A"], &["B"], &["B"]],
        &["yes", "yes", "no", "no"],
    );
    let subset: Vec<usize> = vec![0, 1, 2, 3];
    assert_eq!(gini_impurity(&d, &subset), (8, 16));
    let tree = build_tree(&d, &subset, 0, 1);
    match &tree {
        Node::Internal { feature_index, threshold, left, right } => {
            assert_eq!(*feature_index, 0);
            assert_eq!(threshold, "A");
            match (left.as_ref(), right.as_ref()) {
                (
                    Node::Leaf { prediction: lp },
                    Node::Leaf { prediction: rp },
                ) => {
                    assert_eq!(lp, "yes");
                    assert_eq!(rp, "no");
                }
                _ => panic!("children must be leaves at depth bound 1"),
            }
        }
        _ => panic!("root must be an internal node"),
    }
    let (_, _, left, right) = find_best_split(&d, &subset).unwrap();
    assert_eq!(weighted_impurity(&d, &left, &right), 0.0);
}

#[test]
fn unanimous_labels_give_single_leaf() {
    let d = mk_dataset(
        &[&["A", "p"], &["B", "q"], &["C", "p"]],
        &["Low", "Low", "Low"],
    );
    for depth_bound in [0usize, 1, 5, 100] {
        let tree = build_tree(&d, &vec![0, 1, 2], 0, depth_bound);
        match tree {
            Node::Leaf { prediction } => assert_eq!(prediction, "Low"),
            _ => panic!("unanimous subset must give a leaf"),
        }
    }
}

#[test]
fn empty_subset_gives_unknown_leaf() {
    let d = mk_dataset(&[&["A"], &["B"]], &["yes", "no"]);
    let tree = build_tree(&d, &vec![], 0, 5);
    match tree {
        Node::Leaf { prediction } => assert_eq!(prediction, "UNKNOWN"),
        _ => panic!("empty subset must give a leaf"),
    }
}

#[test]
fn depth_bound_zero_gives_majority_leaf() {
    let d = mk_dataset(
        &[&["A"], &["A"], &["B"], &["B"], &["B"]],
        &["yes", "yes", "no", "no", "no"],
    );
    let tree = build_tree(&d, &vec![0, 1, 2, 3, 4], 0, 0);
    match tree {
        Node::Leaf { prediction } => assert_eq!(prediction, "no"),
        _ => panic!("a zero depth budget must give a single leaf"),
    }
}

#[test]
fn unmatched_value_routes_to_right_branch() {
    let d = mk_dataset(
        &[&["A"], &["A"], &["B"], &["B"]],
        &["yes", "yes", "no", "no"],
    );
    let tree = build_tree(&d, &vec![0, 1, 2, 3], 0, 1);
    // "C" matches no threshold in the tree: the not-equals branch decides.
    assert_eq!(tree.predict(&row(&["C"])), "no");
    assert_eq!(tree.predict(&row(&["A"])), "yes");
    assert_eq!(tree.predict(&row(&["B"])), "no");
}

#[test]
fn predict_is_deterministic() {
    let d = mk_dataset(
        &[&["A", "x"], &["A", "y"], &["B", "x"], &["B", "y"]],
        &["yes", "no", "no", "no"],
    );
    let tree = build_tree(&d, &vec![0, 1, 2, 3], 0, 3);
    let sample = row(&["A", "x"]);
    let first = tree.predict(&sample);
    for _ in 0..10 {
        assert_eq!(tree.predict(&sample), first);
    }
}

#[test]
fn rebuild_gives_identical_tree() {
    let d = mk_dataset(
        &[
            &["A", "x"],
            &["A", "y"],
            &["B", "x"],
            &["B", "y"],
            &["C", "x"],
        ],
        &["yes", "no", "no", "no", "yes"],
    );
    let subset: Vec<usize> = vec![0, 1, 2, 3, 4];
    let t1 = build_tree(&d, &subset, 0, 4);
    let t2 = build_tree(&d, &subset, 0, 4);
    assert_eq!(t1, t2);
}

#[test]
fn best_split_partitions_the_subset() {
    let d = mk_dataset(
        &[&["A", "x"], &["A", "y"], &["B", "x"], &["B", "y"]],
        &["yes", "yes", "no", "no"],
    );
    let subset: Vec<usize> = vec![0, 1, 2, 3];
    let (feature, value, left, right) = find_best_split(&d, &subset).unwrap();
    assert!(!left.is_empty() && !right.is_empty());
    for i in &left {
        assert!(subset.contains(i));
        assert_eq!(d.features[*i][feature], value);
        assert!(!right.contains(i));
    }
    for i in &right {
        assert!(subset.contains(i));
        assert_ne!(d.features[*i][feature], value);
    }
    for i in &subset {
        assert!(left.contains(i) || right.contains(i));
    }
    assert_eq!(left.len() + right.len(), subset.len());
}

#[test]
fn best_split_minimizes_weighted_impurity() {
    let d = mk_dataset(
        &[
            &["A", "x"],
            &["A", "y"],
            &["B", "x"],
            &["B", "y"],
            &["C", "y"],
        ],
        &["yes", "no", "no", "no", "yes"],
    );
    let subset: Vec<usize> = vec![0, 1, 2, 3, 4];
    let (_, _, best_left, best_right) = find_best_split(&d, &subset).unwrap();
    let best_w = weighted_impurity(&d, &best_left, &best_right);
    for f in 0..d.num_features {
        for i in &subset {
            let v = &d.features[*i][f];
            let left: Vec<usize> = subset
                .iter()
                .copied()
                .filter(|j| &d.features[*j][f] == v)
                .collect();
            let right: Vec<usize> = subset
                .iter()
                .copied()
                .filter(|j| &d.features[*j][f] != v)
                .collect();
            if left.is_empty() || right.is_empty() {
                continue;
            }
            assert!(best_w <= weighted_impurity(&d, &left, &right) + 1e-12);
        }
    }
}

#[test]
fn constant_columns_give_no_split() {
    let d = mk_dataset(
        &[&["A", "x"], &["A", "x"], &["A", "x"]],
        &["yes", "no", "yes"],
    );
    assert!(find_best_split(&d, &vec![0, 1, 2]).is_none());
    let tree = build_tree(&d, &vec![0, 1, 2], 0, 5);
    match tree {
        Node::Leaf { prediction } => assert_eq!(prediction, "yes"),
        _ => panic!("with no usable split the tree must be a leaf"),
    }
}

#[test]
fn empty_subset_gives_no_split() {
    let d = mk_dataset(&[&["A"], &["B"]], &["yes", "no"]);
    assert!(find_best_split(&d, &vec![]).is_none());
}

#[test]
fn depth_bound_limits_tree_height() {
    let d = mk_dataset(
        &[
            &["A", "x"],
            &["A", "y"],
            &["B", "x"],
            &["B", "y"],
        ],
        &["p", "q", "r", "s"],
    );
    for bound in [0usize, 1, 2, 3] {
        let tree = build_tree(&d, &vec![0, 1, 2, 3], 0, bound);
        assert!(height(&tree) <= bound);
    }
}

#[test]
fn fits_width_checks_tested_columns() {
    let d = mk_dataset(
        &[&["A", "x"], &["A", "y"], &["B", "x"], &["B", "y"]],
        &["yes", "yes", "no", "no"],
    );
    let tree = build_tree(&d, &vec![0, 1, 2, 3], 0, 2);
    assert!(tree.fits_width(2));
    assert!(!tree.fits_width(0));
}

#[test]
fn shape_and_subset_checks() {
    let good = mk_dataset(&[&["A"], &["B"]], &["yes", "no"]);
    assert!(good.check_shape());
    assert!(decision_tree::dataset::check_subset(&good, &vec![0, 1]));
    assert!(!decision_tree::dataset::check_subset(&good, &vec![0, 2]));
    let bad = Dataset {
        features: vec![row(&["A", "x"]), row(&["B"])],
        targets: vec!["yes".to_string(), "no".to_string()],
        num_samples: 2,
        num_features: 2,
    };
    assert!(!bad.check_shape());
}
