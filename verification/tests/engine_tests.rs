use cube_split::config::Comparator;
use cube_split::cube::Cube;
use cube_split::num::{ExtMetric, Ratio};
use cube_split::tree_gen::{
    candidates, classify, compare, done_check, hyper_vec, key_of, should_recurse, ClassGroup,
    NodeResult,
};

fn ratio(n: i64) -> Ratio {
    Ratio { num: n, scale: 0 }
}

// Trivial termination: with `variables = [1]` and starting cube `[1]`, the
// termination guard holds and the engine returns before any run.
#[test]
fn trivial_termination() {
    let variables = vec![1u32];
    assert!(done_check(&variables, &Cube(vec![1])));
    assert!(done_check(&variables, &Cube(vec![-1])));
    assert!(!done_check(&variables, &Cube(vec![])));
    // a run that ends immediately leaves best.log empty, and the
    // reconstructor emits nothing for it
    let icnf = cube_split::reconstruct::parse_best_log("").unwrap();
    assert_eq!(icnf, "");
}

// Hypercube enumeration: `[1, 2, 3]` yields the 8 sign assignments, each
// variable appearing exactly once per row.
#[test]
fn hypercube_of_three_variables() {
    let mut v = vec![1u32, 2, 3];
    let hv = hyper_vec(&mut v);
    assert_eq!(hv.len(), 8);
    for row in &hv {
        assert_eq!(row.len(), 3);
        assert_eq!(row[0].unsigned_abs(), 1);
        assert_eq!(row[1].unsigned_abs(), 2);
        assert_eq!(row[2].unsigned_abs(), 3);
    }
    // all rows are distinct
    for i in 0..hv.len() {
        for j in 0..i {
            assert_ne!(hv[i], hv[j]);
        }
    }
    assert_eq!(hv[0], vec![1, 2, 3]);
    assert_eq!(hv[1], vec![1, 2, -3]);
    assert_eq!(hv[7], vec![-1, -2, -3]);
}

fn result(cube: Vec<i32>, metric: Option<i64>, time_millis: Option<u64>) -> NodeResult {
    NodeResult {
        cube: Cube(cube),
        metric: metric.map(ratio),
        time_millis,
    }
}

// Single split at depth 1 under `minmax`: class {1} has max 20 and class
// {2} has max 15, so the engine picks class {2} and would recurse on both
// of its members.
#[test]
fn single_split_depth_one() {
    let variables = vec![1u32, 2];
    let root = Cube(vec![]);
    let (d, cands) = candidates(&variables, 1, &root);
    assert_eq!(d, 1);
    let cand_lits: Vec<Vec<i32>> = cands.iter().map(|c| c.0.clone()).collect();
    assert_eq!(cand_lits, vec![vec![1], vec![-1], vec![2], vec![-2]]);

    let results = vec![
        result(vec![1], Some(10), Some(1000)),
        result(vec![-1], Some(20), Some(1000)),
        result(vec![2], Some(5), Some(1000)),
        result(vec![-2], Some(15), Some(1000)),
    ];
    let classes = classify(results, d);
    assert_eq!(classes.len(), 2);
    assert_eq!(classes[0].key, vec![1]);
    assert_eq!(classes[1].key, vec![2]);

    let winner = compare(
        Comparator::MinOfMax,
        &classes,
        &ratio(1),
        &ExtMetric::PosInf,
    )
    .unwrap();
    assert_eq!(winner.len(), 2);
    assert_eq!(winner[0].cube, Cube(vec![2]));
    assert_eq!(winner[0].metric, ratio(5));
    assert_eq!(winner[1].cube, Cube(vec![-2]));
    assert_eq!(winner[1].metric, ratio(15));
}

// A timeout leaves its member without a metric, which disqualifies the
// class; with no other class the node becomes a leaf.
#[test]
fn timeout_disqualifies_class() {
    let classes = vec![ClassGroup {
        key: vec![1],
        members: vec![
            result(vec![1], Some(5), Some(1000)),
            result(vec![-1], None, None),
        ],
    }];
    let r = compare(
        Comparator::MinOfMax,
        &classes,
        &ratio(1),
        &ExtMetric::PosInf,
    );
    assert!(r.is_none());
}

// Selection direction under `maxmin`: the chosen class has the greatest
// minimum among admissible classes.
#[test]
fn maxmin_picks_greatest_minimum() {
    let classes = vec![
        ClassGroup {
            key: vec![1],
            members: vec![
                result(vec![1], Some(3), Some(10)),
                result(vec![-1], Some(9), Some(10)),
            ],
        },
        ClassGroup {
            key: vec![2],
            members: vec![
                result(vec![2], Some(7), Some(10)),
                result(vec![-2], Some(8), Some(10)),
            ],
        },
    ];
    let winner = compare(
        Comparator::MaxOfMin,
        &classes,
        &ratio(1),
        &ExtMetric::NegInf,
    )
    .unwrap();
    // class {2} has minimum 7, beating class {1}'s minimum 3
    assert_eq!(winner[0].cube, Cube(vec![2]));
}

// The cutoff proportion gate is strict: under `minmax` with a finite
// parent, only classes whose every metric strictly improves are admissible.
#[test]
fn cutoff_proportion_is_strict() {
    let classes = vec![ClassGroup {
        key: vec![1],
        members: vec![
            result(vec![1], Some(10), Some(10)),
            result(vec![-1], Some(4), Some(10)),
        ],
    }];
    // parent metric 10, proportion 1: a member equal to the bound fails
    let r = compare(
        Comparator::MinOfMax,
        &classes,
        &ratio(1),
        &ExtMetric::Finite(ratio(10)),
    );
    assert!(r.is_none());
    // a slightly larger parent admits the class
    let r2 = compare(
        Comparator::MinOfMax,
        &classes,
        &ratio(1),
        &ExtMetric::Finite(ratio(11)),
    );
    assert!(r2.is_some());
}

// The comparator-directed cutoff ends a branch as a leaf.
#[test]
fn cutoff_stops_recursion() {
    // maxmin recurses while the metric is below the cutoff
    assert!(should_recurse(Comparator::MaxOfMin, &ratio(5), &ratio(10)));
    assert!(!should_recurse(Comparator::MaxOfMin, &ratio(10), &ratio(10)));
    // minmax recurses while the metric is above the cutoff
    assert!(should_recurse(Comparator::MinOfMax, &ratio(11), &ratio(10)));
    assert!(!should_recurse(Comparator::MinOfMax, &ratio(10), &ratio(10)));
}

// Candidate enumeration skips selections that touch the cube, and the
// clamped depth never exceeds the number of unassigned variables.
#[test]
fn candidates_skip_assigned_variables() {
    let variables = vec![1u32, 2, 3];
    let cube = Cube(vec![-2]);
    let (d, cands) = candidates(&variables, 2, &cube);
    assert_eq!(d, 2);
    let lits: Vec<Vec<i32>> = cands.iter().map(|c| c.0.clone()).collect();
    // only the selection {1, 3} avoids the assigned variable 2
    assert_eq!(
        lits,
        vec![
            vec![-2, 1, 3],
            vec![-2, 1, -3],
            vec![-2, -1, 3],
            vec![-2, -1, -3],
        ]
    );
}

#[test]
fn class_key_takes_last_literals() {
    assert_eq!(key_of(&vec![5, -3, 2], 2), vec![3, 2]);
    assert_eq!(key_of(&vec![5], 2), vec![5]);
    assert_eq!(key_of(&vec![-7, 1], 1), vec![1]);
}
