use cube_split::config::{Comparator, Config, SatType, Settings};
use cube_split::cube::Cube;
use cube_split::num::Ratio;
use cube_split::reconstruct::{parse_best_log, parse_leaf_cubes, variable_occurrences};
use cube_split::runners::{
    all_log_line, best_log_line, cnf_file_path, log_file_path, preprocess, PairOutcome,
    RunOutcome,
};
use cube_split::solver_log::{parse_log_text, LogErr};

fn ratio(n: i64) -> Ratio {
    Ratio { num: n, scale: 0 }
}

// Reconstruction: `[1]` subsumes `[1, 2]` and `[1, -2]`, and `[1, 2]`
// subsumes `[1, 2, 3]`, so the leaves are `[1, -2]` and `[1, 2, 3]`.
#[test]
fn reconstruction_keeps_leaves() {
    let log = "1: 3.0\n1_2: 2.0\n1_n2: 2.5\n1_2_3: 1.0\n\n";
    let leaves = parse_leaf_cubes(log).unwrap();
    let cubes: Vec<Cube> = leaves.iter().map(|(c, _)| Cube(c.0.clone())).collect();
    assert_eq!(cubes, vec![Cube(vec![1, -2]), Cube(vec![1, 2, 3])]);
    let icnf = parse_best_log(log).unwrap();
    assert_eq!(icnf, "a 1 -2 0\na 1 2 3 0\n");
}

#[test]
fn reconstruction_stops_at_blank_line() {
    let log = "1: 3.0\n\n2: 1.0\n";
    let leaves = parse_leaf_cubes(log).unwrap();
    assert_eq!(leaves.len(), 1);
    assert_eq!(leaves[0].0, Cube(vec![1]));
    assert_eq!(leaves[0].1, Ratio { num: 30, scale: 1 });
}

#[test]
fn reconstruction_rejects_bad_lines() {
    assert!(parse_leaf_cubes("no separator\n").is_err());
    assert!(parse_leaf_cubes("1_x: 3.0\n").is_err());
    assert!(parse_leaf_cubes("1: not a number\n").is_err());
}

// Preprocessor ranking under `minmax`: pair aggregates (max) are 7, 5 and
// 100; ascending order keeps `[20, 10]`.
#[test]
fn preprocessor_ranking() {
    let results = vec![
        PairOutcome { var: 10, pos: Some(ratio(3)), neg: Some(ratio(7)) },
        PairOutcome { var: 20, pos: Some(ratio(5)), neg: Some(ratio(5)) },
        PairOutcome { var: 30, pos: Some(ratio(1)), neg: Some(ratio(100)) },
    ];
    let kept = preprocess(Comparator::MinOfMax, &results, 2);
    assert_eq!(kept, vec![20, 10]);
}

// A candidate whose pair timed out or failed is discarded before ranking.
#[test]
fn preprocessor_discards_incomplete_pairs() {
    let results = vec![
        PairOutcome { var: 10, pos: Some(ratio(3)), neg: None },
        PairOutcome { var: 20, pos: Some(ratio(5)), neg: Some(ratio(5)) },
    ];
    let kept = preprocess(Comparator::MaxOfMin, &results, 5);
    assert_eq!(kept, vec![20]);
}

// Metric extraction: everything after the last `SPLITS DATA` marker is a
// JSON object; the configured metric and `time` are read from it.
#[test]
fn log_metric_extraction() {
    let text = "c solver chatter\nSPLITS DATA ignored earlier\nSPLITS DATA\n{\"m\": 5, \"time\": 1.5}\n";
    let data = parse_log_text(text, &String::from("m")).unwrap();
    assert_eq!(data.metric, ratio(5));
    assert_eq!(data.time, Ratio { num: 15, scale: 1 });
    assert_eq!(data.time.to_millis(), 1500);
}

#[test]
fn log_missing_metric_is_its_own_error() {
    let text = "SPLITS DATA\n{\"time\": 1.0}";
    assert_eq!(parse_log_text(text, &String::from("m")), Err(LogErr::MissingMetric));
    let text2 = "SPLITS DATA\n{\"m\": 1.0}";
    assert_eq!(parse_log_text(text2, &String::from("m")), Err(LogErr::MissingTime));
    let text3 = "SPLITS DATA\nnot json";
    assert_eq!(parse_log_text(text3, &String::from("m")), Err(LogErr::NotJson));
    let text4 = "SPLITS DATA caf\u{e9}";
    assert_eq!(parse_log_text(text4, &String::from("m")), Err(LogErr::NotAscii));
    // an exponent no exact 64-bit decimal can absorb is a bad number
    let text5 = "SPLITS DATA\n{\"m\": 1e99, \"time\": 1}";
    assert_eq!(parse_log_text(text5, &String::from("m")), Err(LogErr::BadNumber));
}

#[test]
fn decimal_parsing_is_exact() {
    assert_eq!(Ratio::from_text("5"), Some(ratio(5)));
    assert_eq!(Ratio::from_text("-2.50"), Some(Ratio { num: -250, scale: 2 }));
    assert_eq!(Ratio::from_text("1.5e1"), Some(Ratio { num: 15, scale: 0 }));
    assert_eq!(Ratio::from_text("2e3"), Some(ratio(2000)));
    assert_eq!(Ratio::from_text("1e-2"), Some(Ratio { num: 1, scale: 2 }));
    // fractions deeper than nine digits are truncated toward zero
    assert_eq!(
        Ratio::from_text("0.1234567890123"),
        Some(Ratio { num: 123456789, scale: 9 })
    );
    assert_eq!(Ratio::from_text("1e-10"), Some(Ratio { num: 0, scale: 9 }));
    assert_eq!(
        Ratio::from_text("2.5e-9"),
        Some(Ratio { num: 2, scale: 9 })
    );
    assert_eq!(Ratio::from_text(""), None);
    assert_eq!(Ratio::from_text("1.2.3"), None);
    // comparisons are by value, not representation
    let a = Ratio { num: 15, scale: 1 };
    let b = Ratio { num: 1500, scale: 3 };
    assert!(a.eq_val(&b));
    assert!(Ratio { num: 1, scale: 0 }.lt(&a));
}

#[test]
fn run_file_paths() {
    let cube = Cube(vec![-5, 3]);
    assert_eq!(cnf_file_path(&String::from("tmp"), &cube), "tmp/n5_3.cnf");
    assert_eq!(log_file_path(&String::from("out"), &cube), "out/logs/n5_3.log");
}

#[test]
fn engine_log_lines() {
    let cube = Cube(vec![2, -1]);
    assert_eq!(
        best_log_line(&cube, &Ratio { num: 25, scale: 1 }),
        "2_n1: 2.5\n"
    );
    assert_eq!(
        all_log_line(&cube, &RunOutcome::TimedOut),
        "2_n1: Timeout\n"
    );
    assert_eq!(
        all_log_line(&cube, &RunOutcome::Failed(String::from("spawn failed"))),
        "2_n1: spawn failed\n"
    );
    let metrics = vec![
        (String::from("m"), ratio(5)),
        (String::from("time"), Ratio { num: 15, scale: 1 }),
    ];
    assert_eq!(
        all_log_line(&cube, &RunOutcome::Metrics(metrics)),
        "2_n1: {\"m\": 5, \"time\": 1.5}\n"
    );
}

#[test]
fn settings_parse_reads_every_key() {
    let cfg = "variables: 1 2 3\n\
               multitree variables: 4 5\n\
               Comparator: maxmin\n\
               timeout: 30\n\
               solver: /bin/solver\n\
               cnf: instance.cnf\n\
               output dir: outd\n\
               tmp dir: tmpd\n\
               evaluation metric: m\n\
               search depth: 2\n\
               thread count: 4\n\
               preserve cnf: true\n\
               preserve logs: true\n\
               cutoff proportion: 0.9\n\
               time proportion: 1.5\n\
               cutoff: 2\n\
               preprocess count: 2\n\
               debug: true\n\
               # a comment: ignored\n\n";
    let s = Settings::parse(cfg, 8).unwrap();
    assert_eq!(s.variables, vec![1, 2, 3]);
    assert_eq!(s.multitree_variables, Some(vec![4, 5]));
    assert_eq!(s.comparator, Comparator::MaxOfMin);
    assert_eq!(s.timeout, 30);
    assert_eq!(s.solver, "/bin/solver");
    assert_eq!(s.formula_path, "instance.cnf");
    assert_eq!(s.output_dir, "outd");
    assert_eq!(s.tmp_dir, "tmpd");
    assert_eq!(s.evaluation_metric, "m");
    assert_eq!(s.search_depth, 2);
    assert_eq!(s.thread_count, 4);
    assert!(s.preserve_cnf);
    assert!(s.preserve_logs);
    assert_eq!(s.cutoff_proportion, Ratio { num: 9, scale: 1 });
    assert_eq!(s.time_proportion, Ratio { num: 15, scale: 1 });
    assert_eq!(s.cutoff, ratio(2));
    assert_eq!(s.preproc_count, Some(2));
    assert!(s.debug);
}

#[test]
fn settings_parse_defaults_and_errors() {
    let minimal = "variables: 1\nsolver: s\ncnf: f\nevaluation metric: m\ncutoff: 1\n";
    let s = Settings::parse(minimal, 3).unwrap();
    assert_eq!(s.timeout, 600);
    assert_eq!(s.comparator, Comparator::MinOfMax);
    assert_eq!(s.thread_count, 3);
    assert_eq!(s.search_depth, 1);
    assert_eq!(s.output_dir, "splits_output_directory");
    assert_eq!(s.tmp_dir, "splits_working_directory");
    assert!(!s.preserve_cnf);
    assert_eq!(s.preproc_count, None);

    assert!(Settings::parse("solver: s\ncnf: f\nevaluation metric: m\ncutoff: 1\n", 1).is_err());
    assert!(Settings::parse("variables: 0\nsolver: s\ncnf: f\nevaluation metric: m\ncutoff: 1\n", 1).is_err());
    assert!(Settings::parse("variables: 1\ncnf: f\nevaluation metric: m\ncutoff: 1\n", 1).is_err());
    assert!(Settings::parse("unknown key: 1\n", 1).is_err());
    assert!(Settings::parse("variables: 1\nsolver: s\ncnf: f\nevaluation metric: m\ncutoff: 1\ncomparator: sideways\n", 1).is_err());
    assert!(Settings::parse("variables: 1\nsolver: s\ncnf: f\nevaluation metric: m\ncutoff: 1\nsearch depth: 0\n", 1).is_err());
    assert!(Settings::parse("variables: 1\nsolver: s\ncnf: f\nevaluation metric: m\n", 1).is_err());
    // a non-blank, non-comment line needs a `:` separator
    assert!(Settings::parse("variables 1\n", 1).is_err());
    // zero or non-positive values are rejected wherever positives are asked
    assert!(Settings::parse("variables: 1\nsolver: s\ncnf: f\nevaluation metric: m\ncutoff: 0\n", 1).is_err());
    assert!(Settings::parse("variables: 1\nsolver: s\ncnf: f\nevaluation metric: m\ncutoff: 1\nthread count: 0\n", 1).is_err());
    assert!(Settings::parse("variables: 1\nsolver: s\ncnf: f\nevaluation metric: m\ncutoff: 1\ncutoff proportion: 0\n", 1).is_err());
    assert!(Settings::parse("variables: 1\nsolver: s\ncnf: f\nevaluation metric: m\ncutoff: 1\npreserve cnf: yes\n", 1).is_err());
}

#[test]
fn config_assembles_settings_and_formula() {
    let cfg = "variables: 1 2\nsolver: s\ncnf: f\nevaluation metric: m\ncutoff: 1\n";
    let config = Config::parse_config(cfg, "p cnf 2 1\n1 -2 0\n", 2).unwrap();
    match &config.cnf {
        SatType::Cnf(c) => assert_eq!(c.num_clauses, 1),
        SatType::Wcnf(_) => panic!("read a CNF as WCNF"),
    }
    let text = config.cnf.extend_cube_str(&Cube(vec![2]));
    assert_eq!(text, "p cnf 2 2\n1 -2 0\n2 0\n");
    assert!(Config::parse_config(cfg, "garbage", 2).is_err());
}

#[test]
fn occurrence_counts() {
    let leaves = vec![Cube(vec![1, -2]), Cube(vec![1, 2, 3])];
    let counts = variable_occurrences(&leaves);
    assert_eq!(counts, vec![(1, 2), (2, 2), (3, 1)]);
}

#[test]
fn deadline_scaling() {
    // next deadline = parent time x time proportion, in whole milliseconds
    let half = Ratio { num: 5, scale: 1 };
    assert_eq!(cube_split::num::scale_millis(1000, &half), 500);
    let double = ratio(2);
    assert_eq!(cube_split::num::scale_millis(1500, &double), 3000);
    assert_eq!(Ratio { num: 3, scale: 0 }.to_millis(), 3000);
    assert_eq!(Ratio { num: -1, scale: 0 }.to_millis(), 0);
}

#[test]
fn icnf_line_form() {
    assert_eq!(Cube(vec![1, -2]).to_icnf_string(), "a 1 -2 0\n");
}
