use cube_split::clause::Clause;
use cube_split::config::SatType;
use cube_split::cnf::Cnf;
use cube_split::cube::Cube;
use cube_split::wcnf::Wcnf;
use rand::RngExt;

#[test]
fn cnf_test_from_to_from() {
    let cnf = Cnf {
        num_vars: 3,
        num_clauses: 3,
        clauses: vec![Clause(vec![]), Clause(vec![2, 3, 1]), Clause(vec![1, 3, -2])],
    };

    assert_eq!(Cnf::from_text(cnf.to_text().as_str()).unwrap(), cnf);
}

#[test]
fn random_cnf_to_from_string_tests() {
    let mut rng = rand::rng();
    for _ in 0..1000 {
        let cnf_length = rng.random_range(1..10);
        let cnf_max_var = rng.random_range(1..10000);
        let mut cnf = Cnf {
            num_vars: cnf_max_var,
            num_clauses: cnf_length,
            clauses: Vec::with_capacity(cnf_length),
        };
        for _ in 0..cnf_length {
            let cnf_clause_length = rng.random_range(1..30);
            let mut v = Vec::with_capacity(cnf_clause_length);
            for _ in 0..cnf_clause_length {
                let x = rng.random_range(-(cnf_max_var as i32)..(cnf_max_var as i32));
                if x != 0 {
                    v.push(x);
                }
            }
            cnf.clauses.push(Clause(v));
        }
        println!("{}", cnf.to_text());
        println!("\n");
        assert_eq!(Cnf::from_text(cnf.to_text().as_str()).unwrap(), cnf);
        assert_eq!(
            Cnf::from_text(cnf.to_text().as_str()).unwrap().to_text(),
            cnf.to_text()
        );
    }
}

#[test]
fn cnf_text_form() {
    let cnf = Cnf {
        num_vars: 4,
        num_clauses: 2,
        clauses: vec![Clause(vec![1, -2]), Clause(vec![3, 4])],
    };
    assert_eq!(cnf.to_text(), "p cnf 4 2\n1 -2 0\n3 4 0\n");
}

#[test]
fn cnf_parse_checks_clause_count() {
    assert!(Cnf::from_text("p cnf 2 2\n1 2 0\n").is_err());
    assert!(Cnf::from_text("p cnf 2 1\n1 2 0\n").is_ok());
}

#[test]
fn cnf_parse_checks_terminating_zero() {
    assert!(Cnf::from_text("p cnf 2 1\n1 2\n").is_err());
}

#[test]
fn cnf_extend_cube_appends_unit_clauses() {
    let mut cnf = Cnf {
        num_vars: 2,
        num_clauses: 1,
        clauses: vec![Clause(vec![1, -2])],
    };
    let text = cnf.extend_cube_str(&Cube(vec![-3, 1]));
    assert_eq!(text, "p cnf 3 3\n1 -2 0\n-3 0\n1 0\n");
    // the formula itself is untouched
    assert_eq!(cnf.num_clauses, 1);
    cnf.extend_cube(&Cube(vec![-3]));
    assert_eq!(cnf.num_vars, 3);
    assert_eq!(cnf.num_clauses, 2);
    assert_eq!(cnf.clauses[1], Clause(vec![-3]));
}

#[test]
fn wcnf_to_from_text() {
    let wcnf = Wcnf {
        num_vars: 3,
        num_clauses: 2,
        hard_weight: 10,
        clauses: vec![(10, Clause(vec![1, -3])), (2, Clause(vec![2]))],
    };
    assert_eq!(wcnf.to_text(), "p wcnf 3 2 10\n10 1 -3 0\n2 2 0\n");
    assert_eq!(Wcnf::from_text(wcnf.to_text().as_str()).unwrap(), wcnf);
}

#[test]
fn wcnf_parse_recomputes_num_vars() {
    let parsed = Wcnf::from_text("p wcnf 99 1 5\n5 1 -7 0\n").unwrap();
    assert_eq!(parsed.num_vars, 7);
}

#[test]
fn wcnf_extend_cube_uses_hard_weight() {
    let wcnf = Wcnf {
        num_vars: 2,
        num_clauses: 1,
        hard_weight: 9,
        clauses: vec![(3, Clause(vec![1, 2]))],
    };
    let text = wcnf.extend_cube_str(&Cube(vec![-4]));
    assert_eq!(text, "p wcnf 4 2 9\n3 1 2 0\n9 -4 0\n");
}

#[test]
fn sat_type_tells_cnf_from_wcnf() {
    match SatType::from_text("p cnf 1 1\n1 0\n").unwrap() {
        SatType::Cnf(c) => assert_eq!(c.num_vars, 1),
        SatType::Wcnf(_) => panic!("read a CNF as WCNF"),
    }
    match SatType::from_text("p wcnf 1 1 3\n3 1 0\n").unwrap() {
        SatType::Wcnf(w) => assert_eq!(w.hard_weight, 3),
        SatType::Cnf(_) => panic!("read a WCNF as CNF"),
    }
    assert!(SatType::from_text("not a formula").is_err());
}
