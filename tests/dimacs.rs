use splr::config::Config;
use splr::dimacs::{parse_cnf, CnfError};
use splr::solver::{Solver, Verdict};

#[test]
fn reads_a_formula() {
    let t = b"c example\np cnf 3 2\n1 2 0\n-1 3 0\n";
    assert_eq!(parse_cnf(t), Ok((3, vec![vec![1, 2], vec![-1, 3]])));
}

#[test]
fn clauses_may_span_lines() {
    let t = b"p cnf 2 1\n1\n-2 0\n%\n0\n";
    assert_eq!(parse_cnf(t), Ok((2, vec![vec![1, -2]])));
}

#[test]
fn dimacs_errors() {
    assert_eq!(parse_cnf(b"1 2 0\n"), Err(CnfError::NoHeader));
    assert_eq!(parse_cnf(b""), Err(CnfError::NoHeader));
    assert_eq!(parse_cnf(b"p dnf 1 1\n"), Err(CnfError::BadHeader));
    assert_eq!(parse_cnf(b"p cnf 2 1\n1 y 0\n"), Err(CnfError::BadToken(12)));
    assert_eq!(parse_cnf(b"p cnf 2 1\n1 3 0\n"), Err(CnfError::BadLiteral(12)));
}

#[test]
fn solves_the_read_formulas() {
    let (n, f) = parse_cnf(b"p cnf 3 2\n1 2 0\n-1 3 0\n").unwrap();
    let mut s = Solver::build(n, &f, &Config::default()).unwrap();
    assert!(matches!(s.solve(10_000), Verdict::Sat(_)));
    let (n, f) = parse_cnf(b"p cnf 1 2\n1 0\n-1 0\n").unwrap();
    let mut s = Solver::build(n, &f, &Config::default()).unwrap();
    assert!(matches!(s.solve(10_000), Verdict::Unsat));
}
