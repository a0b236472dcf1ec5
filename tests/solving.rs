use splr::config::Config;
use splr::rup::check_refutation;
use splr::solver::{BuildError, Solver, Verdict};
use splr::validator::validate;

fn cnf(clauses: &[&[i32]]) -> Vec<Vec<i32>> {
    clauses.iter().map(|c| c.to_vec()).collect()
}

fn holds(m: &[bool], c: &[i32]) -> bool {
    c.iter().any(|&l| if l > 0 { m[l as usize] } else { !m[(-l) as usize] })
}

fn brute_force(n: usize, f: &[Vec<i32>]) -> bool {
    for bits in 0u32..(1u32 << n) {
        let mut m = vec![false; n + 1];
        for v in 1..=n {
            m[v] = bits & (1 << (v - 1)) != 0;
        }
        if f.iter().all(|c| holds(&m, c)) {
            return true;
        }
    }
    false
}

fn solve(n: usize, f: &[Vec<i32>]) -> (Verdict, Solver) {
    let mut s = Solver::build(n, &f.to_vec(), &Config::default()).expect("well formed");
    let r = s.solve(1_000_000);
    (r, s)
}

#[test]
fn two_clauses_are_satisfiable() {
    let f = cnf(&[&[1, 2], &[-1, 3]]);
    let (r, _) = solve(3, &f);
    match r {
        Verdict::Sat(m) => {
            assert_eq!(m.len(), 4);
            assert!(f.iter().all(|c| holds(&m, c)));
            assert_eq!(validate(&m, &f), None);
        }
        _ => panic!("expected a model"),
    }
}

#[test]
fn unit_and_its_negation_are_refuted() {
    let f = cnf(&[&[1], &[-1]]);
    let (r, s) = solve(1, &f);
    assert!(matches!(r, Verdict::Unsat));
    assert_eq!(s.certificate.last().map(|c| c.len()), Some(0));
    assert!(check_refutation(1, &f, &s.certificate));
}

#[test]
fn pigeons_three_in_two_holes_are_refuted() {
    // variable 2*(p-1)+h: pigeon p sits in hole h
    let x = |p: i32, h: i32| 2 * (p - 1) + h;
    let mut f: Vec<Vec<i32>> = Vec::new();
    for p in 1..=3 {
        f.push(vec![x(p, 1), x(p, 2)]);
    }
    for h in 1..=2 {
        for p in 1..=3 {
            for q in (p + 1)..=3 {
                f.push(vec![-x(p, h), -x(q, h)]);
            }
        }
    }
    let (r, s) = solve(6, &f);
    assert!(matches!(r, Verdict::Unsat));
    assert!(check_refutation(6, &f, &s.certificate));
}

#[test]
fn empty_formula_is_satisfiable() {
    let (r, _) = solve(0, &[]);
    assert!(matches!(r, Verdict::Sat(ref m) if m.len() == 1));
}

#[test]
fn empty_clause_is_refuted() {
    let f = cnf(&[&[1, 2], &[]]);
    let (r, _) = solve(2, &f);
    assert!(matches!(r, Verdict::Unsat));
}

#[test]
fn verdicts_agree_with_brute_force() {
    let mut seed: u64 = 12345;
    let mut next = move |k: u64| {
        seed = seed.wrapping_mul(6364136223846793005).wrapping_add(1442695040888963407);
        (seed >> 33) % k
    };
    for round in 0..200 {
        let n = 3 + (round % 5) as usize;
        let m = 2 + next(4 * n as u64) as usize;
        let mut f: Vec<Vec<i32>> = Vec::new();
        for _ in 0..m {
            let len = 1 + next(3) as usize;
            let mut c = Vec::new();
            for _ in 0..len {
                let v = 1 + next(n as u64) as i32;
                c.push(if next(2) == 0 { v } else { -v });
            }
            f.push(c);
        }
        let (r, s) = solve(n, &f);
        match r {
            Verdict::Sat(model) => {
                assert!(f.iter().all(|c| holds(&model, c)));
                assert!(brute_force(n, &f));
            }
            Verdict::Unsat => {
                assert!(!brute_force(n, &f));
                assert!(check_refutation(n, &f, &s.certificate));
            }
            Verdict::Unknown => panic!("budget ran out on a small formula"),
            Verdict::Fault => panic!("internal check failed"),
        }
    }
}

#[test]
fn bad_literal_is_rejected() {
    let f = cnf(&[&[1, 4]]);
    assert!(matches!(Solver::build(3, &f, &Config::default()), Err(BuildError::BadLiteral)));
    let g = cnf(&[&[0]]);
    assert!(matches!(Solver::build(3, &g, &Config::default()), Err(BuildError::BadLiteral)));
}

#[test]
fn bad_config_is_rejected() {
    let mut c = Config::default();
    c.restart_lbd_len = 0;
    assert!(matches!(Solver::build(1, &cnf(&[&[1]]), &c), Err(BuildError::BadConfig)));
}

#[test]
fn too_many_vars_is_rejected() {
    assert!(matches!(
        Solver::build(i32::MAX as usize, &Vec::new(), &Config::default()),
        Err(BuildError::TooManyVars)
    ));
}

#[test]
fn zero_budget_gives_unknown() {
    let mut s = Solver::build(1, &cnf(&[&[1]]), &Config::default()).unwrap();
    assert!(matches!(s.solve(0), Verdict::Unknown));
}

#[test]
fn propagation_fixes_units_at_level_zero() {
    let f = cnf(&[&[1], &[-1, 2], &[-2, 3]]);
    let mut s = Solver::build(3, &f, &Config::default()).unwrap();
    assert_eq!(s.propagate(), None);
    assert_eq!(s.trail, vec![1, 2, 3]);
    assert_eq!(s.decision_level(), 0);
    assert_eq!(s.pick_branch(), None);
}

#[test]
fn propagation_reports_the_falsified_clause() {
    let f = cnf(&[&[1], &[-1, 2], &[-2], &[3, 2]]);
    let mut s = Solver::build(3, &f, &Config::default()).unwrap();
    let c = s.propagate().expect("conflict");
    assert!(f[c].iter().all(|&l| s.trail.contains(&-l)));
}

#[test]
fn branching_takes_the_most_active_variable() {
    let f = cnf(&[&[1, 2, 3]]);
    let mut s = Solver::build(3, &f, &Config::default()).unwrap();
    s.activity.score[2] = 5;
    s.phase[2] = true;
    assert_eq!(s.pick_branch(), Some(2));
    s.activity.score[2] = 0;
    assert_eq!(s.pick_branch(), Some(-1));
}

#[test]
fn restart_keeps_activities_and_clauses() {
    let f = cnf(&[&[1, 2], &[-1, 2], &[1, -2], &[-1, -2, 3]]);
    let mut s = Solver::build(3, &f, &Config::default()).unwrap();
    let _ = s.solve(3);
    let activity = s.activity.score.clone();
    let clauses = s.clauses.clone();
    let kept = if s.trail_lim.is_empty() { s.trail.len() } else { s.trail_lim[0] };
    s.restart_search();
    assert_eq!(s.decision_level(), 0);
    assert_eq!(s.trail.len(), kept);
    assert_eq!(s.activity.score, activity);
    assert_eq!(s.clauses, clauses);
}

#[test]
fn model_reads_the_values() {
    let f = cnf(&[&[1], &[-2]]);
    let mut s = Solver::build(2, &f, &Config::default()).unwrap();
    assert_eq!(s.propagate(), None);
    assert_eq!(s.model(), vec![false, true, false]);
}

#[test]
fn decision_clause_negates_decisions() {
    let f = cnf(&[&[1, 2, 3]]);
    let mut s = Solver::build(3, &f, &Config::default()).unwrap();
    assert!(s.decision_clause().is_empty());
    assert!(matches!(s.solve(1_000), Verdict::Sat(_)));
}

#[test]
fn conflict_learns_the_first_uip_clause() {
    let f = cnf(&[&[-1, 2], &[-1, 3], &[-2, -3]]);
    let mut s = Solver::build(3, &f, &Config::default()).unwrap();
    s.phase[1] = true;
    assert!(matches!(s.solve(2), Verdict::Unknown));
    assert_eq!(s.certificate, vec![vec![-1]]);
    assert_eq!(s.clauses.last(), Some(&vec![-1]));
    assert_eq!(s.decision_level(), 0);
    assert_eq!(s.lbd(&vec![-1]), 0);
}

#[test]
fn lbd_counts_distinct_levels() {
    let f = cnf(&[&[1, 2, 3]]);
    let mut s = Solver::build(3, &f, &Config::default()).unwrap();
    s.phase[1] = true;
    s.phase[2] = true;
    let _ = s.solve(2);
    assert_eq!(s.decision_level(), 2);
    assert_eq!(s.lbd(&vec![1, 2]), 2);
    assert_eq!(s.lbd(&vec![1, -1]), 1);
}
