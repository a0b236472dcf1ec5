use splr::eliminator::{eliminate_var, extend_model, remove_subsumed, resolve};
use splr::config::Config;
use splr::driver::solve_formula;
use splr::solver::Verdict;
use splr::validator::validate;

fn holds(m: &[bool], c: &[i32]) -> bool {
    c.iter().any(|&l| if l > 0 { m[l as usize] } else { !m[(-l) as usize] })
}

fn satisfiable(n: usize, f: &[Vec<i32>]) -> Option<Vec<bool>> {
    for bits in 0u32..(1u32 << n) {
        let mut m = vec![false; n + 1];
        for v in 1..=n {
            m[v] = bits & (1 << (v - 1)) != 0;
        }
        if f.iter().all(|c| holds(&m, c)) {
            return Some(m);
        }
    }
    None
}

#[test]
fn resolvent_drops_the_variable() {
    assert_eq!(resolve(&vec![1, 2, -3], &vec![-1, 4], 1), vec![2, -3, 4]);
}

#[test]
fn elimination_splits_and_resolves() {
    let f = vec![vec![1, 2], vec![-1, 3], vec![2, 3], vec![1, -1, 4]];
    let e = eliminate_var(4, &f, 1);
    assert_eq!(e.pos, vec![vec![1, 2]]);
    assert_eq!(e.neg, vec![vec![-1, 3]]);
    assert_eq!(e.rest, vec![vec![2, 3], vec![2, 3]]);
}

#[test]
fn elimination_keeps_the_verdict_and_rebuilds_models() {
    let mut seed: u64 = 99;
    let mut next = move |k: u64| {
        seed = seed.wrapping_mul(6364136223846793005).wrapping_add(1442695040888963407);
        (seed >> 33) % k
    };
    for _ in 0..300 {
        let n = 4usize;
        let mut f: Vec<Vec<i32>> = Vec::new();
        for _ in 0..(2 + next(8)) {
            let mut c = Vec::new();
            for _ in 0..(1 + next(3)) {
                let v = 1 + next(n as u64) as i32;
                c.push(if next(2) == 0 { v } else { -v });
            }
            f.push(c);
        }
        let v = 1 + next(n as u64) as i32;
        let e = eliminate_var(n, &f, v);
        assert!(e.rest.iter().all(|c| c.iter().all(|&l| l != v && l != -v)));
        let before = satisfiable(n, &f);
        let after = satisfiable(n, &e.rest);
        assert_eq!(before.is_some(), after.is_some());
        if let Some(mut m) = after {
            extend_model(&mut m, &e);
            assert_eq!(validate(&m, &f), None);
        }
    }
}

#[test]
fn unsat_stays_unsat() {
    let f = vec![vec![1, 2], vec![1, -2], vec![-1, 2], vec![-1, -2]];
    let e = eliminate_var(2, &f, 1);
    assert!(satisfiable(2, &e.rest).is_none());
}

#[test]
fn whole_solve_with_elimination() {
    let f = vec![vec![1, 2], vec![-1, 3]];
    match solve_formula(3, &f, &Config::default(), 4, 100_000) {
        Verdict::Sat(m) => assert!(f.iter().all(|c| holds(&m, c))),
        other => panic!("expected a model, got {:?}", other),
    }
    let g = vec![vec![1], vec![-1]];
    assert!(matches!(solve_formula(1, &g, &Config::default(), 4, 100_000), Verdict::Unsat));
}

#[test]
fn whole_solve_agrees_with_brute_force() {
    let mut seed: u64 = 7;
    let mut next = move |k: u64| {
        seed = seed.wrapping_mul(6364136223846793005).wrapping_add(1442695040888963407);
        (seed >> 33) % k
    };
    for round in 0..150 {
        let n = 3 + (round % 4) as usize;
        let mut f: Vec<Vec<i32>> = Vec::new();
        for _ in 0..(2 + next(4 * n as u64)) {
            let mut c = Vec::new();
            for _ in 0..(1 + next(3)) {
                let v = 1 + next(n as u64) as i32;
                c.push(if next(2) == 0 { v } else { -v });
            }
            f.push(c);
        }
        match solve_formula(n, &f, &Config::default(), 2, 1_000_000) {
            Verdict::Sat(m) => assert!(f.iter().all(|c| holds(&m, c))),
            Verdict::Unsat => assert!(satisfiable(n, &f).is_none()),
            Verdict::Unknown => panic!("budget ran out"),
            Verdict::Fault => panic!("internal check failed"),
        }
    }
}

#[test]
fn subsumed_clauses_are_dropped() {
    let f = vec![vec![1, 2], vec![2, 1, 3], vec![-1], vec![-1, 4], vec![1, 2]];
    assert_eq!(remove_subsumed(4, &f), vec![vec![1, 2], vec![-1]]);
}
