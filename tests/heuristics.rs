use splr::heuristics::{VarActivity, ACTIVITY_LIMIT};
use splr::restart::{ema_update, RestartPolicy, EMA_CAP};

#[test]
fn ema_moves_towards_the_input() {
    assert_eq!(ema_update(0, 10, 50), 51);
    assert_eq!(ema_update(2560, 10, 50), 2560);
    assert_eq!(ema_update(100, 0, 1), 0);
    assert_eq!(ema_update(EMA_CAP, u32::MAX as u64, 2), EMA_CAP - 128);
}

#[test]
fn restart_is_forced_by_bad_clauses() {
    let mut p = RestartPolicy::new(2, 2, 1, 70, 1000);
    p.lbd_slow = 256;
    p.asg = EMA_CAP;
    assert!(p.on_conflict(100, 1));
    assert_eq!(p.since, 0);
    assert_eq!(p.restarts, 1);
}

#[test]
fn restart_waits_for_the_step() {
    let mut p = RestartPolicy::new(2, 2, 5, 70, 140);
    p.lbd_slow = 256;
    p.asg = EMA_CAP;
    assert!(!p.on_conflict(100, 1));
    assert_eq!(p.since, 1);
}

#[test]
fn restart_is_blocked_by_a_long_trail() {
    let mut p = RestartPolicy::new(2, 2, 1, 70, 140);
    p.lbd_slow = 256;
    p.asg = 256;
    assert!(!p.on_conflict(100, 100));
    assert_eq!(p.blocks, 1);
    assert_eq!(p.restarts, 0);
}

#[test]
fn bump_and_decay() {
    let mut a = VarActivity::new(3);
    a.bump_var(2);
    assert_eq!(a.score, vec![0, 0, 1, 0]);
    a.decay();
    assert_eq!(a.bump, 2);
    a.bump_var(1);
    assert_eq!(a.score, vec![0, 2, 1, 0]);
}

#[test]
fn rescale_keeps_order() {
    let mut a = VarActivity::new(2);
    a.score[1] = ACTIVITY_LIMIT;
    a.score[2] = ACTIVITY_LIMIT / 2;
    a.bump = 1 << 31;
    a.bump_var(1);
    assert_eq!(a.score[1], (ACTIVITY_LIMIT + (1 << 31)) >> 30);
    assert_eq!(a.score[2], ACTIVITY_LIMIT >> 31);
    assert_eq!(a.bump, 3);
}
