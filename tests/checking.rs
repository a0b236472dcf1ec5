use splr::answer::{read_assignment, BadToken};
use splr::rup::{check_refutation, is_rup};
use splr::validator::{inject_assignment, validate, InjectError};

#[test]
fn reads_the_first_line_that_is_no_comment() {
    let t = b"c comment\nc another\n1 -2 3 0\n4 5 0\n";
    assert_eq!(read_assignment(t), Ok(vec![1, -2, 3]));
}

#[test]
fn reads_until_the_end_of_line_without_zero() {
    assert_eq!(read_assignment(b"  -7\t8  \n9 0"), Ok(vec![-7, 8]));
}

#[test]
fn reads_nothing_from_comments_only() {
    assert_eq!(read_assignment(b"c only\nc comments"), Ok(vec![]));
    assert_eq!(read_assignment(b""), Ok(vec![]));
}

#[test]
fn an_unsat_answer_has_no_literals() {
    assert_eq!(read_assignment(b"c x\ns UNSATISFIABLE\n0\n"), Err(BadToken { at: 4 }));
    assert_eq!(read_assignment(b"c x\n0\n"), Ok(vec![]));
}

#[test]
fn reads_signs_and_extremes() {
    assert_eq!(read_assignment(b"+5 -2147483648 2147483647 0"), Ok(vec![5, i32::MIN, i32::MAX]));
}

#[test]
fn rejects_bad_tokens() {
    assert_eq!(read_assignment(b"1 x 0"), Err(BadToken { at: 2 }));
    assert_eq!(read_assignment(b"2147483648 0"), Err(BadToken { at: 0 }));
    assert_eq!(read_assignment(b"1 - 0"), Err(BadToken { at: 2 }));
    assert_eq!(read_assignment(b"99999999999999999999"), Err(BadToken { at: 0 }));
}

#[test]
fn tokens_after_zero_are_ignored() {
    assert_eq!(read_assignment(b"1 0 x"), Ok(vec![1]));
}

#[test]
fn injects_a_model() {
    assert_eq!(inject_assignment(3, &vec![1, -2, 3]), Ok(vec![false, true, false, true]));
    assert_eq!(inject_assignment(3, &vec![-1]), Ok(vec![false, false, false, false]));
}

#[test]
fn inject_errors() {
    assert_eq!(inject_assignment(3, &vec![]), Err(InjectError::Empty));
    assert_eq!(inject_assignment(3, &vec![1, 4]), Err(InjectError::OutOfRange));
    assert_eq!(inject_assignment(3, &vec![0]), Err(InjectError::OutOfRange));
    assert_eq!(inject_assignment(3, &vec![2, 1, -2]), Err(InjectError::Contradiction));
}

#[test]
fn validate_names_the_first_false_clause() {
    let f = vec![vec![1, 2], vec![-1], vec![-2], vec![3]];
    let m = vec![false, true, false, false];
    assert_eq!(validate(&m, &f), Some(1));
    let good = vec![false, false, true, true];
    assert_eq!(validate(&good, &vec![vec![1, 2], vec![-1], vec![3]]), None);
}

#[test]
fn rup_follows_by_propagation() {
    let f = vec![vec![1, 2], vec![-1, 2]];
    assert!(is_rup(2, &f, &vec![2]));
    assert!(!is_rup(2, &f, &vec![1]));
}

#[test]
fn refutation_needs_the_empty_clause() {
    let f = vec![vec![1, 2], vec![-1, 2], vec![1, -2], vec![-1, -2]];
    assert!(check_refutation(2, &f, &vec![vec![2], vec![]]));
    assert!(!check_refutation(2, &f, &vec![vec![2]]));
    let g = vec![vec![1, 2], vec![-1, 2]];
    assert!(!check_refutation(2, &g, &vec![vec![2], vec![]]));
}

#[test]
fn unicode_white_space_separates_tokens() {
    assert_eq!(read_assignment("1\u{a0}2 0\n".as_bytes()), Ok(vec![1, 2]));
    assert_eq!(read_assignment("c x\n-3\u{3000}4\u{2028}5\u{85}0".as_bytes()), Ok(vec![-3, 4, 5]));
    assert_eq!(read_assignment("7\u{2009}\u{200a}8\u{1680}9\u{202f}1\u{205f}0".as_bytes()), Ok(vec![7, 8, 9, 1]));
}

#[test]
fn other_unicode_is_no_space() {
    assert_eq!(read_assignment("1\u{200b}2 0".as_bytes()), Err(BadToken { at: 0 }));
    assert_eq!(read_assignment("c\n4 é 0".as_bytes()), Err(BadToken { at: 4 }));
}
