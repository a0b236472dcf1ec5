//! Reading a formula in DIMACS CNF: comment lines start with `c`, a header
//! line `p cnf <variables> <clauses>` comes before the clauses, and each
//! clause is a run of nonzero literals ended by `0`. A line starting with
//! `%` ends the formula.
use vstd::prelude::*;
use crate::answer::{is_space, parse_token};
use crate::cnf::{clause_ok, formula_ok, lit_ok};

verus! {

/// Why a text is not a formula.
#[derive(Debug, Clone, Copy, PartialEq, Eq, Structural)]
pub enum CnfError {
    /// A literal comes before the header, or there is no header.
    NoHeader,
    /// The header is not `p cnf` with two counts in range.
    BadHeader,
    /// A token at this position is not an integer in the range of `i32`.
    BadToken(usize),
    /// The literal at this position names a variable above the count.
    BadLiteral(usize),
}

/// The bounds of the next token in `t[i..e]`, or `(e, e)` when none is left.
fn next_token(t: &[u8], i: usize, e: usize) -> (r: (usize, usize))
    requires
        i <= e <= t@.len(),
    ensures
        i <= r.0 <= r.1 <= e,
        r.0 == e || r.0 < r.1,
        forall|j: int| i <= j < r.0 ==> is_space(#[trigger] t@[j]),
        forall|j: int| r.0 <= j < r.1 ==> !is_space(#[trigger] t@[j]),
        r.1 < e ==> is_space(t@[r.1 as int]),
{
    let mut a = i;
    while a < e && (t[a] == 0x20 || t[a] == 0x09 || t[a] == 0x0a || t[a] == 0x0b || t[a] == 0x0c || t[a] == 0x0d)
        invariant
            i <= a <= e <= t@.len(),
            forall|j: int| i <= j < a ==> is_space(#[trigger] t@[j]),
        decreases e - a,
    {
        a += 1;
    }
    let mut b = a;
    while b < e && !(t[b] == 0x20 || t[b] == 0x09 || t[b] == 0x0a || t[b] == 0x0b || t[b] == 0x0c || t[b] == 0x0d)
        invariant
            a <= b <= e <= t@.len(),
            forall|j: int| a <= j < b ==> !is_space(#[trigger] t@[j]),
        decreases e - b,
    {
        b += 1;
    }
    (a, b)
}

/// Reads a formula: its variable count and its clauses. A last clause
/// without its `0` is kept.
pub fn parse_cnf(t: &[u8]) -> (r: Result<(usize, Vec<Vec<i32>>), CnfError>)
    ensures
        r matches Ok((n, f)) ==> formula_ok(n as nat, f@),
{
    let mut n: usize = 0;
    let mut header = false;
    let mut clauses: Vec<Vec<i32>> = Vec::new();
    let mut cur: Vec<i32> = Vec::new();
    let mut i: usize = 0;
    while i < t.len()
        invariant
            i <= t@.len(),
            n < i32::MAX,
            formula_ok(n as nat, clauses@),
            clause_ok(n as nat, cur@),
            !header ==> cur@.len() == 0 && clauses@.len() == 0,
        decreases t@.len() - i,
    {
        let mut e: usize = i;
        while e < t.len() && t[e] != 0x0a
            invariant
                i <= e <= t@.len(),
            decreases t@.len() - e,
        {
            e += 1;
        }
        if e > i && t[i] == 0x25 {
            break;
        }
        if e > i && t[i] == 0x70 {
            if header {
                return Err(CnfError::BadHeader);
            }
            let (a0, b0) = next_token(t, i + 1, e);
            if b0 - a0 != 3 || t[a0] != 0x63 || t[a0 + 1] != 0x6e || t[a0 + 2] != 0x66 {
                return Err(CnfError::BadHeader);
            }
            let (a1, b1) = next_token(t, b0, e);
            let (a2, b2) = next_token(t, b1, e);
            match (parse_token(t, a1, b1), parse_token(t, a2, b2)) {
                (Some(v), Some(c)) => {
                    if v < 0 || c < 0 || v == i32::MAX {
                        return Err(CnfError::BadHeader);
                    }
                    n = v as usize;
                    header = true;
                },
                _ => {
                    return Err(CnfError::BadHeader);
                },
            }
        } else if !(e > i && t[i] == 0x63) {
            let mut p: usize = i;
            while p < e
                invariant
                    i <= p <= e <= t@.len(),
                    n < i32::MAX,
                    formula_ok(n as nat, clauses@),
                    clause_ok(n as nat, cur@),
                    !header ==> cur@.len() == 0 && clauses@.len() == 0,
                decreases e - p,
            {
                let (a, b) = next_token(t, p, e);
                if a == e {
                    break;
                }
                if !header {
                    return Err(CnfError::NoHeader);
                }
                match parse_token(t, a, b) {
                    None => {
                        return Err(CnfError::BadToken(a));
                    },
                    Some(x) => {
                        if x == 0 {
                            let ghost f0 = clauses@;
                            clauses.push(cur);
                            cur = Vec::new();
                            proof {
                                assert forall|k: int| 0 <= k < clauses@.len() implies clause_ok(n as nat, #[trigger] clauses@[k]@) by {
                                    if k < f0.len() {
                                        assert(clauses@[k] == f0[k]);
                                    }
                                }
                            }
                        } else {
                            if x == i32::MIN || (if x < 0 { -x } else { x }) as usize > n {
                                return Err(CnfError::BadLiteral(a));
                            }
                            let ghost c0 = cur@;
                            cur.push(x);
                            proof {
                                assert forall|k: int| 0 <= k < cur@.len() implies lit_ok(n as nat, #[trigger] cur@[k]) by {
                                    if k < c0.len() {
                                        assert(cur@[k] == c0[k]);
                                    }
                                }
                            }
                        }
                    },
                }
                p = b;
            }
        }
        if e >= t.len() {
            break;
        }
        i = e + 1;
    }
    if !header {
        return Err(CnfError::NoHeader);
    }
    if cur.len() > 0 {
        let ghost f0 = clauses@;
        clauses.push(cur);
        proof {
            assert forall|k: int| 0 <= k < clauses@.len() implies clause_ok(n as nat, #[trigger] clauses@[k]@) by {
                if k < f0.len() {
                    assert(clauses@[k] == f0[k]);
                }
            }
        }
    }
    Ok((n, clauses))
}

} // verus!
