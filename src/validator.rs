//! Checking a candidate assignment against a formula.
use vstd::prelude::*;
use crate::cnf::{clause_holds, clause_ok, eval_clause, formula_ok, lit_ok, satisfies};

verus! {

/// Why a candidate assignment cannot be turned into a total assignment.
#[derive(Debug, Clone, Copy, PartialEq, Eq, Structural)]
pub enum InjectError {
    /// No literal was given: the answer claims no model.
    Empty,
    /// A literal is zero or names a variable outside `[1, n]`.
    OutOfRange,
    /// A variable is given both polarities.
    Contradiction,
}

/// The total assignment that a list of true literals describes: a variable
/// is true exactly when it occurs positively.
pub open spec fn model_of(n: nat, lits: Seq<i32>) -> Seq<bool> {
    Seq::new(n + 1, |v: int| exists|j: int| 0 <= j < lits.len() && lits[j] as int == v && v > 0)
}

/// Some variable occurs both positively and negatively.
pub open spec fn has_contradiction(lits: Seq<i32>) -> bool {
    exists|j: int, k: int|
        0 <= j < lits.len() && 0 <= k < lits.len() && lits[j] as int == -(lits[k] as int)
}

/// Turns a list of true literals over `n` variables into a total assignment.
pub fn inject_assignment(n: usize, lits: &Vec<i32>) -> (r: Result<Vec<bool>, InjectError>)
    requires
        n < i32::MAX,
    ensures
        lits@.len() == 0 ==> r == Err::<Vec<bool>, InjectError>(InjectError::Empty),
        lits@.len() > 0 && !clause_ok(n as nat, lits@) ==> r == Err::<Vec<bool>, InjectError>(
            InjectError::OutOfRange,
        ),
        lits@.len() > 0 && clause_ok(n as nat, lits@) && has_contradiction(lits@) ==> r == Err::<
            Vec<bool>,
            InjectError,
        >(InjectError::Contradiction),
        lits@.len() > 0 && clause_ok(n as nat, lits@) && !has_contradiction(lits@) ==> r is Ok
            && r->Ok_0@ == model_of(n as nat, lits@),
{
    if lits.len() == 0 {
        return Err(InjectError::Empty);
    }
    let mut j: usize = 0;
    while j < lits.len()
        invariant
            j <= lits@.len(),
            n < i32::MAX,
            forall|k: int| 0 <= k < j ==> lit_ok(n as nat, #[trigger] lits@[k]),
        decreases lits@.len() - j,
    {
        let l = lits[j];
        if l == 0 || l == i32::MIN || (if l < 0 { -l } else { l }) as usize > n {
            return Err(InjectError::OutOfRange);
        }
        j += 1;
    }
    let mut seen: Vec<Option<bool>> = Vec::new();
    let mut v: usize = 0;
    while v <= n
        invariant
            v <= n + 1,
            n < i32::MAX,
            seen@.len() == v,
            forall|w: int| 0 <= w < v ==> #[trigger] seen@[w] is None,
        decreases n + 1 - v,
    {
        seen.push(None);
        v += 1;
    }
    let mut j: usize = 0;
    while j < lits.len()
        invariant
            j <= lits@.len(),
            n < i32::MAX,
            clause_ok(n as nat, lits@),
            seen@.len() == n + 1,
            forall|w: int|
                #![trigger seen@[w]]
                1 <= w <= n ==> (seen@[w] == Some(true) <==> exists|k: int|
                    0 <= k < j && lits@[k] as int == w) && (seen@[w] == Some(false)
                    <==> exists|k: int| 0 <= k < j && lits@[k] as int == -w),
            forall|a: int, b: int|
                0 <= a < j && 0 <= b < j ==> lits@[a] as int != -(lits@[b] as int),
        decreases lits@.len() - j,
    {
        let l = lits[j];
        assert(lit_ok(n as nat, lits@[j as int]));
        let w: usize = if l < 0 { (-l) as usize } else { l as usize };
        let pos = l > 0;
        let ghost s0 = seen@;
        match seen[w] {
            Some(b) => {
                if b != pos {
                    proof {
                        if b {
                            let k = choose|k: int| 0 <= k < j && lits@[k] as int == w;
                            assert(lits@[k] as int == -(lits@[j as int] as int));
                        } else {
                            let k = choose|k: int| 0 <= k < j && lits@[k] as int == -w;
                            assert(lits@[k] as int == -(lits@[j as int] as int));
                        }
                    }
                    return Err(InjectError::Contradiction);
                }
            },
            None => {
                seen.set(w, Some(pos));
            },
        }
        proof {
            assert(s0[w as int] is None || s0[w as int] == Some(pos));
            assert forall|a: int, b: int|
                0 <= a < j + 1 && 0 <= b < j + 1 implies lits@[a] as int != -(
                lits@[b] as int) by {
                if a == j && b < j && lits@[b] as int == -(lits@[a] as int) {
                    if pos {
                        assert(s0[w as int] == Some(false));
                    } else {
                        assert(s0[w as int] == Some(true));
                    }
                }
                if b == j && a < j && lits@[b] as int == -(lits@[a] as int) {
                    if pos {
                        assert(s0[w as int] == Some(false));
                    } else {
                        assert(s0[w as int] == Some(true));
                    }
                }
            }
            assert forall|x: int|
                #![trigger seen@[x]]
                1 <= x <= n implies (seen@[x] == Some(true) <==> exists|k: int|
                    0 <= k < j + 1 && lits@[k] as int == x) && (seen@[x] == Some(false)
                    <==> exists|k: int| 0 <= k < j + 1 && lits@[k] as int == -x) by {
                if x == w {
                    if pos {
                        assert(lits@[j as int] as int == x);
                    } else {
                        assert(lits@[j as int] as int == -x);
                    }
                } else {
                    assert(s0[x] == seen@[x]);
                    assert(lits@[j as int] as int != x && lits@[j as int] as int != -x);
                }
            }
        }
        j += 1;
    }
    let mut m: Vec<bool> = Vec::new();
    let mut v: usize = 0;
    while v <= n
        invariant
            v <= n + 1,
            n < i32::MAX,
            seen@.len() == n + 1,
            m@.len() == v,
            forall|w: int|
                #![trigger seen@[w]]
                1 <= w <= n ==> (seen@[w] == Some(true) <==> exists|k: int|
                    0 <= k < lits@.len() && lits@[k] as int == w),
            forall|w: int| 0 <= w < v ==> #[trigger] m@[w] == model_of(n as nat, lits@)[w],
        decreases n + 1 - v,
    {
        m.push(v > 0 && seen[v] == Some(true));
        v += 1;
    }
    assert(m@ =~= model_of(n as nat, lits@));
    Ok(m)
}

/// The index of the first clause of `f` that `m` leaves false, or `None`
/// when `m` satisfies every clause.
pub fn validate(m: &Vec<bool>, f: &Vec<Vec<i32>>) -> (r: Option<usize>)
    requires
        1 <= m@.len() <= i32::MAX,
        formula_ok((m@.len() - 1) as nat, f@),
    ensures
        r is None <==> satisfies(m@, f@),
        r matches Some(i) ==> i < f@.len() && !clause_holds(m@, f@[i as int]@) && forall|k: int|
            0 <= k < i ==> clause_holds(m@, #[trigger] f@[k]@),
{
    let mut i: usize = 0;
    while i < f.len()
        invariant
            i <= f@.len(),
            1 <= m@.len() <= i32::MAX,
            formula_ok((m@.len() - 1) as nat, f@),
            forall|k: int| 0 <= k < i ==> clause_holds(m@, #[trigger] f@[k]@),
        decreases f@.len() - i,
    {
        if !eval_clause(m, &f[i]) {
            return Some(i);
        }
        i += 1;
    }
    None
}

} // verus!
