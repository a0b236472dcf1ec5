//! A whole solve: variable elimination before the search, the search on
//! what remains, and the rebuilding of a model of the given formula.
use vstd::prelude::*;
use crate::cnf::{clause_ok, formula_ok, is_model, satisfies, unsatisfiable};
use crate::config::Config;
use crate::eliminator::{eliminate_var, extend_model, lemma_elimination_equivalence, remove_subsumed, Elimination};
use crate::rup::copy_clause;
use crate::solver::{Solver, Verdict};
use crate::validator::validate;

verus! {

/// A copy of a formula.
pub fn copy_formula(f: &Vec<Vec<i32>>) -> (r: Vec<Vec<i32>>)
    ensures
        r@.len() == f@.len(),
        forall|i: int| 0 <= i < f@.len() ==> (#[trigger] r@[i])@ == f@[i]@,
{
    let mut r: Vec<Vec<i32>> = Vec::new();
    let mut i: usize = 0;
    while i < f.len()
        invariant
            i <= f@.len(),
            r@.len() == i,
            forall|k: int| 0 <= k < i ==> (#[trigger] r@[k])@ == f@[k]@,
        decreases f@.len() - i,
    {
        r.push(copy_clause(&f[i]));
        i += 1;
    }
    r
}

/// Two formulas with the same clauses have the same models.
proof fn lemma_same_models(f: Seq<Vec<i32>>, g: Seq<Vec<i32>>, m: Seq<bool>)
    requires
        f.len() == g.len(),
        forall|i: int| 0 <= i < f.len() ==> (#[trigger] f[i])@ == g[i]@,
    ensures
        satisfies(m, f) == satisfies(m, g),
{
    if satisfies(m, f) {
        assert forall|i: int| 0 <= i < g.len() implies crate::cnf::clause_holds(m, #[trigger] g[i]@) by {
            assert(crate::cnf::clause_holds(m, f[i]@));
        }
    }
    if satisfies(m, g) {
        assert forall|i: int| 0 <= i < f.len() implies crate::cnf::clause_holds(m, #[trigger] f[i]@) by {
            assert(crate::cnf::clause_holds(m, g[i]@));
        }
    }
}

/// Solves `f` over `n` variables: drops subsumed clauses, eliminates, in turn, each variable whose
/// elimination adds at most `grow_limit` clauses, searches the rest for at
/// most `steps` steps, and extends a model found back over the eliminated
/// variables. A model is checked against `f` before it is reported.
pub fn solve_formula(n: usize, f: &Vec<Vec<i32>>, config: &Config, grow_limit: usize, steps: u64) -> (r: Verdict)
    requires
        formula_ok(n as nat, f@),
        config.valid(),
    ensures
        r matches Verdict::Sat(m) ==> is_model(n as nat, m@) && satisfies(m@, f@),
        r is Unsat ==> unsatisfiable(n as nat, f@),
{
    let mut cur = remove_subsumed(n, f);
    let mut elims: Vec<Elimination> = Vec::new();
    let mut v: usize = 1;
    while v <= n
        invariant
            formula_ok(n as nat, f@),
            formula_ok(n as nat, cur@),
            1 <= v <= n + 1,
            n < i32::MAX,
            forall|m: Seq<bool>| is_model(n as nat, m) && satisfies(m, f@) ==> satisfies(m, cur@),
            forall|i: int| 0 <= i < elims@.len() ==> 1 <= (#[trigger] elims@[i]).var <= n && forall|k: int|
                0 <= k < elims@[i].pos@.len() ==> clause_ok(n as nat, (#[trigger] elims@[i].pos@[k])@),
        decreases n + 1 - v,
    {
        let e = eliminate_var(n, &cur, v as i32);
        if e.rest.len() <= cur.len() || e.rest.len() - cur.len() <= grow_limit {
            let next = copy_formula(&e.rest);
            proof {
                lemma_elimination_equivalence(n as nat, cur@, e, v as int);
                assert forall|m: Seq<bool>| is_model(n as nat, m) && satisfies(m, f@) implies satisfies(m, next@) by {
                    lemma_same_models(e.rest@, next@, m);
                }
                assert forall|k: int| 0 <= k < next@.len() implies clause_ok(n as nat, #[trigger] next@[k]@) by {
                    assert(clause_ok(n as nat, e.rest@[k]@));
                }
            }
            cur = next;
            elims.push(e);
        }
        v += 1;
    }
    let mut s = match Solver::build(n, &cur, config) {
        Ok(s) => s,
        Err(_) => {
            return Verdict::Fault;
        },
    };
    let ghost reduced = cur@;
    match s.solve(steps) {
        Verdict::Sat(m0) => {
            let mut m = m0;
            let mut i: usize = elims.len();
            while i > 0
                invariant
                    i <= elims@.len(),
                    n < i32::MAX,
                    is_model(n as nat, m@),
                    forall|x: int| 0 <= x < elims@.len() ==> 1 <= (#[trigger] elims@[x]).var <= n && forall|k: int|
                        0 <= k < elims@[x].pos@.len() ==> clause_ok(n as nat, (#[trigger] elims@[x].pos@[k])@),
                decreases i,
            {
                i -= 1;
                assert(1 <= elims@[i as int].var <= n);
                extend_model(&mut m, &elims[i]);
            }
            if validate(&m, f).is_none() {
                Verdict::Sat(m)
            } else {
                Verdict::Fault
            }
        },
        Verdict::Unsat => {
            proof {
                assert forall|m: Seq<bool>| is_model(n as nat, m) implies !satisfies(m, f@) by {
                    lemma_same_models(s.original@, reduced, m);
                }
            }
            Verdict::Unsat
        },
        Verdict::Unknown => Verdict::Unknown,
        Verdict::Fault => Verdict::Fault,
    }
}

} // verus!
