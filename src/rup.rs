//! An independent checker for refutations: a sequence of clauses, each of
//! which must follow from the formula and the earlier clauses by unit
//! propagation (reverse unit propagation), ending with the empty clause.
use vstd::prelude::*;
use crate::cnf::{clause_holds, clause_ok, formula_ok, is_model, lit_holds, lit_ok, lit_var, satisfies, unsatisfiable};

verus! {

/// The value of literal `l` under the partial assignment `p`.
pub open spec fn partial_value(p: Seq<Option<bool>>, l: i32) -> Option<bool> {
    if l > 0 {
        p[l as int]
    } else {
        match p[-(l as int)] {
            Some(b) => Some(!b),
            None => None,
        }
    }
}

/// The total assignment `m` extends the partial assignment `p`.
pub open spec fn extends(m: Seq<bool>, p: Seq<Option<bool>>) -> bool {
    forall|v: int| 1 <= v < p.len() && #[trigger] p[v] is Some ==> m[v] == p[v]->Some_0
}

/// Every model of `f` over `n` variables satisfies `c`.
pub open spec fn entails(n: nat, f: Seq<Vec<i32>>, c: Seq<i32>) -> bool {
    forall|m: Seq<bool>| is_model(n, m) && satisfies(m, f) ==> clause_holds(m, c)
}

/// Every model of `f` that falsifies `c` extends `p`.
pub open spec fn sound_partial(n: nat, f: Seq<Vec<i32>>, c: Seq<i32>, p: Seq<Option<bool>>) -> bool {
    forall|m: Seq<bool>|
        is_model(n, m) && satisfies(m, f) && !clause_holds(m, c) ==> #[trigger] extends(m, p)
}

proof fn lemma_extends_value(m: Seq<bool>, p: Seq<Option<bool>>, l: i32)
    requires
        extends(m, p),
        l != 0,
        lit_var(l) < p.len(),
        partial_value(p, l) is Some,
    ensures
        lit_holds(m, l) == partial_value(p, l)->Some_0,
{
    if l > 0 {
        assert(p[l as int] is Some);
    } else {
        assert(p[-(l as int)] is Some);
    }
}

/// The value of a literal under a partial assignment.
fn value_of(p: &Vec<Option<bool>>, l: i32) -> (r: Option<bool>)
    requires
        l != 0,
        lit_var(l) < p@.len() <= i32::MAX,
    ensures
        r == partial_value(p@, l),
{
    if l > 0 {
        p[l as usize]
    } else {
        match p[(-l) as usize] {
            Some(b) => Some(!b),
            None => None,
        }
    }
}

/// Clause `d` has a true literal, or two different unassigned ones: it is
/// neither falsified nor unit under `p`.
pub open spec fn is_open(p: Seq<Option<bool>>, d: Seq<i32>) -> bool {
    (exists|t: int| 0 <= t < d.len() && #[trigger] partial_value(p, d[t]) == Some(true)) || (exists|t1: int, t2: int|
        0 <= t1 < d.len() && 0 <= t2 < d.len() && d[t1] != d[t2] && #[trigger] partial_value(p, d[t1]) is None
            && #[trigger] partial_value(p, d[t2]) is None)
}

/// What a clause says under a partial assignment.
pub(crate) enum Status {
    /// Some literal is true, or two are unassigned.
    Open,
    /// Every literal is false.
    Falsified,
    /// Every literal but this unassigned one is false.
    Unit(i32),
}

pub(crate) fn clause_status(p: &Vec<Option<bool>>, d: &Vec<i32>) -> (r: Status)
    requires
        clause_ok((p@.len() - 1) as nat, d@),
        1 <= p@.len() <= i32::MAX,
    ensures
        r is Open ==> is_open(p@, d@),
        r is Falsified ==> forall|t: int|
            0 <= t < d@.len() ==> partial_value(p@, #[trigger] d@[t]) == Some(false),
        r matches Status::Unit(u) ==> partial_value(p@, u) is None && lit_ok(
            (p@.len() - 1) as nat,
            u,
        ) && (exists|t: int| 0 <= t < d@.len() && d@[t] == u) && forall|t: int|
            0 <= t < d@.len() && d@[t] != u ==> partial_value(p@, #[trigger] d@[t]) == Some(
                false,
            ),
{
    let mut unknown: usize = 0;
    let mut last: i32 = 0;
    let mut k: usize = 0;
    while k < d.len()
        invariant
            k <= d@.len(),
            1 <= p@.len() <= i32::MAX,
            clause_ok((p@.len() - 1) as nat, d@),
            unknown <= 1,
            unknown == 0 ==> forall|t: int|
                0 <= t < k ==> partial_value(p@, #[trigger] d@[t]) == Some(false),
            unknown == 1 ==> partial_value(p@, last) is None && lit_ok((p@.len() - 1) as nat, last)
                && (exists|t: int| 0 <= t < k && d@[t] == last) && forall|t: int|
                0 <= t < k && d@[t] != last ==> partial_value(p@, #[trigger] d@[t]) == Some(
                    false,
                ),
        decreases d@.len() - k,
    {
        let l = d[k];
        assert(lit_ok((p@.len() - 1) as nat, d@[k as int]));
        match value_of(p, l) {
            Some(true) => {
                proof {
                    assert(partial_value(p@, d@[k as int]) == Some(true));
                }
                return Status::Open;
            },
            Some(false) => {},
            None => {
                if unknown == 1 && l != last {
                    proof {
                        let t = choose|t: int| 0 <= t < k && d@[t] == last;
                        assert(partial_value(p@, d@[t]) is None && partial_value(p@, d@[k as int]) is None && d@[t] != d@[k as int]);
                    }
                    return Status::Open;
                }
                unknown = 1;
                last = l;
            },
        }
        k += 1;
    }
    if unknown == 0 {
        Status::Falsified
    } else {
        Status::Unit(last)
    }
}

/// Whether unit propagation on `f` from the negation of `c` reaches a
/// conflict. When it does, `c` follows from `f`.
pub fn is_rup(n: usize, f: &Vec<Vec<i32>>, c: &Vec<i32>) -> (r: bool)
    requires
        formula_ok(n as nat, f@),
        clause_ok(n as nat, c@),
    ensures
        r ==> entails(n as nat, f@, c@),
{
    let mut p: Vec<Option<bool>> = Vec::new();
    let mut v: usize = 0;
    while v <= n
        invariant
            v <= n + 1,
            n < i32::MAX,
            p@.len() == v,
            forall|w: int| 0 <= w < v ==> #[trigger] p@[w] is None,
        decreases n + 1 - v,
    {
        p.push(None);
        v += 1;
    }
    proof {
        assert forall|m: Seq<bool>|
            is_model(n as nat, m) && satisfies(m, f@) && !clause_holds(m, c@) implies #[trigger] extends(
            m,
            p@,
        ) by {}
    }
    let mut j: usize = 0;
    while j < c.len()
        invariant
            j <= c@.len(),
            formula_ok(n as nat, f@),
            clause_ok(n as nat, c@),
            p@.len() == n + 1,
            sound_partial(n as nat, f@, c@, p@),
        decreases c@.len() - j,
    {
        let l = c[j];
        assert(lit_ok(n as nat, c@[j as int]));
        let w: usize = if l < 0 { (-l) as usize } else { l as usize };
        if value_of(&p, l) == Some(true) {
            return false;
        }
        let ghost p0 = p@;
        p.set(w, Some(l < 0));
        proof {
            assert forall|m: Seq<bool>|
                is_model(n as nat, m) && satisfies(m, f@) && !clause_holds(m, c@) implies #[trigger] extends(
                m,
                p@,
            ) by {
                assert(extends(m, p0));
                assert(!lit_holds(m, c@[j as int]));
                assert forall|x: int| 1 <= x < p@.len() && #[trigger] p@[x] is Some implies m[x]
                    == p@[x]->Some_0 by {
                    if x != w {
                        assert(p0[x] == p@[x]);
                    }
                }
            }
        }
        j += 1;
    }
    let mut round: usize = 0;
    while round <= n
        invariant
            formula_ok(n as nat, f@),
            clause_ok(n as nat, c@),
            p@.len() == n + 1,
            sound_partial(n as nat, f@, c@, p@),
        decreases n + 1 - round,
    {
        let mut changed = false;
        let mut i: usize = 0;
        while i < f.len()
            invariant
                i <= f@.len(),
                formula_ok(n as nat, f@),
                clause_ok(n as nat, c@),
                p@.len() == n + 1,
                sound_partial(n as nat, f@, c@, p@),
            decreases f@.len() - i,
        {
            assert(clause_ok(n as nat, f@[i as int]@));
            match clause_status(&p, &f[i]) {
                Status::Open => {},
                Status::Falsified => {
                    proof {
                        assert forall|m: Seq<bool>|
                            is_model(n as nat, m) && satisfies(m, f@) implies clause_holds(
                            m,
                            c@,
                        ) by {
                            if !clause_holds(m, c@) {
                                assert(extends(m, p@));
                                let d = f@[i as int]@;
                                assert(clause_holds(m, d));
                                let t = choose|t: int| 0 <= t < d.len() && lit_holds(m, d[t]);
                                assert(lit_ok(n as nat, d[t]));
                                lemma_extends_value(m, p@, d[t]);
                            }
                        }
                    }
                    return true;
                },
                Status::Unit(u) => {
                    let w: usize = if u < 0 { (-u) as usize } else { u as usize };
                    let ghost p0 = p@;
                    p.set(w, Some(u > 0));
                    changed = true;
                    proof {
                        assert forall|m: Seq<bool>|
                            is_model(n as nat, m) && satisfies(m, f@) && !clause_holds(
                                m,
                                c@,
                            ) implies #[trigger] extends(m, p@) by {
                            assert(extends(m, p0));
                            let d = f@[i as int]@;
                            assert(clause_holds(m, d));
                            let t = choose|t: int| 0 <= t < d.len() && lit_holds(m, d[t]);
                            assert(lit_ok(n as nat, d[t]));
                            if d[t] != u {
                                lemma_extends_value(m, p0, d[t]);
                            }
                            assert(lit_holds(m, u));
                            assert forall|x: int|
                                1 <= x < p@.len() && #[trigger] p@[x] is Some implies m[x]
                                == p@[x]->Some_0 by {
                                if x != w {
                                    assert(p0[x] == p@[x]);
                                }
                            }
                        }
                    }
                },
            }
            i += 1;
        }
        if !changed {
            return false;
        }
        round += 1;
    }
    false
}

/// Whether `cert` refutes `f`: each of its clauses follows from `f` and the
/// clauses before it by unit propagation, and one of them is empty.
pub fn check_refutation(n: usize, f: &Vec<Vec<i32>>, cert: &Vec<Vec<i32>>) -> (r: bool)
    requires
        formula_ok(n as nat, f@),
    ensures
        r ==> unsatisfiable(n as nat, f@),
{
    let mut db: Vec<Vec<i32>> = Vec::new();
    let mut i: usize = 0;
    while i < f.len()
        invariant
            i <= f@.len(),
            db@.len() == i,
            formula_ok(n as nat, f@),
            forall|k: int| 0 <= k < i ==> #[trigger] db@[k]@ == f@[k]@,
        decreases f@.len() - i,
    {
        db.push(copy_clause(&f[i]));
        i += 1;
    }
    proof {
        assert forall|m: Seq<bool>| is_model(n as nat, m) && satisfies(m, f@) implies satisfies(
            m,
            db@,
        ) by {
            assert forall|k: int| 0 <= k < db@.len() implies clause_holds(m, #[trigger] db@[k]@) by {
                assert(clause_holds(m, f@[k]@));
            }
        }
    }
    let mut j: usize = 0;
    while j < cert.len()
        invariant
            j <= cert@.len(),
            formula_ok(n as nat, f@),
            formula_ok(n as nat, db@),
            forall|m: Seq<bool>| is_model(n as nat, m) && satisfies(m, f@) ==> satisfies(m, db@),
        decreases cert@.len() - j,
    {
        let c = &cert[j];
        if !clause_in_range(n, c) {
            return false;
        }
        if !is_rup(n, &db, c) {
            return false;
        }
        if c.len() == 0 {
            return true;
        }
        let ghost d0 = db@;
        db.push(copy_clause(c));
        proof {
            assert forall|m: Seq<bool>| is_model(n as nat, m) && satisfies(m, f@) implies satisfies(
                m,
                db@,
            ) by {
                assert(satisfies(m, d0));
                assert forall|k: int| 0 <= k < db@.len() implies clause_holds(m, #[trigger] db@[k]@) by {
                    if k < d0.len() {
                        assert(db@[k] == d0[k]);
                    }
                }
            }
        }
        j += 1;
    }
    false
}

/// A copy of a clause.
pub fn copy_clause(c: &Vec<i32>) -> (r: Vec<i32>)
    ensures
        r@ == c@,
{
    let mut r: Vec<i32> = Vec::new();
    let mut k: usize = 0;
    while k < c.len()
        invariant
            k <= c@.len(),
            r@ == c@.subrange(0, k as int),
        decreases c@.len() - k,
    {
        r.push(c[k]);
        k += 1;
        assert(r@ =~= c@.subrange(0, k as int));
    }
    assert(r@ =~= c@);
    r
}

/// Whether every literal of `c` names a variable in `[1, n]`.
pub fn clause_in_range(n: usize, c: &Vec<i32>) -> (r: bool)
    requires
        n < i32::MAX,
    ensures
        r == clause_ok(n as nat, c@),
{
    let mut k: usize = 0;
    while k < c.len()
        invariant
            k <= c@.len(),
            n < i32::MAX,
            forall|t: int| 0 <= t < k ==> lit_ok(n as nat, #[trigger] c@[t]),
        decreases c@.len() - k,
    {
        let l = c[k];
        if l == 0 || l == i32::MIN || (if l < 0 { -l } else { l }) as usize > n {
            return false;
        }
        k += 1;
    }
    true
}

} // verus!
