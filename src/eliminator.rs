//! Bounded variable elimination: a variable is removed by replacing the
//! clauses that hold it by all resolvents on it. The result is satisfiable
//! exactly when the input is, and a model of the result extends to a model
//! of the input by choosing the eliminated variable's value afterwards.
use vstd::prelude::*;
use crate::cnf::{clause_holds, clause_ok, formula_ok, is_model, lit_holds, lit_ok, lit_var, satisfies, unsatisfiable};
use crate::rup::copy_clause;

verus! {

pub open spec fn has_lit(c: Seq<i32>, l: int) -> bool {
    exists|j: int| 0 <= j < c.len() && c[j] as int == l
}

pub open spec fn mentions(c: Seq<i32>, v: int) -> bool {
    exists|j: int| 0 <= j < c.len() && lit_var(c[j]) == v
}

/// `c` holds `v` but not its negation.
pub open spec fn is_pos(c: Seq<i32>, v: int) -> bool {
    has_lit(c, v) && !has_lit(c, -v)
}

/// `c` holds the negation of `v` but not `v`.
pub open spec fn is_neg(c: Seq<i32>, v: int) -> bool {
    has_lit(c, -v) && !has_lit(c, v)
}

/// `r` holds exactly the literals of `p` and `q` whose variable is not `v`.
pub open spec fn is_resolvent(r: Seq<i32>, p: Seq<i32>, q: Seq<i32>, v: int) -> bool {
    &&& forall|j: int| 0 <= j < r.len() ==> lit_var(#[trigger] r[j]) != v && (has_lit(p, r[j] as int) || has_lit(q, r[j] as int))
    &&& forall|j: int| 0 <= j < p.len() && lit_var(#[trigger] p[j]) != v ==> has_lit(r, p[j] as int)
    &&& forall|j: int| 0 <= j < q.len() && lit_var(#[trigger] q[j]) != v ==> has_lit(r, q[j] as int)
}

/// Some literal of `c` on a variable other than `v` is true under `m`.
pub open spec fn holds_without(m: Seq<bool>, c: Seq<i32>, v: int) -> bool {
    exists|j: int| 0 <= j < c.len() && lit_var(c[j]) != v && lit_holds(m, #[trigger] c[j])
}

/// The value given to an eliminated variable: true exactly when some clause
/// that held it positively is not satisfied by its other literals.
pub open spec fn eliminated_value(m: Seq<bool>, pos: Seq<Vec<i32>>, v: int) -> bool {
    exists|i: int| 0 <= i < pos.len() && !holds_without(m, #[trigger] pos[i]@, v)
}

pub open spec fn extended(m: Seq<bool>, pos: Seq<Vec<i32>>, v: int) -> Seq<bool> {
    m.update(v, eliminated_value(m, pos, v))
}

/// The outcome of eliminating `var`.
pub struct Elimination {
    pub var: i32,
    /// The clauses that do not mention `var`, followed by the resolvents.
    pub rest: Vec<Vec<i32>>,
    /// The clauses that held `var` positively.
    pub pos: Vec<Vec<i32>>,
    /// The clauses that held `var` negatively.
    pub neg: Vec<Vec<i32>>,
}

/// Updating a variable that a literal does not name keeps its value.
proof fn lemma_update_other(m: Seq<bool>, l: i32, v: int, b: bool)
    requires
        1 <= v < m.len(),
        l != 0,
        lit_var(l) < m.len(),
        lit_var(l) != v,
    ensures
        lit_holds(m.update(v, b), l) == lit_holds(m, l),
{
}

/// Whether `c` holds the literal `l`.
pub fn contains_lit(c: &Vec<i32>, l: i32) -> (r: bool)
    ensures
        r == has_lit(c@, l as int),
{
    let mut k: usize = 0;
    while k < c.len()
        invariant
            k <= c@.len(),
            forall|j: int| 0 <= j < k ==> c@[j] != l,
        decreases c@.len() - k,
    {
        if c[k] == l {
            return true;
        }
        k += 1;
    }
    false
}

/// Appends to `r` the literals of `c` whose variable is not `v`.
fn push_without(r: &mut Vec<i32>, c: &Vec<i32>, v: i32)
    requires
        v > 0,
    ensures
        final(r)@.len() >= old(r)@.len(),
        final(r)@.subrange(0, old(r)@.len() as int) == old(r)@,
        forall|j: int| old(r)@.len() <= j < final(r)@.len() ==> lit_var(#[trigger] final(r)@[j]) != v && has_lit(c@, final(r)@[j] as int),
        forall|j: int| 0 <= j < c@.len() && lit_var(#[trigger] c@[j]) != v ==> has_lit(final(r)@, c@[j] as int),
{
    let ghost r0 = r@;
    let mut k: usize = 0;
    while k < c.len()
        invariant
            v > 0,
            k <= c@.len(),
            r@.len() >= r0.len(),
            r@.subrange(0, r0.len() as int) == r0,
            forall|j: int| r0.len() <= j < r@.len() ==> lit_var(#[trigger] r@[j]) != v && has_lit(c@, r@[j] as int),
            forall|j: int| 0 <= j < k && lit_var(#[trigger] c@[j]) != v ==> has_lit(r@, c@[j] as int),
        decreases c@.len() - k,
    {
        let l = c[k];
        if l != v && l != -v {
            let ghost r1 = r@;
            r.push(l);
            proof {
                assert(r@.subrange(0, r0.len() as int) =~= r1.subrange(0, r0.len() as int));
                assert forall|j: int| 0 <= j < k + 1 && lit_var(#[trigger] c@[j]) != v implies has_lit(r@, c@[j] as int) by {
                    if j < k {
                        let t = choose|t: int| 0 <= t < r1.len() && r1[t] as int == c@[j] as int;
                        assert(r@[t] == r1[t]);
                    } else {
                        assert(r@[r@.len() - 1] == l);
                    }
                }
                assert forall|j: int| r0.len() <= j < r@.len() implies lit_var(#[trigger] r@[j]) != v && has_lit(c@, r@[j] as int) by {
                    if j < r1.len() {
                        assert(r@[j] == r1[j]);
                    } else {
                        assert(c@[k as int] == l);
                    }
                }
            }
        }
        k += 1;
    }
}

/// The resolvent of `p` and `q` on `v`: their literals on other variables.
pub fn resolve(p: &Vec<i32>, q: &Vec<i32>, v: i32) -> (r: Vec<i32>)
    requires
        v > 0,
    ensures
        is_resolvent(r@, p@, q@, v as int),
{
    let mut r: Vec<i32> = Vec::new();
    push_without(&mut r, p, v);
    let ghost r1 = r@;
    push_without(&mut r, q, v);
    proof {
        assert forall|j: int| 0 <= j < p@.len() && lit_var(#[trigger] p@[j]) != v implies has_lit(r@, p@[j] as int) by {
            let t = choose|t: int| 0 <= t < r1.len() && r1[t] as int == p@[j] as int;
            assert(r@.subrange(0, r1.len() as int)[t] == r@[t]);
        }
        assert forall|j: int| 0 <= j < r@.len() implies lit_var(#[trigger] r@[j]) != v && (has_lit(p@, r@[j] as int) || has_lit(q@, r@[j] as int)) by {
            if j < r1.len() {
                assert(r@.subrange(0, r1.len() as int)[j] == r@[j]);
            }
        }
    }
    r
}

/// Some clause of `rest` is a resolvent of `p` and `q` on `v`.
pub open spec fn has_resolvent_of(rest: Seq<Vec<i32>>, p: Seq<i32>, q: Seq<i32>, v: int) -> bool {
    exists|k: int| 0 <= k < rest.len() && is_resolvent(#[trigger] rest[k]@, p, q, v)
}

/// `c` is a resolvent on `v` of a clause of `pos` and a clause of `neg`.
pub open spec fn from_pair(c: Seq<i32>, pos: Seq<Vec<i32>>, neg: Seq<Vec<i32>>, v: int) -> bool {
    exists|a: int, b: int| 0 <= a < pos.len() && 0 <= b < neg.len() && #[trigger] is_resolvent(c, pos[a]@, neg[b]@, v)
}

/// `c` is a clause of `f` that does not mention `v`.
pub open spec fn kept_from(c: Seq<i32>, f: Seq<Vec<i32>>, v: int) -> bool {
    !mentions(c, v) && exists|i: int| 0 <= i < f.len() && (#[trigger] f[i])@ == c
}

/// Each clause of `rest` is a clause of `f` that does not mention `v`, or a
/// resolvent of a positive and a negative clause.
#[verifier::opaque]
pub open spec fn rest_from(f: Seq<Vec<i32>>, e: Elimination, v: int) -> bool {
    forall|k: int| 0 <= k < e.rest@.len() ==> kept_from((#[trigger] e.rest@[k])@, f, v) || from_pair(e.rest@[k]@, e.pos@, e.neg@, v)
}

/// Every clause of `f` that does not mention `v` is kept in `rest`.
#[verifier::opaque]
pub open spec fn keeps_others(f: Seq<Vec<i32>>, e: Elimination, v: int) -> bool {
    forall|i: int|
        0 <= i < f.len() && !mentions((#[trigger] f[i])@, v) ==> exists|k: int| 0 <= k < e.rest@.len() && e.rest@[k]@ == f[i]@
}

/// Every positive and negative pair has its resolvent in `rest`.
#[verifier::opaque]
pub open spec fn has_resolvents(e: Elimination, v: int) -> bool {
    forall|i: int, j: int|
        0 <= i < e.pos@.len() && 0 <= j < e.neg@.len() ==> has_resolvent_of(e.rest@, (#[trigger] e.pos@[i])@, (#[trigger] e.neg@[j])@, v)
}

/// `pos` and `neg` hold exactly the positive and the negative clauses of `f`.
#[verifier::opaque]
pub open spec fn splits(f: Seq<Vec<i32>>, e: Elimination, v: int) -> bool {
    &&& forall|i: int| 0 <= i < e.pos@.len() ==> is_pos((#[trigger] e.pos@[i])@, v) && exists|t: int| 0 <= t < f.len() && f[t]@ == e.pos@[i]@
    &&& forall|i: int| 0 <= i < e.neg@.len() ==> is_neg((#[trigger] e.neg@[i])@, v) && exists|t: int| 0 <= t < f.len() && f[t]@ == e.neg@[i]@
    &&& forall|t: int| 0 <= t < f.len() && is_pos((#[trigger] f[t])@, v) ==> exists|i: int| 0 <= i < e.pos@.len() && e.pos@[i]@ == f[t]@
    &&& forall|t: int| 0 <= t < f.len() && is_neg((#[trigger] f[t])@, v) ==> exists|i: int| 0 <= i < e.neg@.len() && e.neg@[i]@ == f[t]@
}

/// `e` is the elimination of `v` from `f`.
pub open spec fn eliminates(f: Seq<Vec<i32>>, e: Elimination, v: int) -> bool {
    &&& e.var as int == v
    &&& rest_from(f, e, v)
    &&& keeps_others(f, e, v)
    &&& has_resolvents(e, v)
    &&& splits(f, e, v)
}

proof fn lemma_var_cases(c: Seq<i32>, j: int, v: int)
    requires
        0 <= j < c.len(),
        lit_var(c[j]) == v,
    ensures
        has_lit(c, v) || has_lit(c, -v),
{
    if c[j] as int == v {
        assert(has_lit(c, v));
    } else {
        assert(has_lit(c, -v));
    }
}

proof fn lemma_forward_clause(n: nat, f: Seq<Vec<i32>>, e: Elimination, v: int, m: Seq<bool>, k: int)
    requires
        formula_ok(n, f),
        1 <= v <= n,
        eliminates(f, e, v),
        is_model(n, m),
        satisfies(m, f),
        0 <= k < e.rest@.len(),
    ensures
        clause_holds(m, e.rest@[k]@),
{
    reveal(rest_from);
    reveal(splits);
    let r = e.rest@[k]@;
    if kept_from(r, f, v) {
        let i = choose|i: int| 0 <= i < f.len() && (#[trigger] f[i])@ == r;
        assert(clause_holds(m, f[i]@));
    } else {
        assert(from_pair(r, e.pos@, e.neg@, v));
        let (i, j) = choose|i: int, j: int|
            0 <= i < e.pos@.len() && 0 <= j < e.neg@.len() && is_resolvent(r, e.pos@[i]@, e.neg@[j]@, v);
        let p = e.pos@[i]@;
        let q = e.neg@[j]@;
        assert(is_pos(p, v));
        assert(is_neg(q, v));
        let tp = choose|t: int| 0 <= t < f.len() && f[t]@ == p;
        let tq = choose|t: int| 0 <= t < f.len() && f[t]@ == q;
        assert(clause_holds(m, f[tp]@));
        assert(clause_holds(m, f[tq]@));
        if m[v] {
            let s = choose|s: int| 0 <= s < q.len() && lit_holds(m, q[s]);
            if lit_var(q[s]) == v {
                if q[s] as int == v {
                    assert(has_lit(q, v));
                }
            }
            assert(has_lit(r, q[s] as int));
            let u = choose|u: int| 0 <= u < r.len() && r[u] as int == q[s] as int;
            assert(lit_holds(m, r[u]));
        } else {
            let s = choose|s: int| 0 <= s < p.len() && lit_holds(m, p[s]);
            if lit_var(p[s]) == v {
                if p[s] as int == -v {
                    assert(has_lit(p, -v));
                }
            }
            assert(has_lit(r, p[s] as int));
            let u = choose|u: int| 0 <= u < r.len() && r[u] as int == p[s] as int;
            assert(lit_holds(m, r[u]));
        }
    }
}

proof fn lemma_backward_neg(n: nat, e: Elimination, v: int, m: Seq<bool>, c: Seq<i32>, j: int)
    requires
        clause_ok(n, c),
        1 <= v <= n,
        has_resolvents(e, v),
        is_model(n, m),
        satisfies(m, e.rest@),
        0 <= j < e.neg@.len(),
        e.neg@[j]@ == c,
        has_lit(c, -v),
    ensures
        clause_holds(extended(m, e.pos@, v), c),
{
    let rest = e.rest@;
    let b = eliminated_value(m, e.pos@, v);
    let m2 = extended(m, e.pos@, v);
    let sn = choose|s: int| 0 <= s < c.len() && c[s] as int == -v;
    if !b {
        assert(lit_holds(m2, c[sn]));
    } else {
        reveal(has_resolvents);
        let i = choose|i: int| 0 <= i < e.pos@.len() && !holds_without(m, #[trigger] e.pos@[i]@, v);
        let p = e.pos@[i]@;
        assert(0 <= i < e.pos@.len() && 0 <= j < e.neg@.len());
        assert(has_resolvent_of(rest, e.pos@[i]@, e.neg@[j]@, v));
        let k = choose|k: int| 0 <= k < rest.len() && is_resolvent(#[trigger] rest[k]@, e.pos@[i]@, e.neg@[j]@, v);
        let r = rest[k]@;
        assert(clause_holds(m, r));
        let s = choose|s: int| 0 <= s < r.len() && lit_holds(m, r[s]);
        assert(lit_var(r[s]) != v);
        if has_lit(p, r[s] as int) {
            let u = choose|u: int| 0 <= u < p.len() && p[u] as int == r[s] as int;
            assert(p[u] == r[s]);
            assert(holds_without(m, p, v));
        }
        let u = choose|u: int| 0 <= u < c.len() && c[u] as int == r[s] as int;
        assert(c[u] == r[s]);
        assert(lit_ok(n, c[u]));
        lemma_update_other(m, c[u], v, b);
        assert(lit_holds(m2, c[u]));
    }
}

proof fn lemma_backward_pos(n: nat, e: Elimination, v: int, m: Seq<bool>, c: Seq<i32>, i: int)
    requires
        clause_ok(n, c),
        1 <= v <= n,
        is_model(n, m),
        0 <= i < e.pos@.len(),
        e.pos@[i]@ == c,
        has_lit(c, v),
    ensures
        clause_holds(extended(m, e.pos@, v), c),
{
    let b = eliminated_value(m, e.pos@, v);
    let m2 = extended(m, e.pos@, v);
    if b {
        let sp = choose|s: int| 0 <= s < c.len() && c[s] as int == v;
        assert(lit_holds(m2, c[sp]));
    } else {
        assert(holds_without(m, e.pos@[i]@, v));
        let s = choose|s: int| 0 <= s < c.len() && lit_var(c[s]) != v && lit_holds(m, c[s]);
        assert(lit_ok(n, c[s]));
        lemma_update_other(m, c[s], v, b);
        assert(lit_holds(m2, c[s]));
    }
}

proof fn lemma_backward_other(n: nat, e: Elimination, v: int, m: Seq<bool>, c: Seq<i32>, k: int)
    requires
        clause_ok(n, c),
        1 <= v <= n,
        is_model(n, m),
        satisfies(m, e.rest@),
        0 <= k < e.rest@.len(),
        e.rest@[k]@ == c,
        !mentions(c, v),
    ensures
        clause_holds(extended(m, e.pos@, v), c),
{
    let b = eliminated_value(m, e.pos@, v);
    let m2 = extended(m, e.pos@, v);
    assert(clause_holds(m, e.rest@[k]@));
    let s = choose|s: int| 0 <= s < c.len() && lit_holds(m, c[s]);
    assert(lit_ok(n, c[s]));
    lemma_update_other(m, c[s], v, b);
    assert(lit_holds(m2, c[s]));
}

proof fn lemma_backward_clause(n: nat, f: Seq<Vec<i32>>, e: Elimination, v: int, m: Seq<bool>, t: int)
    requires
        formula_ok(n, f),
        1 <= v <= n,
        eliminates(f, e, v),
        is_model(n, m),
        satisfies(m, e.rest@),
        0 <= t < f.len(),
    ensures
        clause_holds(extended(m, e.pos@, v), f[t]@),
{
    let b = eliminated_value(m, e.pos@, v);
    let m2 = extended(m, e.pos@, v);
    let c = f[t]@;
    assert(clause_ok(n, c));
    if !mentions(c, v) {
        reveal(keeps_others);
        let k = choose|k: int| 0 <= k < e.rest@.len() && e.rest@[k]@ == c;
        lemma_backward_other(n, e, v, m, c, k);
    } else if has_lit(c, v) && has_lit(c, -v) {
        let sp = choose|s: int| 0 <= s < c.len() && c[s] as int == v;
        let sn = choose|s: int| 0 <= s < c.len() && c[s] as int == -v;
        if b {
            assert(lit_holds(m2, c[sp]));
        } else {
            assert(lit_holds(m2, c[sn]));
        }
    } else if has_lit(c, v) {
        reveal(splits);
        assert(is_pos(c, v));
        let i = choose|i: int| 0 <= i < e.pos@.len() && e.pos@[i]@ == c;
        lemma_backward_pos(n, e, v, m, c, i);
    } else {
        reveal(splits);
        let j0 = choose|j: int| 0 <= j < c.len() && lit_var(c[j]) == v;
        lemma_var_cases(c, j0, v);
        assert(is_neg(c, v));
        let j = choose|j: int| 0 <= j < e.neg@.len() && e.neg@[j]@ == c;
        lemma_backward_neg(n, e, v, m, c, j);
    }
}

/// Eliminating a variable keeps the verdict, and the extension rebuilds a
/// model of the input from any model of the result: every model of `f`
/// satisfies the result, every model `m` of the result gives the model
/// `extended(m, pos, v)` of `f`, and so `f` is unsatisfiable exactly when
/// the result is.
pub proof fn lemma_elimination_equivalence(n: nat, f: Seq<Vec<i32>>, e: Elimination, v: int)
    requires
        formula_ok(n, f),
        1 <= v <= n,
        eliminates(f, e, v),
    ensures
        forall|m: Seq<bool>| is_model(n, m) && satisfies(m, f) ==> satisfies(m, e.rest@),
        forall|m: Seq<bool>|
            is_model(n, m) && satisfies(m, e.rest@) ==> #[trigger] satisfies(extended(m, e.pos@, v), f),
        unsatisfiable(n, f) == unsatisfiable(n, e.rest@),
{
    assert forall|m: Seq<bool>| is_model(n, m) && satisfies(m, f) implies satisfies(m, e.rest@) by {
        assert forall|k: int| 0 <= k < e.rest@.len() implies clause_holds(m, #[trigger] e.rest@[k]@) by {
            lemma_forward_clause(n, f, e, v, m, k);
        }
    }
    assert forall|m: Seq<bool>| is_model(n, m) && satisfies(m, e.rest@) implies #[trigger] satisfies(extended(m, e.pos@, v), f) by {
        assert forall|t: int| 0 <= t < f.len() implies clause_holds(extended(m, e.pos@, v), #[trigger] f[t]@) by {
            lemma_backward_clause(n, f, e, v, m, t);
        }
    }
    if unsatisfiable(n, f) {
        assert forall|m: Seq<bool>| is_model(n, m) implies !satisfies(m, e.rest@) by {
            if satisfies(m, e.rest@) {
                assert(satisfies(extended(m, e.pos@, v), f));
                assert(is_model(n, extended(m, e.pos@, v)));
            }
        }
    }
}

/// Whether clause `c` belongs to group `kind` for `v`: 0 for the clauses
/// that do not mention `v`, 1 for the positive ones, 2 for the negative ones.
pub open spec fn in_group(c: Seq<i32>, v: int, kind: u8) -> bool {
    if kind == 0 {
        !mentions(c, v)
    } else if kind == 1 {
        is_pos(c, v)
    } else {
        is_neg(c, v)
    }
}

/// The clauses of `f` in group `kind` for `v`, in order.
fn select_group(n: usize, f: &Vec<Vec<i32>>, v: i32, kind: u8) -> (r: Vec<Vec<i32>>)
    requires
        formula_ok(n as nat, f@),
        1 <= v <= n,
    ensures
        forall|k: int| 0 <= k < r@.len() ==> in_group((#[trigger] r@[k])@, v as int, kind) && clause_ok(n as nat, r@[k]@)
            && exists|i: int| 0 <= i < f@.len() && f@[i]@ == r@[k]@,
        forall|i: int| 0 <= i < f@.len() && in_group((#[trigger] f@[i])@, v as int, kind) ==> exists|k: int| 0 <= k < r@.len() && r@[k]@ == f@[i]@,
{
    let ghost vi = v as int;
    let mut r: Vec<Vec<i32>> = Vec::new();
    let mut t: usize = 0;
    while t < f.len()
        invariant
            t <= f@.len(),
            formula_ok(n as nat, f@),
            1 <= v <= n,
            vi == v as int,
            forall|k: int| 0 <= k < r@.len() ==> in_group((#[trigger] r@[k])@, vi, kind) && clause_ok(n as nat, r@[k]@)
                && exists|i: int| 0 <= i < f@.len() && f@[i]@ == r@[k]@,
            forall|i: int| 0 <= i < t && in_group((#[trigger] f@[i])@, vi, kind) ==> exists|k: int| 0 <= k < r@.len() && r@[k]@ == f@[i]@,
        decreases f@.len() - t,
    {
        let c = &f[t];
        assert(clause_ok(n as nat, f@[t as int]@));
        let hp = contains_lit(c, v);
        let hn = contains_lit(c, -v);
        proof {
            if !hp && !hn && mentions(c@, vi) {
                let j = choose|j: int| 0 <= j < c@.len() && lit_var(c@[j]) == vi;
                lemma_var_cases(c@, j, vi);
            }
            if hp {
                let j = choose|j: int| 0 <= j < c@.len() && c@[j] as int == vi;
                assert(lit_var(c@[j]) == vi);
            }
            if hn {
                let j = choose|j: int| 0 <= j < c@.len() && c@[j] as int == -vi;
                assert(lit_var(c@[j]) == vi);
            }
        }
        let take = if kind == 0 { !hp && !hn } else if kind == 1 { hp && !hn } else { hn && !hp };
        assert(take == in_group(c@, vi, kind));
        let ghost r0 = r@;
        if take {
            r.push(copy_clause(c));
            proof {
                assert forall|k: int| 0 <= k < r@.len() implies in_group((#[trigger] r@[k])@, vi, kind) && clause_ok(n as nat, r@[k]@)
                    && exists|i: int| 0 <= i < f@.len() && f@[i]@ == r@[k]@ by {
                    if k < r0.len() {
                        assert(r@[k] == r0[k]);
                    } else {
                        assert(f@[t as int]@ == r@[k]@);
                    }
                }
                assert forall|i: int| 0 <= i < t + 1 && in_group((#[trigger] f@[i])@, vi, kind) implies exists|k: int| 0 <= k < r@.len() && r@[k]@ == f@[i]@ by {
                    if i < t {
                        let k = choose|k: int| 0 <= k < r0.len() && r0[k]@ == f@[i]@;
                        assert(r@[k] == r0[k]);
                    } else {
                        assert(r@[r@.len() - 1]@ == f@[i]@);
                    }
                }
            }
        }
        t += 1;
    }
    r
}

/// Facts that `select_group` gives about `g` as group `kind` of `f`.
pub open spec fn group_of(n: nat, f: Seq<Vec<i32>>, g: Seq<Vec<i32>>, v: int, kind: u8) -> bool {
    &&& forall|k: int| 0 <= k < g.len() ==> in_group((#[trigger] g[k])@, v, kind) && clause_ok(n, g[k]@)
        && exists|i: int| 0 <= i < f.len() && f[i]@ == g[k]@
    &&& forall|i: int| 0 <= i < f.len() && in_group((#[trigger] f[i])@, v, kind) ==> exists|k: int| 0 <= k < g.len() && g[k]@ == f[i]@
}

proof fn lemma_splits(n: nat, f: Seq<Vec<i32>>, e: Elimination, v: int)
    requires
        group_of(n, f, e.pos@, v, 1),
        group_of(n, f, e.neg@, v, 2),
    ensures
        splits(f, e, v),
{
    reveal(splits);
    assert forall|i: int| 0 <= i < e.pos@.len() implies is_pos((#[trigger] e.pos@[i])@, v) && exists|t: int| 0 <= t < f.len() && f[t]@ == e.pos@[i]@ by {
        assert(in_group(e.pos@[i]@, v, 1));
    }
    assert forall|i: int| 0 <= i < e.neg@.len() implies is_neg((#[trigger] e.neg@[i])@, v) && exists|t: int| 0 <= t < f.len() && f[t]@ == e.neg@[i]@ by {
        assert(in_group(e.neg@[i]@, v, 2));
    }
    assert forall|t: int| 0 <= t < f.len() && is_pos((#[trigger] f[t])@, v) implies exists|i: int| 0 <= i < e.pos@.len() && e.pos@[i]@ == f[t]@ by {
        assert(in_group(f[t]@, v, 1));
    }
    assert forall|t: int| 0 <= t < f.len() && is_neg((#[trigger] f[t])@, v) implies exists|i: int| 0 <= i < e.neg@.len() && e.neg@[i]@ == f[t]@ by {
        assert(in_group(f[t]@, v, 2));
    }
}

proof fn lemma_keeps(n: nat, f: Seq<Vec<i32>>, e: Elimination, kept: Seq<Vec<i32>>, v: int)
    requires
        group_of(n, f, kept, v, 0),
        kept.len() <= e.rest@.len(),
        e.rest@.subrange(0, kept.len() as int) == kept,
        tail_resolvents(e.rest@, kept.len() as int, e.pos@, e.neg@, v),
    ensures
        keeps_others(f, e, v),
        rest_from(f, e, v),
{
    reveal(keeps_others);
    reveal(rest_from);
    assert forall|i: int| 0 <= i < f.len() && !mentions((#[trigger] f[i])@, v) implies exists|k: int| 0 <= k < e.rest@.len() && e.rest@[k]@ == f[i]@ by {
        assert(in_group(f[i]@, v, 0));
        let k = choose|k: int| 0 <= k < kept.len() && kept[k]@ == f[i]@;
        assert(e.rest@.subrange(0, kept.len() as int)[k] == e.rest@[k]);
    }
    assert forall|k: int| 0 <= k < e.rest@.len() implies kept_from((#[trigger] e.rest@[k])@, f, v) || from_pair(e.rest@[k]@, e.pos@, e.neg@, v) by {
        if k < kept.len() {
            assert(e.rest@.subrange(0, kept.len() as int)[k] == e.rest@[k]);
            assert(in_group(kept[k]@, v, 0));
            let i = choose|i: int| 0 <= i < f.len() && f[i]@ == kept[k]@;
            assert(f[i]@ == e.rest@[k]@);
        }
    }
}

/// Every clause of `rest` from position `from` on is a resolvent of a
/// positive and a negative clause.
pub open spec fn tail_resolvents(rest: Seq<Vec<i32>>, from: int, pos: Seq<Vec<i32>>, neg: Seq<Vec<i32>>, v: int) -> bool {
    forall|k: int| from <= k < rest.len() ==> from_pair((#[trigger] rest[k])@, pos, neg, v)
}

proof fn lemma_tail_at(rest: Seq<Vec<i32>>, from: int, pos: Seq<Vec<i32>>, neg: Seq<Vec<i32>>, v: int, k: int) -> (ab: (int, int))
    requires
        tail_resolvents(rest, from, pos, neg, v),
        from <= k < rest.len(),
    ensures
        0 <= ab.0 < pos.len() && 0 <= ab.1 < neg.len() && is_resolvent(rest[k]@, pos[ab.0]@, neg[ab.1]@, v),
{
    assert(from_pair(rest[k]@, pos, neg, v));
    choose|a: int, b: int| 0 <= a < pos.len() && 0 <= b < neg.len() && is_resolvent(rest[k]@, pos[a]@, neg[b]@, v)
}

/// `rest` holds the resolvents of the pairs before `(i, j)`, row by row.
pub open spec fn pairs_done(rest: Seq<Vec<i32>>, pos: Seq<Vec<i32>>, neg: Seq<Vec<i32>>, i: int, j: int, v: int) -> bool {
    forall|a: int, b: int| (0 <= a < i && 0 <= b < neg.len()) || (a == i && 0 <= b < j) ==> has_resolvent_of(rest, (#[trigger] pos[a])@, (#[trigger] neg[b])@, v)
}

proof fn lemma_push_resolvent(rest: Seq<Vec<i32>>, x: Vec<i32>, from: int, pos: Seq<Vec<i32>>, neg: Seq<Vec<i32>>, i: int, j: int, v: int)
    requires
        0 <= from <= rest.len(),
        0 <= i < pos.len(),
        0 <= j < neg.len(),
        is_resolvent(x@, pos[i]@, neg[j]@, v),
        tail_resolvents(rest, from, pos, neg, v),
        pairs_done(rest, pos, neg, i, j, v),
    ensures
        tail_resolvents(rest.push(x), from, pos, neg, v),
        pairs_done(rest.push(x), pos, neg, i, j + 1, v),
{
    let r2 = rest.push(x);
    assert forall|k: int| from <= k < r2.len() implies from_pair((#[trigger] r2[k])@, pos, neg, v) by {
        if k < rest.len() {
            assert(r2[k] == rest[k]);
        } else {
            assert(r2[k] == x);
            assert(is_resolvent(r2[k]@, pos[i]@, neg[j]@, v));
        }
    }
    assert forall|a: int, b: int| (0 <= a < i && 0 <= b < neg.len()) || (a == i && 0 <= b < j + 1) implies has_resolvent_of(r2, (#[trigger] pos[a])@, (#[trigger] neg[b])@, v) by {
        if a == i && b == j {
            assert(r2[rest.len() as int] == x);
            assert(is_resolvent(r2[rest.len() as int]@, pos[a]@, neg[b]@, v));
        } else {
            assert(has_resolvent_of(rest, pos[a]@, neg[b]@, v));
            let k = choose|k: int| 0 <= k < rest.len() && is_resolvent(#[trigger] rest[k]@, pos[a]@, neg[b]@, v);
            assert(r2[k] == rest[k]);
            assert(is_resolvent(r2[k]@, pos[a]@, neg[b]@, v));
        }
    }
}

proof fn lemma_next_row(rest: Seq<Vec<i32>>, pos: Seq<Vec<i32>>, neg: Seq<Vec<i32>>, i: int, v: int)
    requires
        pairs_done(rest, pos, neg, i, neg.len() as int, v),
    ensures
        pairs_done(rest, pos, neg, i + 1, 0, v),
{
    assert forall|a: int, b: int| (0 <= a < i + 1 && 0 <= b < neg.len()) || (a == i + 1 && 0 <= b < 0) implies has_resolvent_of(rest, (#[trigger] pos[a])@, (#[trigger] neg[b])@, v) by {
        assert((0 <= a < i && 0 <= b < neg.len()) || (a == i && 0 <= b < neg.len()));
    }
}

proof fn lemma_assemble(n: nat, f: Seq<Vec<i32>>, e: Elimination, kept: Seq<Vec<i32>>, v: int)
    requires
        e.var as int == v,
        group_of(n, f, kept, v, 0),
        group_of(n, f, e.pos@, v, 1),
        group_of(n, f, e.neg@, v, 2),
        kept.len() <= e.rest@.len(),
        e.rest@.subrange(0, kept.len() as int) == kept,
        forall|k: int| 0 <= k < e.rest@.len() ==> clause_ok(n, (#[trigger] e.rest@[k])@) && !mentions(e.rest@[k]@, v),
        tail_resolvents(e.rest@, kept.len() as int, e.pos@, e.neg@, v),
        pairs_done(e.rest@, e.pos@, e.neg@, e.pos@.len() as int, 0, v),
        n < i32::MAX,
    ensures
        eliminates(f, e, v),
        formula_ok(n, e.rest@),
        forall|i: int| 0 <= i < e.pos@.len() ==> clause_ok(n, (#[trigger] e.pos@[i])@),
{
    lemma_splits(n, f, e, v);
    lemma_keeps(n, f, e, kept, v);
    reveal(has_resolvents);
    assert forall|a: int, b: int| 0 <= a < e.pos@.len() && 0 <= b < e.neg@.len() implies has_resolvent_of(e.rest@, (#[trigger] e.pos@[a])@, (#[trigger] e.neg@[b])@, v) by {
        assert((0 <= a < e.pos@.len() && 0 <= b < e.neg@.len()));
    }
    assert forall|a: int| 0 <= a < e.pos@.len() implies clause_ok(n, (#[trigger] e.pos@[a])@) by {
        assert(in_group(e.pos@[a]@, v, 1) && clause_ok(n, e.pos@[a]@));
    }
}

/// Eliminates variable `v` from `f`: the clauses that do not mention it,
/// followed by every resolvent on `v` of a positive and a negative clause.
pub fn eliminate_var(n: usize, f: &Vec<Vec<i32>>, v: i32) -> (e: Elimination)
    requires
        formula_ok(n as nat, f@),
        1 <= v <= n,
    ensures
        eliminates(f@, e, v as int),
        formula_ok(n as nat, e.rest@),
        forall|k: int| 0 <= k < e.rest@.len() ==> !mentions((#[trigger] e.rest@[k])@, v as int),
        forall|i: int| 0 <= i < e.pos@.len() ==> clause_ok(n as nat, (#[trigger] e.pos@[i])@),
{
    let ghost vi = v as int;
    let mut rest = select_group(n, f, v, 0);
    let pos = select_group(n, f, v, 1);
    let neg = select_group(n, f, v, 2);
    let ghost kept = rest@;
    proof {
        assert(rest@.subrange(0, kept.len() as int) =~= kept);
        assert forall|k: int| 0 <= k < rest@.len() implies clause_ok(n as nat, (#[trigger] rest@[k])@) && !mentions(rest@[k]@, vi) by {
            assert(in_group(rest@[k]@, vi, 0));
        }
    }
    let mut i: usize = 0;
    while i < pos.len()
        invariant
            formula_ok(n as nat, f@),
            1 <= v <= n,
            vi == v as int,
            i <= pos@.len(),
            group_of(n as nat, f@, kept, vi, 0),
            group_of(n as nat, f@, pos@, vi, 1),
            group_of(n as nat, f@, neg@, vi, 2),
            kept.len() <= rest@.len(),
            rest@.subrange(0, kept.len() as int) == kept,
            forall|k: int| 0 <= k < rest@.len() ==> clause_ok(n as nat, (#[trigger] rest@[k])@) && !mentions(rest@[k]@, vi),
            tail_resolvents(rest@, kept.len() as int, pos@, neg@, vi),
            pairs_done(rest@, pos@, neg@, i as int, 0, vi),
        decreases pos@.len() - i,
    {
        let mut j: usize = 0;
        while j < neg.len()
            invariant
                formula_ok(n as nat, f@),
                1 <= v <= n,
                vi == v as int,
                i < pos@.len(),
                j <= neg@.len(),
                group_of(n as nat, f@, kept, vi, 0),
                group_of(n as nat, f@, pos@, vi, 1),
                group_of(n as nat, f@, neg@, vi, 2),
                kept.len() <= rest@.len(),
                rest@.subrange(0, kept.len() as int) == kept,
                forall|k: int| 0 <= k < rest@.len() ==> clause_ok(n as nat, (#[trigger] rest@[k])@) && !mentions(rest@[k]@, vi),
                tail_resolvents(rest@, kept.len() as int, pos@, neg@, vi),
                pairs_done(rest@, pos@, neg@, i as int, j as int, vi),
            decreases neg@.len() - j,
        {
            let r = resolve(&pos[i], &neg[j], v);
            let ghost r0 = rest@;
            proof {
                assert(in_group(pos@[i as int]@, vi, 1) && clause_ok(n as nat, pos@[i as int]@));
                assert(in_group(neg@[j as int]@, vi, 2) && clause_ok(n as nat, neg@[j as int]@));
                assert forall|t: int| 0 <= t < r@.len() implies lit_ok(n as nat, #[trigger] r@[t]) by {
                    if has_lit(pos@[i as int]@, r@[t] as int) {
                        let u = choose|u: int| 0 <= u < pos@[i as int]@.len() && pos@[i as int]@[u] as int == r@[t] as int;
                        assert(lit_ok(n as nat, pos@[i as int]@[u]));
                    } else {
                        let u = choose|u: int| 0 <= u < neg@[j as int]@.len() && neg@[j as int]@[u] as int == r@[t] as int;
                        assert(lit_ok(n as nat, neg@[j as int]@[u]));
                    }
                }
                assert(!mentions(r@, vi));
            }
            rest.push(r);
            proof {
                assert(rest@.subrange(0, kept.len() as int) =~= r0.subrange(0, kept.len() as int));
                assert forall|k: int| 0 <= k < rest@.len() implies clause_ok(n as nat, (#[trigger] rest@[k])@) && !mentions(rest@[k]@, vi) by {
                    if k < r0.len() {
                        assert(rest@[k] == r0[k]);
                    }
                }
                lemma_push_resolvent(r0, r, kept.len() as int, pos@, neg@, i as int, j as int, vi);
            }
            j += 1;
        }
        proof {
            lemma_next_row(rest@, pos@, neg@, i as int, vi);
        }
        i += 1;
    }
    let e = Elimination { var: v, rest, pos, neg };
    proof {
        lemma_assemble(n as nat, f@, e, kept, vi);
    }
    e
}

/// The value of the eliminated variable under `m`: true exactly when a
/// positive clause is not satisfied by its other literals.
pub fn eliminated_value_of(m: &Vec<bool>, pos: &Vec<Vec<i32>>, v: i32) -> (r: bool)
    requires
        1 <= v < m@.len() <= i32::MAX,
        forall|i: int| 0 <= i < pos@.len() ==> clause_ok((m@.len() - 1) as nat, (#[trigger] pos@[i])@),
    ensures
        r == eliminated_value(m@, pos@, v as int),
{
    let mut i: usize = 0;
    while i < pos.len()
        invariant
            i <= pos@.len(),
            1 <= v < m@.len() <= i32::MAX,
            forall|x: int| 0 <= x < pos@.len() ==> clause_ok((m@.len() - 1) as nat, (#[trigger] pos@[x])@),
            forall|x: int| 0 <= x < i ==> holds_without(m@, (#[trigger] pos@[x])@, v as int),
        decreases pos@.len() - i,
    {
        let c = &pos[i];
        assert(clause_ok((m@.len() - 1) as nat, pos@[i as int]@));
        assert(c@ == pos@[i as int]@);
        let mut found = false;
        let mut k: usize = 0;
        while k < c.len()
            invariant
                k <= c@.len(),
                c@ == pos@[i as int]@,
                1 <= v < m@.len() <= i32::MAX,
                clause_ok((m@.len() - 1) as nat, c@),
                found ==> holds_without(m@, c@, v as int),
                !found ==> forall|t: int| 0 <= t < k ==> !(lit_var(c@[t]) != v && lit_holds(m@, #[trigger] c@[t])),
            decreases c@.len() - k,
        {
            let l = c[k];
            assert(lit_ok((m@.len() - 1) as nat, c@[k as int]));
            if l != v && l != -v && crate::cnf::lit_value(m, l) {
                found = true;
            }
            k += 1;
        }
        if !found {
            proof {
                assert(c@ == pos@[i as int]@);
            }
            return true;
        }
        i += 1;
    }
    false
}

/// Gives the eliminated variable of `e` its value in `m`, turning a model
/// of `e.rest` into a model of the formula before elimination.
pub fn extend_model(m: &mut Vec<bool>, e: &Elimination)
    requires
        1 <= e.var < old(m)@.len() <= i32::MAX,
        forall|i: int| 0 <= i < e.pos@.len() ==> clause_ok((old(m)@.len() - 1) as nat, (#[trigger] e.pos@[i])@),
    ensures
        final(m)@ == extended(old(m)@, e.pos@, e.var as int),
{
    let b = eliminated_value_of(m, &e.pos, e.var);
    m.set(e.var as usize, b);
}

/// Every literal of `c` is in `d`.
pub open spec fn subsumes(c: Seq<i32>, d: Seq<i32>) -> bool {
    forall|j: int| 0 <= j < c.len() ==> has_lit(d, #[trigger] c[j] as int)
}

/// Whether every literal of `c` is in `d`.
pub fn is_subset(c: &Vec<i32>, d: &Vec<i32>) -> (r: bool)
    ensures
        r == subsumes(c@, d@),
{
    let mut j: usize = 0;
    while j < c.len()
        invariant
            j <= c@.len(),
            forall|t: int| 0 <= t < j ==> has_lit(d@, #[trigger] c@[t] as int),
        decreases c@.len() - j,
    {
        if !contains_lit(d, c[j]) {
            return false;
        }
        j += 1;
    }
    true
}

/// A clause that holds, holds in every clause it is part of.
proof fn lemma_subsumed_holds(m: Seq<bool>, c: Seq<i32>, d: Seq<i32>)
    requires
        subsumes(c, d),
        clause_holds(m, c),
    ensures
        clause_holds(m, d),
{
    let j = choose|j: int| 0 <= j < c.len() && lit_holds(m, c[j]);
    assert(has_lit(d, c[j] as int));
    let t = choose|t: int| 0 <= t < d.len() && d[t] as int == c[j] as int;
    assert(d[t] == c[j]);
}

/// `c` is one of the first `i` clauses of `f`.
pub open spec fn is_clause_in(c: Seq<i32>, f: Seq<Vec<i32>>, i: int) -> bool {
    exists|t: int| 0 <= t < i && f[t]@ == c
}

/// The loop facts of `remove_subsumed` after clause `i` was handled.
pub open spec fn subsumed_facts(n: nat, f: Seq<Vec<i32>>, r: Seq<Vec<i32>>, i: int) -> bool {
    &&& formula_ok(n, r)
    &&& forall|k: int| 0 <= k < r.len() ==> is_clause_in((#[trigger] r[k])@, f, i)
    &&& forall|t: int| 0 <= t < i ==> exists|k: int| 0 <= k < r.len() && subsumes(r[k]@, (#[trigger] f[t])@)
    &&& forall|a: int, b: int| 0 <= a < b < r.len() ==> !subsumes((#[trigger] r[a])@, (#[trigger] r[b])@)
}

proof fn lemma_subsumed_step(n: nat, f: Seq<Vec<i32>>, r0: Seq<Vec<i32>>, r: Seq<Vec<i32>>, i: int, covered: bool, k: int)
    requires
        formula_ok(n, f),
        0 <= i < f.len(),
        subsumed_facts(n, f, r0, i),
        covered ==> r == r0 && 0 <= k < r0.len() && subsumes(r0[k]@, f[i]@),
        !covered ==> r.len() == r0.len() + 1 && r.subrange(0, r0.len() as int) == r0 && r[r0.len() as int]@ == f[i]@
            && forall|x: int| 0 <= x < r0.len() ==> !subsumes((#[trigger] r0[x])@, f[i]@),
    ensures
        subsumed_facts(n, f, r, i + 1),
{
    assert forall|x: int| 0 <= x < r0.len() implies #[trigger] r[x] == r0[x] by {
        if !covered {
            assert(r.subrange(0, r0.len() as int)[x] == r[x]);
        }
    }
    if !covered {
        assert(subsumes(f[i]@, f[i]@)) by {
            assert forall|j: int| 0 <= j < f[i]@.len() implies has_lit(f[i]@, #[trigger] f[i]@[j] as int) by {}
        }
    }
    assert forall|x: int| 0 <= x < r.len() implies clause_ok(n, #[trigger] r[x]@) by {
        if x < r0.len() {
            assert(r[x] == r0[x]);
        } else {
            assert(clause_ok(n, f[i]@));
        }
    }
    assert forall|x: int| 0 <= x < r.len() implies is_clause_in((#[trigger] r[x])@, f, i + 1) by {
        if x < r0.len() {
            assert(r[x] == r0[x]);
            assert(is_clause_in(r0[x]@, f, i));
            let t = choose|t: int| 0 <= t < i && f[t]@ == r0[x]@;
            assert(f[t]@ == r[x]@);
        } else {
            assert(f[i]@ == r[x]@);
        }
    }
    assert forall|t: int| 0 <= t < i + 1 implies exists|x: int| 0 <= x < r.len() && subsumes(r[x]@, (#[trigger] f[t])@) by {
        if t < i {
            let x = choose|x: int| 0 <= x < r0.len() && subsumes(r0[x]@, f[t]@);
            assert(r[x] == r0[x]);
            assert(subsumes(r[x]@, f[t]@));
        } else if covered {
            assert(subsumes(r[k]@, f[t]@));
        } else {
            assert(subsumes(r[r0.len() as int]@, f[t]@));
        }
    }
    assert forall|a: int, b: int| 0 <= a < b < r.len() implies !subsumes((#[trigger] r[a])@, (#[trigger] r[b])@) by {
        assert(r[a] == r0[a]);
        if b < r0.len() {
            assert(r[b] == r0[b]);
        } else {
            assert(r[b]@ == f[i]@);
        }
    }
}

proof fn lemma_subsumed_models(n: nat, f: Seq<Vec<i32>>, r: Seq<Vec<i32>>, m: Seq<bool>)
    requires
        subsumed_facts(n, f, r, f.len() as int),
    ensures
        satisfies(m, r) == satisfies(m, f),
{
    if satisfies(m, f) {
        assert forall|x: int| 0 <= x < r.len() implies clause_holds(m, #[trigger] r[x]@) by {
            let t = choose|t: int| 0 <= t < f.len() && f[t]@ == r[x]@;
            assert(clause_holds(m, f[t]@));
        }
    }
    if satisfies(m, r) {
        assert forall|t: int| 0 <= t < f.len() implies clause_holds(m, #[trigger] f[t]@) by {
            let x = choose|x: int| 0 <= x < r.len() && subsumes(r[x]@, f[t]@);
            assert(clause_holds(m, r[x]@));
            lemma_subsumed_holds(m, r[x]@, f[t]@);
        }
    }
}

/// Drops each clause of `f` that contains a clause kept before it: the
/// result keeps clauses of `f` in order, no kept clause is contained in a
/// later one, and the result has the same models as `f`.
#[verifier::rlimit(100)]
pub fn remove_subsumed(n: usize, f: &Vec<Vec<i32>>) -> (r: Vec<Vec<i32>>)
    requires
        formula_ok(n as nat, f@),
    ensures
        formula_ok(n as nat, r@),
        r@.len() <= f@.len(),
        forall|k: int| 0 <= k < r@.len() ==> is_clause_in((#[trigger] r@[k])@, f@, f@.len() as int),
        forall|a: int, b: int| 0 <= a < b < r@.len() ==> !subsumes((#[trigger] r@[a])@, (#[trigger] r@[b])@),
        forall|m: Seq<bool>| #[trigger] satisfies(m, r@) == satisfies(m, f@),
{
    let mut r: Vec<Vec<i32>> = Vec::new();
    let mut i: usize = 0;
    while i < f.len()
        invariant
            i <= f@.len(),
            r@.len() <= i,
            formula_ok(n as nat, f@),
            subsumed_facts(n as nat, f@, r@, i as int),
        decreases f@.len() - i,
    {
        let ghost r0 = r@;
        let mut k: usize = 0;
        let mut covered = false;
        while k < r.len() && !covered
            invariant
                k <= r@.len(),
                i < f@.len(),
                r@ == r0,
                covered ==> k < r@.len() && subsumes(r@[k as int]@, f@[i as int]@),
                !covered ==> forall|x: int| 0 <= x < k ==> !subsumes((#[trigger] r@[x])@, f@[i as int]@),
            decreases r@.len() - k + (if covered { 0int } else { 1int }),
        {
            if is_subset(&r[k], &f[i]) {
                covered = true;
            } else {
                k += 1;
            }
        }
        if !covered {
            r.push(copy_clause(&f[i]));
        }
        proof {
            if !covered {
                assert(r@.subrange(0, r0.len() as int) =~= r0);
            }
            lemma_subsumed_step(n as nat, f@, r0, r@, i as int, covered, k as int);
        }
        i += 1;
    }
    proof {
        assert forall|m: Seq<bool>| #[trigger] satisfies(m, r@) == satisfies(m, f@) by {
            lemma_subsumed_models(n as nat, f@, r@, m);
        }
    }
    r
}

} // verus!
