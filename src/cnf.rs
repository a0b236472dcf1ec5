//! The formula model: literals as nonzero signed integers, clauses as
//! sequences of literals, and total assignments indexed by variable.
use vstd::prelude::*;

verus! {

/// The variable of a literal.
pub open spec fn lit_var(l: i32) -> int {
    if l < 0 { -(l as int) } else { l as int }
}

/// A literal is a nonzero integer whose variable lies in `[1, n]`.
pub open spec fn lit_ok(n: nat, l: i32) -> bool {
    l != 0 && lit_var(l) <= n
}

/// Whether literal `l` is true under the total assignment `m`
/// (`m[v]` is the value of variable `v`; index 0 is unused).
pub open spec fn lit_holds(m: Seq<bool>, l: i32) -> bool {
    if l > 0 { m[l as int] } else { !m[-(l as int)] }
}

pub open spec fn clause_holds(m: Seq<bool>, c: Seq<i32>) -> bool {
    exists|j: int| 0 <= j < c.len() && lit_holds(m, #[trigger] c[j])
}

pub open spec fn satisfies(m: Seq<bool>, f: Seq<Vec<i32>>) -> bool {
    forall|i: int| 0 <= i < f.len() ==> clause_holds(m, #[trigger] f[i]@)
}

/// Every literal of clause `c` names a variable in `[1, n]`.
pub open spec fn clause_ok(n: nat, c: Seq<i32>) -> bool {
    forall|j: int| 0 <= j < c.len() ==> lit_ok(n, #[trigger] c[j])
}

/// A formula over `n` variables.
pub open spec fn formula_ok(n: nat, f: Seq<Vec<i32>>) -> bool {
    n < i32::MAX && forall|i: int| 0 <= i < f.len() ==> clause_ok(n, #[trigger] f[i]@)
}

/// A total assignment of `n` variables.
pub open spec fn is_model(n: nat, m: Seq<bool>) -> bool {
    m.len() == n + 1
}

/// No total assignment of the `n` variables satisfies `f`.
pub open spec fn unsatisfiable(n: nat, f: Seq<Vec<i32>>) -> bool {
    forall|m: Seq<bool>| is_model(n, m) ==> !satisfies(m, f)
}

/// The value of literal `l` under a total assignment.
pub fn lit_value(m: &Vec<bool>, l: i32) -> (r: bool)
    requires
        lit_ok((m@.len() - 1) as nat, l),
        1 <= m@.len() <= i32::MAX,
    ensures
        r == lit_holds(m@, l),
{
    if l > 0 {
        m[l as usize]
    } else {
        !m[(-l) as usize]
    }
}

/// Whether clause `c` holds under `m`.
pub fn eval_clause(m: &Vec<bool>, c: &Vec<i32>) -> (r: bool)
    requires
        1 <= m@.len() <= i32::MAX,
        clause_ok((m@.len() - 1) as nat, c@),
    ensures
        r == clause_holds(m@, c@),
{
    let mut j: usize = 0;
    while j < c.len()
        invariant
            j <= c@.len(),
            1 <= m@.len() <= i32::MAX,
            clause_ok((m@.len() - 1) as nat, c@),
            forall|k: int| 0 <= k < j ==> !lit_holds(m@, #[trigger] c@[k]),
        decreases c@.len() - j,
    {
        if lit_value(m, c[j]) {
            return true;
        }
        j += 1;
    }
    false
}

} // verus!
