//! The search engine: the assignment trail with decision levels, unit
//! propagation, clause learning, activity-driven decisions and restarts.
use vstd::prelude::*;
use crate::cnf::{clause_ok, formula_ok, lit_ok, lit_var};
use crate::rup::{check_refutation, clause_status, copy_clause, is_open, partial_value, Status};
use crate::cnf::{is_model, satisfies, unsatisfiable};
use crate::heuristics::VarActivity;
use crate::restart::RestartPolicy;
use crate::validator::validate;
use crate::config::Config;

verus! {

/// The decision level of the variable of trail entry `i`.
pub open spec fn lvl_at(trail: Seq<i32>, level: Seq<usize>, i: int) -> int {
    level[lit_var(trail[i])] as int
}

/// The trail is well formed: its literals are true and name distinct
/// variables, exactly the assigned ones.
pub open spec fn trail_ok_of(n: nat, trail: Seq<i32>, assign: Seq<Option<bool>>) -> bool {
    &&& forall|i: int|
        0 <= i < trail.len() ==> lit_ok(n, #[trigger] trail[i]) && partial_value(assign, trail[i]) == Some(true)
    &&& forall|i: int, j: int|
        0 <= i < j < trail.len() ==> lit_var(#[trigger] trail[i]) != lit_var(#[trigger] trail[j])
    &&& forall|v: int|
        1 <= v <= n && #[trigger] assign[v] is Some ==> exists|i: int| 0 <= i < trail.len() && lit_var(trail[i]) == v
}

/// Decision levels along the trail never decrease, no decision sits at
/// level zero, and each level starts at its recorded position.
pub open spec fn levels_ok_of(trail: Seq<i32>, level: Seq<usize>, reason: Seq<Option<usize>>, lim: Seq<usize>) -> bool {
    &&& forall|i: int, j: int|
        0 <= i <= j < trail.len() ==> #[trigger] lvl_at(trail, level, i) <= #[trigger] lvl_at(trail, level, j)
    &&& forall|i: int|
        0 <= i < trail.len() ==> reason[lit_var(#[trigger] trail[i])] is None ==> lvl_at(trail, level, i) >= 1
    &&& forall|i: int| 0 <= i < trail.len() ==> #[trigger] lvl_at(trail, level, i) <= lim.len()
    &&& forall|k: int, j: int| 0 <= k < j < lim.len() ==> #[trigger] lim[k] < #[trigger] lim[j]
    &&& forall|k: int| 0 <= k < lim.len() ==> #[trigger] lim[k] < trail.len()
    &&& forall|k: int, i: int|
        0 <= k < lim.len() && 0 <= i < trail.len() ==> (i < #[trigger] lim[k] <==> #[trigger] lvl_at(trail, level, i) <= k)
}

/// In every well-formed state, decision levels along the trail never
/// decrease, and no entry at level zero is a decision.
pub proof fn lemma_trail_levels(s: &Solver)
    requires
        s.wf(),
    ensures
        forall|i: int, j: int| 0 <= i <= j < s.trail@.len() ==> #[trigger] s.level_at(i) <= #[trigger] s.level_at(j),
        forall|i: int|
            0 <= i < s.trail@.len() && #[trigger] s.level_at(i) == 0 ==> s.reason@[lit_var(s.trail@[i])] is Some,
{
    assert forall|i: int, j: int| 0 <= i <= j < s.trail@.len() implies #[trigger] s.level_at(i) <= #[trigger] s.level_at(j) by {
        assert(lvl_at(s.trail@, s.level@, i) <= lvl_at(s.trail@, s.level@, j));
    }
    assert forall|i: int|
        0 <= i < s.trail@.len() && #[trigger] s.level_at(i) == 0 implies s.reason@[lit_var(s.trail@[i])] is Some by {
        if s.reason@[lit_var(s.trail@[i])] is None {
            assert(lvl_at(s.trail@, s.level@, i) >= 1);
        }
    }
}

/// The trail names distinct variables of `1..=n`, so it is at most `n` long.
pub proof fn lemma_trail_len(s: &Solver)
    requires
        s.wf(),
    ensures
        s.trail@.len() <= s.n(),
{
    let vars = s.trail@.map_values(|l: i32| lit_var(l));
    assert(vars.no_duplicates()) by {
        assert forall|i: int, j: int| 0 <= i < vars.len() && 0 <= j < vars.len() && i != j implies vars[i] != vars[j] by {
            if i < j {
                assert(lit_var(s.trail@[i]) != lit_var(s.trail@[j]));
            } else {
                assert(lit_var(s.trail@[j]) != lit_var(s.trail@[i]));
            }
        }
    }
    vars.unique_seq_to_set();
    let range = vstd::set_lib::set_int_range(1, (s.n() + 1) as int);
    vstd::set_lib::lemma_int_range(1, (s.n() + 1) as int);
    assert(vars.to_set().subset_of(range)) by {
        assert forall|x: int| vars.to_set().contains(x) implies range.contains(x) by {
            let i = choose|i: int| 0 <= i < vars.len() && vars[i] == x;
            assert(lit_ok(s.n(), s.trail@[i]));
        }
    }
    vstd::set_lib::lemma_len_subset(vars.to_set(), range);
}

/// The state of one solve.
pub struct Solver {
    /// Number of variables; they are `1..=num_vars`.
    pub num_vars: usize,
    /// The given clauses, as loaded.
    pub original: Vec<Vec<i32>>,
    /// The clause database: the given clauses followed by learned ones.
    pub clauses: Vec<Vec<i32>>,
    /// Value of each variable, indexed by variable.
    pub assign: Vec<Option<bool>>,
    /// Decision level at which each assigned variable was assigned.
    pub level: Vec<usize>,
    /// The clause that forced each assigned variable; `None` for a decision.
    pub reason: Vec<Option<usize>>,
    /// The true literals, in the order of assignment.
    pub trail: Vec<i32>,
    /// For each decision level, the trail position of its decision.
    pub trail_lim: Vec<usize>,
    /// The polarity each variable had when last unassigned.
    pub phase: Vec<bool>,
    pub activity: VarActivity,
    pub restart: RestartPolicy,
    /// Every learned clause in order; on a refutation it ends with the
    /// empty clause.
    pub certificate: Vec<Vec<i32>>,
    pub conflicts: u64,
    pub decisions: u64,
}

/// Why a formula cannot be loaded.
#[derive(Debug, Clone, Copy, PartialEq, Eq, Structural)]
pub enum BuildError {
    /// The variable count does not fit a literal.
    TooManyVars,
    /// A literal is zero or names a variable above the count.
    BadLiteral,
    /// A setting is out of range.
    BadConfig,
}

/// The outcome of a search.
#[derive(Debug)]
pub enum Verdict {
    /// A total assignment, indexed by variable, that satisfies the formula.
    Sat(Vec<bool>),
    /// The formula has no model; the certificate proves it.
    Unsat,
    /// The step budget ran out.
    Unknown,
    /// An internal check failed: a model found did not satisfy the given
    /// clauses, or a refutation found did not check. This is a defect of
    /// the search, reported instead of a wrong verdict.
    Fault,
}

impl Solver {
    pub open spec fn n(&self) -> nat {
        self.num_vars as nat
    }

    /// The decision level of the variable of the trail entry at `i`.
    pub open spec fn level_at(&self, i: int) -> int {
        lvl_at(self.trail@, self.level@, i)
    }

    pub open spec fn trail_ok(&self) -> bool {
        trail_ok_of(self.n(), self.trail@, self.assign@)
    }

    pub open spec fn levels_ok(&self) -> bool {
        levels_ok_of(self.trail@, self.level@, self.reason@, self.trail_lim@)
    }

    pub open spec fn wf(&self) -> bool {
        &&& self.num_vars < i32::MAX
        &&& formula_ok(self.n(), self.original@)
        &&& formula_ok(self.n(), self.clauses@)
        &&& self.assign@.len() == self.n() + 1
        &&& self.level@.len() == self.n() + 1
        &&& self.reason@.len() == self.n() + 1
        &&& self.phase@.len() == self.n() + 1
        &&& self.activity.wf()
        &&& self.activity.score@.len() == self.n() + 1
        &&& self.restart.wf()
        &&& forall|v: int| 0 <= v <= self.n() && #[trigger] self.reason@[v] is Some ==> self.reason@[v]->Some_0 < self.clauses@.len()
        &&& self.trail_ok()
        &&& self.levels_ok()
    }

    /// Current decision level.
    pub fn decision_level(&self) -> (r: usize)
        ensures
            r == self.trail_lim@.len(),
    {
        self.trail_lim.len()
    }

    /// Records literal `l` as true: as the decision that opens a new level
    /// when `decision` holds, else at the current level.
    fn push_assignment(&mut self, l: i32, why: Option<usize>, decision: bool)
        requires
            old(self).wf(),
            lit_ok(old(self).n(), l),
            partial_value(old(self).assign@, l) is None,
            why matches Some(c) ==> c < old(self).clauses@.len(),
            why is None ==> decision || old(self).trail_lim@.len() >= 1,
            decision ==> old(self).trail_lim@.len() < usize::MAX,
        ensures
            final(self).wf(),
            final(self).trail@ == old(self).trail@.push(l),
            decision ==> final(self).trail_lim@ == old(self).trail_lim@.push(old(self).trail@.len() as usize),
            !decision ==> final(self).trail_lim@ == old(self).trail_lim@,
            final(self).clauses@ == old(self).clauses@,
            final(self).original@ == old(self).original@,
            final(self).num_vars == old(self).num_vars,
            final(self).phase@ == old(self).phase@,
    {
        let v: usize = if l < 0 { (-l) as usize } else { l as usize };
        let ghost s0 = *self;
        if decision {
            self.trail_lim.push(self.trail.len());
        }
        let lv = self.trail_lim.len();
        self.assign.set(v, Some(l > 0));
        self.level.set(v, lv);
        self.reason.set(v, why);
        self.trail.push(l);
        proof {
            let t = self.trail@;
            assert(t[t.len() - 1] == l);
            assert forall|i: int| 0 <= i < t.len() - 1 implies lit_var(#[trigger] t[i]) != v by {
                if lit_var(t[i]) == v {
                    assert(partial_value(s0.assign@, s0.trail@[i]) == Some(true));
                }
            }
            assert forall|i: int| 0 <= i < t.len() - 1 implies #[trigger] self.level_at(i) == s0.level_at(i) by {
                assert(t[i] == s0.trail@[i]);
            }
            assert(self.level_at(t.len() - 1) == lv);
            assert forall|i: int|
                0 <= i < t.len() implies lit_ok(self.n(), #[trigger] t[i])
                && partial_value(self.assign@, t[i]) == Some(true) by {
                if i < t.len() - 1 {
                    assert(t[i] == s0.trail@[i]);
                }
            }
            assert forall|x: int|
                1 <= x <= self.n() && #[trigger] self.assign@[x] is Some implies exists|i: int|
                0 <= i < t.len() && lit_var(t[i]) == x by {
                if x != v {
                    assert(s0.assign@[x] is Some);
                    let i = choose|i: int| 0 <= i < s0.trail@.len() && lit_var(s0.trail@[i]) == x;
                    assert(t[i] == s0.trail@[i]);
                } else {
                    assert(lit_var(t[t.len() - 1]) == x);
                }
            }
            assert forall|i: int|
                0 <= i < t.len() && self.reason@[lit_var(#[trigger] t[i])] is None implies self.level_at(i) >= 1 by {
                if i < t.len() - 1 {
                    assert(t[i] == s0.trail@[i]);
                    assert(lit_var(t[i]) != v);
                }
            }
            assert forall|k: int, i: int|
                0 <= k < self.trail_lim@.len() && 0 <= i < t.len() implies (i < #[trigger] self.trail_lim@[k]
                <==> #[trigger] self.level_at(i) <= k) by {
                if i < t.len() - 1 {
                    assert(self.level_at(i) == s0.level_at(i));
                }
            }
            assert forall|x: int| 0 <= x <= self.n() && #[trigger] self.reason@[x] is Some implies self.reason@[x]->Some_0 < self.clauses@.len() by {
                if x != v {
                    assert(self.reason@[x] == s0.reason@[x]);
                }
            }
            assert forall|i: int, j: int|
                0 <= i <= j < t.len() implies #[trigger] lvl_at(t, self.level@, i) <= #[trigger] lvl_at(t, self.level@, j) by {
                assert(self.level_at(i) == lvl_at(t, self.level@, i));
                assert(self.level_at(j) == lvl_at(t, self.level@, j));
                if j < t.len() - 1 {
                    assert(s0.level_at(i) <= s0.level_at(j));
                } else if i < t.len() - 1 {
                    assert(s0.level_at(i) <= s0.trail_lim@.len());
                }
            }
            assert forall|i: int| 0 <= i < t.len() implies #[trigger] lvl_at(t, self.level@, i) <= self.trail_lim@.len() by {
                assert(self.level_at(i) == lvl_at(t, self.level@, i));
                if i < t.len() - 1 {
                    assert(s0.level_at(i) <= s0.trail_lim@.len());
                }
            }
            let lim = self.trail_lim@;
            assert forall|k: int, j: int| 0 <= k < j < lim.len() implies #[trigger] lim[k] < #[trigger] lim[j] by {
                if j < s0.trail_lim@.len() {
                    assert(s0.trail_lim@[k] < s0.trail_lim@[j]);
                } else {
                    assert(s0.trail_lim@[k] < s0.trail@.len());
                }
            }
            assert forall|k: int| 0 <= k < lim.len() implies #[trigger] lim[k] < t.len() by {
                if k < s0.trail_lim@.len() {
                    assert(s0.trail_lim@[k] < s0.trail@.len());
                }
            }
            assert forall|k: int, i: int|
                0 <= k < lim.len() && 0 <= i < t.len() implies (i < #[trigger] lim[k] <==> #[trigger] lvl_at(t, self.level@, i) <= k) by {
                assert(self.level_at(i) == lvl_at(t, self.level@, i));
                if i < t.len() - 1 {
                    assert(self.level_at(i) == s0.level_at(i));
                    assert(s0.level_at(i) <= s0.trail_lim@.len());
                    if k < s0.trail_lim@.len() {
                        assert(lim[k] == s0.trail_lim@[k]);
                        assert(i < s0.trail_lim@[k] <==> s0.level_at(i) <= k);
                    }
                } else {
                    if k < s0.trail_lim@.len() {
                        assert(s0.trail_lim@[k] < s0.trail@.len());
                    }
                }
            }
            assert forall|i: int| 0 <= i < t.len() && self.reason@[lit_var(#[trigger] t[i])] is None implies lvl_at(t, self.level@, i) >= 1 by {
                assert(self.level_at(i) == lvl_at(t, self.level@, i));
                if i < t.len() - 1 {
                    assert(t[i] == s0.trail@[i]);
                    assert(lit_var(t[i]) != v);
                    assert(self.level_at(i) == s0.level_at(i));
                }
            }
            assert(self.trail_ok());
            assert(self.levels_ok());
        }
    }

    /// The trail length after going back to level `lvl`.
    pub open spec fn kept_len(&self, lvl: nat) -> nat {
        if lvl < self.trail_lim@.len() {
            self.trail_lim@[lvl as int] as nat
        } else {
            self.trail@.len()
        }
    }

    /// Undoes every assignment above decision level `lvl`, saving the
    /// polarity of each undone variable.
    pub fn backtrack(&mut self, lvl: usize)
        requires
            old(self).wf(),
        ensures
            final(self).wf(),
            lvl < old(self).trail_lim@.len() ==> final(self).trail_lim@ == old(self).trail_lim@.subrange(0, lvl as int),
            lvl >= old(self).trail_lim@.len() ==> final(self).trail_lim@ == old(self).trail_lim@,
            final(self).trail@ == old(self).trail@.subrange(0, old(self).kept_len(lvl as nat) as int),
            final(self).clauses@ == old(self).clauses@,
            final(self).activity == old(self).activity,
            final(self).restart == old(self).restart,
            final(self).certificate@ == old(self).certificate@,
            final(self).original@ == old(self).original@,
            final(self).num_vars == old(self).num_vars,
    {
        if lvl >= self.trail_lim.len() {
            return;
        }
        let target = self.trail_lim[lvl];
        let ghost s0 = *self;
        self.trail_lim.truncate(lvl);
        while self.trail.len() > target
            invariant
                s0.wf(),
                lvl < s0.trail_lim@.len(),
                target == s0.trail_lim@[lvl as int],
                self.trail_lim@ == s0.trail_lim@.subrange(0, lvl as int),
                self.trail_ok(),
                self.num_vars == s0.num_vars,
                self.clauses@ == s0.clauses@,
                self.original@ == s0.original@,
                self.level@ == s0.level@,
                self.reason@ == s0.reason@,
                self.activity == s0.activity,
                self.restart == s0.restart,
                self.certificate@ == s0.certificate@,
                self.assign@.len() == s0.assign@.len(),
                self.phase@.len() == s0.phase@.len(),
                target <= self.trail@.len() <= s0.trail@.len(),
                self.trail@ == s0.trail@.subrange(0, self.trail@.len() as int),
            decreases self.trail@.len(),
        {
            let ghost s1 = *self;
            let l = match self.trail.pop() {
                Some(x) => x,
                None => 0,
            };
            let ghost last = s1.trail@.len() - 1;
            assert(l == s1.trail@[last]);
            assert(lit_ok(self.n(), s1.trail@[last]));
            let v: usize = if l < 0 { (-l) as usize } else { l as usize };
            self.phase.set(v, l > 0);
            self.assign.set(v, None);
            proof {
                let t = self.trail@;
                assert forall|i: int| 0 <= i < t.len() implies lit_var(#[trigger] t[i]) != v by {
                    assert(t[i] == s1.trail@[i]);
                }
                assert forall|i: int|
                    0 <= i < t.len() implies lit_ok(self.n(), #[trigger] t[i])
                    && partial_value(self.assign@, t[i]) == Some(true) by {
                    assert(t[i] == s1.trail@[i]);
                    assert(lit_var(t[i]) != v);
                }
                assert forall|i: int, j: int|
                    0 <= i < j < t.len() implies lit_var(#[trigger] t[i]) != lit_var(#[trigger] t[j]) by {
                    assert(t[i] == s1.trail@[i]);
                    assert(t[j] == s1.trail@[j]);
                }
                assert forall|x: int|
                    1 <= x <= self.n() && #[trigger] self.assign@[x] is Some implies exists|i: int|
                    0 <= i < t.len() && lit_var(t[i]) == x by {
                    assert(s1.assign@[x] is Some);
                    let i = choose|i: int| 0 <= i < s1.trail@.len() && lit_var(s1.trail@[i]) == x;
                    assert(i != last);
                    assert(t[i] == s1.trail@[i]);
                }
                assert(self.trail@ =~= s0.trail@.subrange(0, self.trail@.len() as int));
            }
        }
        proof {
            let t = self.trail@;
            assert(t.len() == target);
            assert forall|i: int| 0 <= i < t.len() implies #[trigger] lvl_at(t, self.level@, i) == lvl_at(s0.trail@, s0.level@, i) by {
                assert(t[i] == s0.trail@[i]);
            }
            assert forall|i: int| 0 <= i < t.len() implies #[trigger] lvl_at(s0.trail@, s0.level@, i) <= s0.trail_lim@.len() by {
                assert(lvl_at(s0.trail@, s0.level@, i) <= s0.trail_lim@.len());
            }
            assert forall|i: int| 0 <= i < t.len() implies #[trigger] lvl_at(t, self.level@, i) <= self.trail_lim@.len() by {
                assert(lvl_at(s0.trail@, s0.level@, i) <= lvl);
            }
            assert forall|i: int, j: int|
                0 <= i <= j < t.len() implies #[trigger] lvl_at(t, self.level@, i) <= #[trigger] lvl_at(t, self.level@, j) by {
                assert(lvl_at(s0.trail@, s0.level@, i) <= lvl_at(s0.trail@, s0.level@, j));
            }
            assert forall|i: int|
                0 <= i < t.len() && self.reason@[lit_var(#[trigger] t[i])] is None implies lvl_at(t, self.level@, i) >= 1 by {
                assert(t[i] == s0.trail@[i]);
            }
            assert forall|k: int, j: int|
                0 <= k < j < self.trail_lim@.len() implies #[trigger] self.trail_lim@[k] < #[trigger] self.trail_lim@[j] by {
                assert(s0.trail_lim@[k] < s0.trail_lim@[j]);
            }
            assert forall|k: int| 0 <= k < self.trail_lim@.len() implies #[trigger] self.trail_lim@[k] < t.len() by {
                assert(s0.trail_lim@[k] < s0.trail_lim@[lvl as int]);
            }
            assert forall|k: int, i: int|
                0 <= k < self.trail_lim@.len() && 0 <= i < t.len() implies (i < #[trigger] self.trail_lim@[k]
                <==> #[trigger] lvl_at(t, self.level@, i) <= k) by {
                assert(self.trail_lim@[k] == s0.trail_lim@[k]);
                assert(lvl_at(t, self.level@, i) == lvl_at(s0.trail@, s0.level@, i));
            }
            assert(self.trail_ok());
            assert(self.levels_ok());
        }
    }

    /// Clause `c` has every literal false.
    pub open spec fn falsified(&self, c: int) -> bool {
        forall|t: int|
            0 <= t < self.clauses@[c]@.len() ==> partial_value(self.assign@, #[trigger] self.clauses@[c]@[t]) == Some(false)
    }

    /// No clause is falsified or unit: unit propagation has nothing left.
    pub open spec fn at_fixpoint(&self) -> bool {
        forall|c: int| 0 <= c < self.clauses@.len() ==> is_open(self.assign@, (#[trigger] self.clauses@[c])@)
    }

    /// Assigns every literal that a clause forces, until no clause forces
    /// one (a fixpoint) or a clause is falsified; returns that clause.
    pub fn propagate(&mut self) -> (r: Option<usize>)
        requires
            old(self).wf(),
        ensures
            final(self).wf(),
            final(self).trail_lim@ == old(self).trail_lim@,
            old(self).trail@.len() <= final(self).trail@.len(),
            final(self).trail@.subrange(0, old(self).trail@.len() as int) == old(self).trail@,
            final(self).clauses@ == old(self).clauses@,
            final(self).original@ == old(self).original@,
            final(self).num_vars == old(self).num_vars,
            final(self).phase@ == old(self).phase@,
            r matches Some(c) ==> c < final(self).clauses@.len() && final(self).falsified(c as int),
            r is None ==> final(self).at_fixpoint(),
    {
        let ghost s0 = *self;
        let n = self.num_vars;
        proof {
            lemma_trail_len(self);
        }
        loop
            invariant
                self.wf(),
                *old(self) == s0,
                self.num_vars == n,
                n == s0.num_vars,
                self.trail_lim@ == s0.trail_lim@,
                s0.trail@.len() <= self.trail@.len() <= n,
                self.trail@.subrange(0, s0.trail@.len() as int) == s0.trail@,
                self.clauses@ == s0.clauses@,
                self.original@ == s0.original@,
                self.phase@ == s0.phase@,
            decreases n - self.trail@.len(),
        {
            let ghost t0 = self.trail@.len();
            let mut changed = false;
            let mut i: usize = 0;
            while i < self.clauses.len()
                invariant
                    self.wf(),
                    *old(self) == s0,
                    self.num_vars == n,
                    n == s0.num_vars,
                    self.trail_lim@ == s0.trail_lim@,
                    s0.trail@.len() <= self.trail@.len(),
                    self.trail@.subrange(0, s0.trail@.len() as int) == s0.trail@,
                    self.clauses@ == s0.clauses@,
                    self.original@ == s0.original@,
                    self.phase@ == s0.phase@,
                    !changed ==> self.trail@.len() == t0,
                    changed ==> self.trail@.len() > t0,
                    !changed ==> forall|c: int| 0 <= c < i ==> is_open(self.assign@, (#[trigger] self.clauses@[c])@),
                decreases self.clauses@.len() - i,
            {
                assert(clause_ok(self.n(), self.clauses@[i as int]@));
                match clause_status(&self.assign, &self.clauses[i]) {
                    Status::Open => {},
                    Status::Falsified => {
                        return Some(i);
                    },
                    Status::Unit(u) => {
                        let ghost tr0 = self.trail@;
                        self.push_assignment(u, Some(i), false);
                        changed = true;
                        assert(self.trail@.subrange(0, s0.trail@.len() as int) =~= tr0.subrange(0, s0.trail@.len() as int));
                    },
                }
                i += 1;
            }
            if !changed {
                return None;
            }
            proof {
                lemma_trail_len(self);
            }
        }
    }

    /// The unassigned variable of highest activity (the lowest such one on a
    /// tie), with its saved polarity; `None` when every variable is assigned.
    pub fn pick_branch(&self) -> (r: Option<i32>)
        requires
            self.wf(),
        ensures
            r is None ==> forall|v: int| 1 <= v <= self.n() ==> #[trigger] self.assign@[v] is Some,
            r matches Some(l) ==> {
                &&& lit_ok(self.n(), l)
                &&& self.assign@[lit_var(l)] is None
                &&& (l > 0) == self.phase@[lit_var(l)]
                &&& forall|w: int|
                    1 <= w <= self.n() && #[trigger] self.assign@[w] is None ==> self.activity.score@[w]
                        <= self.activity.score@[lit_var(l)]
            },
    {
        let n = self.num_vars;
        let mut best: usize = 0;
        let mut v: usize = 1;
        while v <= n
            invariant
                self.wf(),
                n == self.num_vars,
                1 <= v <= n + 1,
                best < v,
                best != 0 ==> self.assign@[best as int] is None,
                best == 0 ==> forall|w: int| 1 <= w < v ==> #[trigger] self.assign@[w] is Some,
                best != 0 ==> forall|w: int|
                    1 <= w < v && #[trigger] self.assign@[w] is None ==> self.activity.score@[w]
                        <= self.activity.score@[best as int],
            decreases n + 1 - v,
        {
            if self.assign[v].is_none() && (best == 0 || self.activity.score[v] > self.activity.score[best]) {
                best = v;
            }
            v += 1;
        }
        if best == 0 {
            None
        } else {
            let l = best as i32;
            if self.phase[best] {
                Some(l)
            } else {
                Some(-l)
            }
        }
    }

    /// The clause that forbids the current decisions: the negation of the
    /// decision literal of each level.
    pub fn decision_clause(&self) -> (r: Vec<i32>)
        requires
            self.wf(),
        ensures
            clause_ok(self.n(), r@),
            r@.len() == self.trail_lim@.len(),
            forall|k: int| 0 <= k < r@.len() ==> #[trigger] r@[k] == -self.trail@[self.trail_lim@[k] as int],
    {
        let mut r: Vec<i32> = Vec::new();
        let mut k: usize = 0;
        while k < self.trail_lim.len()
            invariant
                self.wf(),
                k <= self.trail_lim@.len(),
                r@.len() == k,
                clause_ok(self.n(), r@),
                forall|x: int| 0 <= x < k ==> #[trigger] r@[x] == -self.trail@[self.trail_lim@[x] as int],
            decreases self.trail_lim@.len() - k,
        {
            let l = self.trail[self.trail_lim[k]];
            assert(lit_ok(self.n(), self.trail@[self.trail_lim@[k as int] as int]));
            r.push(-l);
            k += 1;
        }
        r
    }

    /// First-UIP conflict analysis: resolves the falsified clause `conflict`
    /// with the reasons of current-level literals, latest first, until one
    /// current-level literal is left. Returns the learned clause, that
    /// literal's negation first, and the level to jump back to: the highest
    /// level among the other literals, or 0. `None` when the walk meets a
    /// literal it cannot resolve (a caller then learns the decision clause).
    pub fn analyze(&self, conflict: usize) -> (r: Option<(Vec<i32>, usize)>)
        requires
            self.wf(),
            conflict < self.clauses@.len(),
            self.trail_lim@.len() >= 1,
        ensures
            r matches Some((c, bj)) ==> {
                &&& clause_ok(self.n(), c@)
                &&& c@.len() >= 1
                &&& bj < self.trail_lim@.len()
                &&& self.level@[lit_var(c@[0])] >= self.trail_lim@.len()
                &&& forall|k: int| 1 <= k < c@.len() ==> 0 < #[trigger] self.level@[lit_var(c@[k])] <= bj
            },
    {
        let n = self.num_vars;
        let cur = self.trail_lim.len();
        let mut seen: Vec<bool> = Vec::new();
        let mut v: usize = 0;
        while v <= n
            invariant
                v <= n + 1,
                n == self.num_vars,
                self.wf(),
                seen@.len() == v,
            decreases n + 1 - v,
        {
            seen.push(false);
            v += 1;
        }
        let mut rest: Vec<i32> = Vec::new();
        let mut path: usize = 0;
        let mut cl: usize = conflict;
        let mut skip: usize = 0;
        let mut idx: usize = self.trail.len();
        let mut p: i32;
        loop
            invariant
                self.wf(),
                n == self.num_vars,
                cur == self.trail_lim@.len(),
                cur >= 1,
                seen@.len() == n + 1,
                cl < self.clauses@.len(),
                idx <= self.trail@.len(),
                clause_ok(self.n(), rest@),
                forall|k: int| 0 <= k < rest@.len() ==> 0 < #[trigger] self.level@[lit_var(rest@[k])] < cur,
            decreases idx,
        {
            let c = &self.clauses[cl];
            assert(clause_ok(self.n(), self.clauses@[cl as int]@));
            let mut k: usize = 0;
            while k < c.len()
                invariant
                    self.wf(),
                    n == self.num_vars,
                    cur == self.trail_lim@.len(),
                    seen@.len() == n + 1,
                    c@ == self.clauses@[cl as int]@,
                    clause_ok(self.n(), c@),
                    k <= c@.len(),
                    clause_ok(self.n(), rest@),
                    forall|t: int| 0 <= t < rest@.len() ==> 0 < #[trigger] self.level@[lit_var(rest@[t])] < cur,
                decreases c@.len() - k,
            {
                let q = c[k];
                assert(lit_ok(self.n(), c@[k as int]));
                let w: usize = if q < 0 { (-q) as usize } else { q as usize };
                if w != skip && !seen[w] && self.level[w] > 0 {
                    seen.set(w, true);
                    if self.level[w] >= cur {
                        if path < usize::MAX {
                            path = path + 1;
                        }
                    } else {
                        let ghost r0 = rest@;
                        rest.push(q);
                        proof {
                            assert forall|t: int| 0 <= t < rest@.len() implies lit_ok(self.n(), #[trigger] rest@[t]) by {
                                if t < r0.len() {
                                    assert(rest@[t] == r0[t]);
                                }
                            }
                            assert forall|t: int| 0 <= t < rest@.len() implies 0 < #[trigger] self.level@[lit_var(rest@[t])] < cur by {
                                if t < r0.len() {
                                    assert(rest@[t] == r0[t]);
                                }
                            }
                        }
                    }
                }
                k += 1;
            }
            let ghost start = idx;
            let mut found = false;
            while !found
                invariant
                    self.wf(),
                    n == self.num_vars,
                    cur == self.trail_lim@.len(),
                    seen@.len() == n + 1,
                    idx <= start <= self.trail@.len(),
                    found ==> idx < start,
                    found ==> self.level@[lit_var(self.trail@[idx as int])] >= cur,
                decreases idx + (if found { 0int } else { 1int }),
            {
                if idx == 0 {
                    return None;
                }
                idx -= 1;
                let l = self.trail[idx];
                assert(lit_ok(self.n(), self.trail@[idx as int]));
                let w: usize = if l < 0 { (-l) as usize } else { l as usize };
                if seen[w] && self.level[w] >= cur {
                    found = true;
                }
            }
            p = self.trail[idx];
            assert(lit_ok(self.n(), self.trail@[idx as int]));
            let w: usize = if p < 0 { (-p) as usize } else { p as usize };
            seen.set(w, false);
            if path <= 1 {
                let mut bj: usize = 0;
                let mut t: usize = 0;
                while t < rest.len()
                    invariant
                        self.wf(),
                        cur == self.trail_lim@.len(),
                        t <= rest@.len(),
                        clause_ok(self.n(), rest@),
                        forall|x: int| 0 <= x < rest@.len() ==> 0 < #[trigger] self.level@[lit_var(rest@[x])] < cur,
                        bj < cur,
                        forall|x: int| 0 <= x < t ==> #[trigger] self.level@[lit_var(rest@[x])] <= bj,
                    decreases rest@.len() - t,
                {
                    let q = rest[t];
                    assert(lit_ok(self.n(), rest@[t as int]));
                    let u: usize = if q < 0 { (-q) as usize } else { q as usize };
                    if self.level[u] > bj {
                        bj = self.level[u];
                    }
                    t += 1;
                }
                let np: i32 = -p;
                let mut c: Vec<i32> = Vec::new();
                c.push(np);
                let mut t: usize = 0;
                while t < rest.len()
                    invariant
                        self.wf(),
                        t <= rest@.len(),
                        clause_ok(self.n(), rest@),
                        c@.len() == t + 1,
                        c@[0] == np,
                        lit_ok(self.n(), np),
                        lit_var(np) == lit_var(p),
                        forall|x: int| 0 <= x < t ==> c@[x + 1] == #[trigger] rest@[x],
                    decreases rest@.len() - t,
                {
                    c.push(rest[t]);
                    t += 1;
                }
                proof {
                    assert forall|x: int| 0 <= x < c@.len() implies lit_ok(self.n(), #[trigger] c@[x]) by {
                        if x > 0 {
                            assert(c@[x] == rest@[x - 1]);
                        }
                    }
                    assert forall|x: int| 1 <= x < c@.len() implies 0 < #[trigger] self.level@[lit_var(c@[x])] <= bj by {
                        assert(c@[x] == rest@[x - 1]);
                    }
                    assert(lit_var(c@[0]) == lit_var(p));
                }
                return Some((c, bj));
            }
            path = path - 1;
            match self.reason[w] {
                Some(c2) => {
                    cl = c2;
                },
                None => {
                    return None;
                },
            }
            skip = w;
        }
    }

    /// The decision levels in `1..=cur` of the variables of `c[..k]`.
    pub open spec fn levels_of(&self, c: Seq<i32>, k: int, cur: int) -> Set<int> {
        Set::new(|lv: int| 1 <= lv <= cur && exists|t: int| 0 <= t < k && self.level@[lit_var(c[t])] as int == lv)
    }

    /// The literal block distance of `c`: the number of distinct decision
    /// levels, from 1 to the current one, among its variables.
    pub fn lbd(&self, c: &Vec<i32>) -> (r: u64)
        requires
            self.wf(),
            clause_ok(self.n(), c@),
            self.trail_lim@.len() < usize::MAX,
        ensures
            r as int == self.levels_of(c@, c@.len() as int, self.trail_lim@.len() as int).len(),
            r <= c@.len(),
    {
        let cur = self.trail_lim.len();
        let ghost ci = cur as int;
        let mut marks: Vec<bool> = Vec::new();
        let mut x: usize = 0;
        while x <= cur
            invariant
                x <= cur + 1,
                cur == self.trail_lim@.len(),
                cur < usize::MAX,
                marks@.len() == x,
                forall|y: int| 0 <= y < x ==> !#[trigger] marks@[y],
            decreases cur + 1 - x,
        {
            marks.push(false);
            x += 1;
        }
        let mut count: u64 = 0;
        let mut k: usize = 0;
        proof {
            assert(self.levels_of(c@, 0, ci) =~= Set::<int>::empty());
        }
        while k < c.len()
            invariant
                self.wf(),
                cur == self.trail_lim@.len(),
                ci == cur as int,
                marks@.len() == cur + 1,
                clause_ok(self.n(), c@),
                k <= c@.len(),
                count <= k,
                self.levels_of(c@, k as int, ci).finite(),
                count as int == self.levels_of(c@, k as int, ci).len(),
                forall|lv: int| 1 <= lv <= ci ==> (#[trigger] marks@[lv] <==> self.levels_of(c@, k as int, ci).contains(lv)),
            decreases c@.len() - k,
        {
            let q = c[k];
            assert(lit_ok(self.n(), c@[k as int]));
            let u: usize = if q < 0 { (-q) as usize } else { q as usize };
            let lv = self.level[u];
            let ghost old_set = self.levels_of(c@, k as int, ci);
            let ghost new_set = self.levels_of(c@, k + 1, ci);
            assert(lit_var(c@[k as int]) == u);
            if 1 <= lv && lv <= cur && !marks[lv] {
                marks.set(lv, true);
                count = count + 1;
                proof {
                    assert(new_set =~= old_set.insert(lv as int));
                    assert(!old_set.contains(lv as int));
                }
            } else {
                proof {
                    assert(new_set =~= old_set);
                }
            }
            proof {
                assert forall|y: int| 1 <= y <= ci implies (#[trigger] marks@[y] <==> new_set.contains(y)) by {
                    if y != lv {
                        assert(old_set.contains(y) == new_set.contains(y));
                    }
                }
            }
            k += 1;
        }
        count
    }

    /// The total assignment that the current values describe; unassigned
    /// variables are false.
    pub fn model(&self) -> (m: Vec<bool>)
        requires
            self.wf(),
        ensures
            is_model(self.n(), m@),
            forall|v: int| 0 <= v <= self.n() ==> #[trigger] m@[v] == (self.assign@[v] == Some(true)),
    {
        let mut m: Vec<bool> = Vec::new();
        let mut v: usize = 0;
        while v <= self.num_vars
            invariant
                self.wf(),
                v <= self.n() + 1,
                m@.len() == v,
                forall|w: int| 0 <= w < v ==> #[trigger] m@[w] == (self.assign@[w] == Some(true)),
            decreases self.n() + 1 - v,
        {
            m.push(self.assign[v] == Some(true));
            v += 1;
        }
        m
    }

    /// A solver for the formula `clauses` over `n` variables, with nothing
    /// assigned and nothing learned.
    pub fn build(n: usize, clauses: &Vec<Vec<i32>>, config: &Config) -> (r: Result<Solver, BuildError>)
        ensures
            n >= i32::MAX ==> r == Err::<Solver, BuildError>(BuildError::TooManyVars),
            n < i32::MAX && !formula_ok(n as nat, clauses@) ==> r == Err::<Solver, BuildError>(
                BuildError::BadLiteral,
            ),
            formula_ok(n as nat, clauses@) && !config.valid() ==> r == Err::<Solver, BuildError>(
                BuildError::BadConfig,
            ),
            formula_ok(n as nat, clauses@) && config.valid() ==> (r matches Ok(s) && {
                &&& s.wf()
                &&& s.num_vars == n
                &&& s.original@.len() == clauses@.len()
                &&& forall|i: int| 0 <= i < clauses@.len() ==> #[trigger] s.original@[i]@ == clauses@[i]@
                &&& s.clauses@.len() == clauses@.len()
                &&& s.trail@.len() == 0
                &&& s.trail_lim@.len() == 0
                &&& s.certificate@.len() == 0
            }),
    {
        if n >= i32::MAX as usize {
            return Err(BuildError::TooManyVars);
        }
        let mut original: Vec<Vec<i32>> = Vec::new();
        let mut db: Vec<Vec<i32>> = Vec::new();
        let mut i: usize = 0;
        while i < clauses.len()
            invariant
                i <= clauses@.len(),
                n < i32::MAX,
                original@.len() == i,
                db@.len() == i,
                forall|k: int| 0 <= k < i ==> #[trigger] original@[k]@ == clauses@[k]@,
                forall|k: int| 0 <= k < i ==> #[trigger] db@[k]@ == clauses@[k]@,
                forall|k: int| 0 <= k < i ==> clause_ok(n as nat, #[trigger] clauses@[k]@),
            decreases clauses@.len() - i,
        {
            if !crate::rup::clause_in_range(n, &clauses[i]) {
                return Err(BuildError::BadLiteral);
            }
            original.push(copy_clause(&clauses[i]));
            db.push(copy_clause(&clauses[i]));
            i += 1;
        }
        if !config.is_valid() {
            return Err(BuildError::BadConfig);
        }
        let mut assign: Vec<Option<bool>> = Vec::new();
        let mut level: Vec<usize> = Vec::new();
        let mut reason: Vec<Option<usize>> = Vec::new();
        let mut phase: Vec<bool> = Vec::new();
        let mut v: usize = 0;
        while v <= n
            invariant
                v <= n + 1,
                n < i32::MAX,
                assign@.len() == v,
                level@.len() == v,
                reason@.len() == v,
                phase@.len() == v,
                forall|w: int| 0 <= w < v ==> #[trigger] assign@[w] is None,
                forall|w: int| 0 <= w < v ==> #[trigger] reason@[w] is None,
            decreases n + 1 - v,
        {
            assign.push(None);
            level.push(0);
            reason.push(None);
            phase.push(false);
            v += 1;
        }
        let s = Solver {
            num_vars: n,
            original,
            clauses: db,
            assign,
            level,
            reason,
            trail: Vec::new(),
            trail_lim: Vec::new(),
            phase,
            activity: VarActivity::new(n),
            restart: RestartPolicy::new(
                config.restart_lbd_len,
                config.restart_asg_len,
                config.restart_step,
                config.restart_threshold,
                config.restart_blocking,
            ),
            certificate: Vec::new(),
            conflicts: 0,
            decisions: 0,
        };
        proof {
            assert forall|k: int| 0 <= k < s.clauses@.len() implies clause_ok(s.n(), #[trigger] s.clauses@[k]@) by {
                assert(clause_ok(n as nat, clauses@[k]@));
            }
            assert forall|k: int| 0 <= k < s.original@.len() implies clause_ok(s.n(), #[trigger] s.original@[k]@) by {
                assert(clause_ok(n as nat, clauses@[k]@));
            }
        }
        Ok(s)
    }

    /// Adds a learned clause to the clause database and to the certificate.
    fn add_learned(&mut self, c: Vec<i32>)
        requires
            old(self).wf(),
            clause_ok(old(self).n(), c@),
        ensures
            final(self).wf(),
            final(self).clauses@ == old(self).clauses@.push(c),
            final(self).certificate@.len() == old(self).certificate@.len() + 1,
            final(self).certificate@.last()@ == c@,
            final(self).trail@ == old(self).trail@,
            final(self).trail_lim@ == old(self).trail_lim@,
            final(self).original@ == old(self).original@,
            final(self).num_vars == old(self).num_vars,
            final(self).activity == old(self).activity,
    {
        let ghost s0 = *self;
        self.certificate.push(copy_clause(&c));
        self.clauses.push(c);
        proof {
            assert forall|k: int| 0 <= k < self.clauses@.len() implies clause_ok(self.n(), #[trigger] self.clauses@[k]@) by {
                if k < s0.clauses@.len() {
                    assert(self.clauses@[k] == s0.clauses@[k]);
                }
            }
            assert forall|v: int| 0 <= v <= self.n() && #[trigger] self.reason@[v] is Some implies self.reason@[v]->Some_0 < self.clauses@.len() by {
                assert(s0.reason@[v] is Some);
            }
            assert(self.trail_ok());
            assert(self.levels_ok());
        }
    }

    /// Goes back to decision level zero. Activities, saved polarities of the
    /// variables still assigned, and the clause database stay as they are.
    pub fn restart_search(&mut self)
        requires
            old(self).wf(),
        ensures
            final(self).wf(),
            final(self).trail_lim@.len() == 0,
            final(self).trail@ == old(self).trail@.subrange(0, old(self).kept_len(0) as int),
            final(self).activity == old(self).activity,
            final(self).clauses@ == old(self).clauses@,
            final(self).original@ == old(self).original@,
            final(self).certificate@ == old(self).certificate@,
            final(self).restart == old(self).restart,
            final(self).num_vars == old(self).num_vars,
    {
        self.backtrack(0);
    }

    /// Searches for a model or a refutation for at most `steps` steps.
    /// A model is checked against the given clauses, and a refutation is
    /// checked by `check_refutation`, before either is reported.
    pub fn solve(&mut self, steps: u64) -> (r: Verdict)
        requires
            old(self).wf(),
        ensures
            final(self).wf(),
            final(self).original@ == old(self).original@,
            final(self).num_vars == old(self).num_vars,
            r matches Verdict::Sat(m) ==> is_model(final(self).n(), m@) && satisfies(m@, final(self).original@),
            r is Unsat ==> unsatisfiable(final(self).n(), final(self).original@),
    {
        let ghost s0 = *self;
        let mut fuel = steps;
        while fuel > 0
            invariant
                self.wf(),
                *old(self) == s0,
                self.original@ == s0.original@,
                self.num_vars == s0.num_vars,
            decreases fuel,
        {
            fuel = fuel - 1;
            match self.propagate() {
                Some(conflict) => {
                    if self.conflicts < u64::MAX {
                        self.conflicts = self.conflicts + 1;
                    }
                    let lvl = self.trail_lim.len();
                    if lvl == 0 {
                        self.certificate.push(Vec::new());
                        if check_refutation(self.num_vars, &self.original, &self.certificate) {
                            return Verdict::Unsat;
                        }
                        return Verdict::Fault;
                    }
                    let (learned, bj) = match self.analyze(conflict) {
                        Some(x) => x,
                        None => (self.decision_clause(), lvl - 1),
                    };
                    let mut k: usize = 0;
                    while k < learned.len()
                        invariant
                            self.wf(),
                            self.original@ == s0.original@,
                            self.num_vars == s0.num_vars,
                            clause_ok(self.n(), learned@),
                            lvl == self.trail_lim@.len(),
                        decreases learned@.len() - k,
                    {
                        let l = learned[k];
                        assert(lit_ok(self.n(), learned@[k as int]));
                        let v: usize = if l < 0 { (-l) as usize } else { l as usize };
                        self.activity.bump_var(v);
                        k += 1;
                    }
                    self.activity.decay();
                    let lbd: u64 = if lvl == usize::MAX { 0 } else {
                        let b = self.lbd(&learned);
                        if b > u32::MAX as u64 { u32::MAX as u64 } else { b }
                    };
                    self.backtrack(bj);
                    self.add_learned(learned);
                    let tl: u64 = if self.trail.len() > u32::MAX as usize { u32::MAX as u64 } else { self.trail.len() as u64 };
                    if self.restart.on_conflict(lbd, tl) {
                        self.restart_search();
                    }
                },
                None => {
                    match self.pick_branch() {
                        None => {
                            let m = self.model();
                            if validate(&m, &self.original).is_none() {
                                return Verdict::Sat(m);
                            }
                            return Verdict::Fault;
                        },
                        Some(l) => {
                            if self.trail_lim.len() == usize::MAX {
                                return Verdict::Unknown;
                            }
                            if self.decisions < u64::MAX {
                                self.decisions = self.decisions + 1;
                            }
                            self.push_assignment(l, None, true);
                        },
                    }
                },
            }
        }
        Verdict::Unknown
    }
}

} // verus!
