//! Variable activity (VSIDS) on integers: each conflict bumps the variables
//! it touched by the current bump amount, and the bump amount grows after
//! every conflict instead of every score decaying. When a score or the bump
//! amount would pass `ACTIVITY_LIMIT` (2^60), all of them are divided by
//! `RESCALE_DIVISOR` (2^30), which keeps their order.
use vstd::prelude::*;

verus! {

pub const ACTIVITY_LIMIT: u64 = 0x1000_0000_0000_0000;

pub const RESCALE_DIVISOR: u64 = 0x4000_0000;

/// The bump amount grows by one part in `BUMP_GROWTH` per conflict.
pub const BUMP_GROWTH: u64 = 16;

/// Activity scores, indexed by variable.
pub struct VarActivity {
    pub score: Vec<u64>,
    pub bump: u64,
}

/// The scores after a rescale.
pub open spec fn rescaled(s: Seq<u64>) -> Seq<u64> {
    Seq::new(s.len(), |x: int| s[x] / RESCALE_DIVISOR)
}

impl VarActivity {
    pub open spec fn wf(&self) -> bool {
        &&& forall|x: int| 0 <= x < self.score@.len() ==> #[trigger] self.score@[x] <= ACTIVITY_LIMIT
        &&& 1 <= self.bump <= ACTIVITY_LIMIT
    }

    /// All scores zero, bump amount one.
    pub fn new(n: usize) -> (r: VarActivity)
        requires
            n < usize::MAX,
        ensures
            r.wf(),
            r.score@.len() == n + 1,
            r.bump == 1,
            forall|x: int| 0 <= x <= n ==> #[trigger] r.score@[x] == 0,
    {
        let mut score: Vec<u64> = Vec::new();
        let mut v: usize = 0;
        while v <= n
            invariant
                v <= n + 1,
                n < usize::MAX,
                score@.len() == v,
                forall|x: int| 0 <= x < v ==> #[trigger] score@[x] == 0,
            decreases n + 1 - v,
        {
            score.push(0);
            v += 1;
        }
        VarActivity { score, bump: 1 }
    }

    /// Divides every score and the bump amount by `RESCALE_DIVISOR`; the bump
    /// amount stays positive.
    fn rescale(&mut self)
        requires
            forall|x: int| 0 <= x < old(self).score@.len() ==> #[trigger] old(self).score@[x] <= 2 * ACTIVITY_LIMIT,
            old(self).bump <= 2 * ACTIVITY_LIMIT,
        ensures
            final(self).score@ == rescaled(old(self).score@),
            final(self).bump == old(self).bump / RESCALE_DIVISOR + 1,
            forall|x: int| 0 <= x < final(self).score@.len() ==> #[trigger] final(self).score@[x] <= ACTIVITY_LIMIT,
            1 <= final(self).bump <= ACTIVITY_LIMIT,
    {
        let ghost s0 = self.score@;
        let mut x: usize = 0;
        while x < self.score.len()
            invariant
                x <= self.score@.len(),
                self.score@.len() == s0.len(),
                self.bump == old(self).bump,
                s0 == old(self).score@,
                forall|y: int| 0 <= y < s0.len() ==> #[trigger] s0[y] <= 2 * ACTIVITY_LIMIT,
                forall|y: int| 0 <= y < x ==> #[trigger] self.score@[y] == s0[y] / RESCALE_DIVISOR,
                forall|y: int| x <= y < s0.len() ==> #[trigger] self.score@[y] == s0[y],
            decreases s0.len() - x,
        {
            let a = self.score[x] / RESCALE_DIVISOR;
            self.score.set(x, a);
            x += 1;
        }
        assert(self.score@ =~= rescaled(s0));
        self.bump = self.bump / RESCALE_DIVISOR + 1;
    }

    /// Raises the score of variable `v` by the bump amount.
    pub fn bump_var(&mut self, v: usize)
        requires
            old(self).wf(),
            v < old(self).score@.len(),
        ensures
            final(self).wf(),
            final(self).score@.len() == old(self).score@.len(),
            ({
                let raised = old(self).score@.update(v as int, (old(self).score@[v as int] + old(self).bump) as u64);
                if old(self).score@[v as int] + old(self).bump <= ACTIVITY_LIMIT {
                    final(self).score@ == raised && final(self).bump == old(self).bump
                } else {
                    final(self).score@ == rescaled(raised) && final(self).bump == old(self).bump
                        / RESCALE_DIVISOR + 1
                }
            }),
    {
        let a = self.score[v] + self.bump;
        self.score.set(v, a);
        if a > ACTIVITY_LIMIT {
            self.rescale();
        }
    }

    /// Makes later bumps weigh more than earlier ones.
    pub fn decay(&mut self)
        requires
            old(self).wf(),
        ensures
            final(self).wf(),
            final(self).score@.len() == old(self).score@.len(),
            ({
                let grown: int = old(self).bump + old(self).bump / BUMP_GROWTH + 1;
                if grown <= ACTIVITY_LIMIT {
                    final(self).score@ == old(self).score@ && final(self).bump == grown
                } else {
                    final(self).score@ == rescaled(old(self).score@) && final(self).bump as int
                        == grown / (RESCALE_DIVISOR as int) + 1
                }
            }),
    {
        self.bump = self.bump + self.bump / BUMP_GROWTH + 1;
        if self.bump > ACTIVITY_LIMIT {
            self.rescale();
        }
    }
}

} // verus!
