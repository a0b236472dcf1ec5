//! The restart policy: exponential moving averages, in fixed point, of the
//! learned clauses' LBD (a fast and a slow one) and of the trail length.
//! A restart is forced when recent clauses are much worse than the long-run
//! average, and blocked while the trail is much longer than usual.
use vstd::prelude::*;

verus! {

/// Fixed-point scale of every moving average.
pub const EMA_SCALE: u64 = 256;

/// Largest value a moving average takes.
pub const EMA_CAP: u64 = 0x100_0000_0000;

/// Length of the slow LBD average.
pub const SLOW_WINDOW: u64 = 16384;

/// Longest window a moving average may have.
pub const MAX_WINDOW: u64 = 65536;

/// One step of a moving average of length `window` that takes in `x`.
pub open spec fn ema_next(ema: u64, x: u64, window: u64) -> u64 {
    let e = (ema * (window - 1) + x * EMA_SCALE) / (window as int);
    if e > EMA_CAP { EMA_CAP } else { e as u64 }
}

/// Moves the average `ema` towards `x`.
pub fn ema_update(ema: u64, x: u64, window: u64) -> (r: u64)
    requires
        ema <= EMA_CAP,
        x <= u32::MAX,
        1 <= window <= MAX_WINDOW,
    ensures
        r == ema_next(ema, x, window),
        r <= EMA_CAP,
{
    assert(ema * (window - 1) <= EMA_CAP * MAX_WINDOW) by (nonlinear_arith)
        requires ema <= EMA_CAP, window - 1 < MAX_WINDOW;
    let e = (ema * (window - 1) + x * EMA_SCALE) / window;
    if e > EMA_CAP { EMA_CAP } else { e }
}

/// The state and settings of the restart policy.
pub struct RestartPolicy {
    /// Fast moving average of learned clauses' LBD.
    pub lbd_fast: u64,
    /// Slow moving average of learned clauses' LBD.
    pub lbd_slow: u64,
    /// Moving average of the trail length at conflicts.
    pub asg: u64,
    pub lbd_window: u64,
    pub asg_window: u64,
    /// Conflicts that must pass between two restarts.
    pub step: u64,
    /// Forcing threshold in percent: restart when the fast average times
    /// this exceeds a hundred times the slow one.
    pub forcing_k: u64,
    /// Blocking threshold in percent: no restart while a hundred times the
    /// trail exceeds this times its average.
    pub blocking_r: u64,
    /// Conflicts since the last restart or block.
    pub since: u64,
    pub restarts: u64,
    pub blocks: u64,
}

impl RestartPolicy {
    pub open spec fn wf(&self) -> bool {
        &&& self.lbd_fast <= EMA_CAP
        &&& self.lbd_slow <= EMA_CAP
        &&& self.asg <= EMA_CAP
        &&& 1 <= self.lbd_window <= MAX_WINDOW
        &&& 1 <= self.asg_window <= MAX_WINDOW
        &&& self.forcing_k <= 1000
        &&& self.blocking_r <= 1000
    }

    /// A policy with the given windows, step and thresholds (in percent).
    pub fn new(lbd_window: u64, asg_window: u64, step: u64, forcing_k: u64, blocking_r: u64) -> (r: RestartPolicy)
        requires
            1 <= lbd_window <= MAX_WINDOW,
            1 <= asg_window <= MAX_WINDOW,
            forcing_k <= 1000,
            blocking_r <= 1000,
        ensures
            r.wf(),
            r.lbd_fast == 0 && r.lbd_slow == 0 && r.asg == 0,
            r.lbd_window == lbd_window && r.asg_window == asg_window && r.step == step,
            r.forcing_k == forcing_k && r.blocking_r == blocking_r,
            r.since == 0 && r.restarts == 0 && r.blocks == 0,
    {
        RestartPolicy {
            lbd_fast: 0,
            lbd_slow: 0,
            asg: 0,
            lbd_window,
            asg_window,
            step,
            forcing_k,
            blocking_r,
            since: 0,
            restarts: 0,
            blocks: 0,
        }
    }

    /// The trail is long against its average: the search is making progress.
    pub open spec fn blocking(&self, trail_len: u64) -> bool {
        trail_len * EMA_SCALE * 100 > self.asg * self.blocking_r
    }

    /// Recent clauses are much worse than the long-run average.
    pub open spec fn forcing(&self) -> bool {
        self.lbd_fast * self.forcing_k > self.lbd_slow * 100
    }

    /// Takes in a conflict whose learned clause has LBD `lbd`, with `trail_len`
    /// literals on the trail; returns whether to restart now.
    pub fn on_conflict(&mut self, lbd: u64, trail_len: u64) -> (r: bool)
        requires
            old(self).wf(),
            lbd <= u32::MAX,
            trail_len <= u32::MAX,
        ensures
            final(self).wf(),
            final(self).lbd_fast == ema_next(old(self).lbd_fast, lbd, old(self).lbd_window),
            final(self).lbd_slow == ema_next(old(self).lbd_slow, lbd, SLOW_WINDOW),
            final(self).asg == ema_next(old(self).asg, trail_len, old(self).asg_window),
            ({
                let counted = if old(self).since < u64::MAX { old(self).since + 1 } else { old(self).since as int };
                let due = counted >= old(self).step;
                &&& r == (due && !final(self).blocking(trail_len) && final(self).forcing())
                &&& final(self).since == (if due && (final(self).blocking(trail_len) || final(self).forcing()) { 0 } else { counted })
                &&& final(self).restarts == (if r && old(self).restarts < u64::MAX { old(self).restarts + 1 } else { old(self).restarts as int })
                &&& final(self).blocks == (if due && final(self).blocking(trail_len) && old(self).blocks < u64::MAX { old(self).blocks + 1 } else { old(self).blocks as int })
            }),
            final(self).lbd_window == old(self).lbd_window,
            final(self).asg_window == old(self).asg_window,
            final(self).step == old(self).step,
            final(self).forcing_k == old(self).forcing_k,
            final(self).blocking_r == old(self).blocking_r,
    {
        self.asg = ema_update(self.asg, trail_len, self.asg_window);
        self.lbd_fast = ema_update(self.lbd_fast, lbd, self.lbd_window);
        self.lbd_slow = ema_update(self.lbd_slow, lbd, SLOW_WINDOW);
        if self.since < u64::MAX {
            self.since = self.since + 1;
        }
        if self.since < self.step {
            return false;
        }
        assert(self.asg * self.blocking_r <= EMA_CAP * 1000) by (nonlinear_arith)
            requires self.asg <= EMA_CAP, self.blocking_r <= 1000;
        assert(self.lbd_fast * self.forcing_k <= EMA_CAP * 1000) by (nonlinear_arith)
            requires self.lbd_fast <= EMA_CAP, self.forcing_k <= 1000;
        if trail_len * EMA_SCALE * 100 > self.asg * self.blocking_r {
            self.since = 0;
            if self.blocks < u64::MAX {
                self.blocks = self.blocks + 1;
            }
            return false;
        }
        if self.lbd_fast * self.forcing_k > self.lbd_slow * 100 {
            self.since = 0;
            if self.restarts < u64::MAX {
                self.restarts = self.restarts + 1;
            }
            return true;
        }
        false
    }
}

} // verus!
