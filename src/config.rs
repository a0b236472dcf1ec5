//! Settings of a solve.
use vstd::prelude::*;
use crate::restart::MAX_WINDOW;

verus! {

/// Restart settings (thresholds in percent) and the step budget.
pub struct Config {
    /// Conflicts that must pass between two restarts.
    pub restart_step: u64,
    /// Length of the fast LBD average.
    pub restart_lbd_len: u64,
    /// Length of the trail-length average.
    pub restart_asg_len: u64,
    /// Forcing restart threshold, in percent.
    pub restart_threshold: u64,
    /// Blocking restart threshold, in percent.
    pub restart_blocking: u64,
    /// Steps (propagations to fixpoint) after which the search gives up.
    pub step_limit: u64,
}

impl Config {
    pub open spec fn valid(&self) -> bool {
        &&& 1 <= self.restart_lbd_len <= MAX_WINDOW
        &&& 1 <= self.restart_asg_len <= MAX_WINDOW
        &&& self.restart_threshold <= 1000
        &&& self.restart_blocking <= 1000
    }

    /// Whether the settings are in range.
    pub fn is_valid(&self) -> (r: bool)
        ensures
            r == self.valid(),
    {
        1 <= self.restart_lbd_len && self.restart_lbd_len <= MAX_WINDOW && 1 <= self.restart_asg_len
            && self.restart_asg_len <= MAX_WINDOW && self.restart_threshold <= 1000
            && self.restart_blocking <= 1000
    }
}

impl Default for Config {
    fn default() -> (r: Config)
        ensures
            r.valid(),
            r.restart_step == 50,
            r.restart_lbd_len == 50,
            r.restart_asg_len == 3500,
            r.restart_threshold == 70,
            r.restart_blocking == 140,
            r.step_limit == 100_000_000,
    {
        Config {
            restart_step: 50,
            restart_lbd_len: 50,
            restart_asg_len: 3500,
            restart_threshold: 70,
            restart_blocking: 140,
            step_limit: 100_000_000,
        }
    }
}

} // verus!
