//! When to write the store: saves requested in a burst are coalesced into one
//! write once requests have settled, and a failed write is retried only after
//! settling again.
use vstd::prelude::*;

verus! {

/// The save decisions of the persistence worker.
pub struct SavePlanner {
    pending: bool,
    last_request: i64,
    settle: i64,
}

/// The value of a [`SavePlanner`]: whether changes await a write, when the
/// last save was requested, and how long requests must settle.
pub struct SavePlannerView {
    pub pending: bool,
    pub last_request: int,
    pub settle: int,
}

impl View for SavePlanner {
    type V = SavePlannerView;

    closed spec fn view(&self) -> SavePlannerView {
        SavePlannerView {
            pending: self.pending,
            last_request: self.last_request as int,
            settle: self.settle as int,
        }
    }
}

impl SavePlanner {
    /// A planner with nothing to write, whose requests settle after `settle`
    /// seconds.
    pub fn new(settle: i64) -> (r: SavePlanner)
        requires
            settle >= 0,
        ensures
            r@ == (SavePlannerView { pending: false, last_request: 0, settle: settle as int }),
    {
        SavePlanner { pending: false, last_request: 0, settle }
    }

    /// Records that the store changed at `now`.
    pub fn request(&mut self, now: i64)
        ensures
            final(self)@ == (SavePlannerView { pending: true, last_request: now as int, ..old(self)@ }),
    {
        self.pending = true;
        self.last_request = now;
    }

    /// Whether a write is due at `now`: changes await it and no save was
    /// requested during the last `settle` seconds.
    pub fn should_write(&self, now: i64) -> (r: bool)
        ensures
            r == (self@.pending && now - self@.last_request >= self@.settle),
    {
        self.pending && (now as i128) - (self.last_request as i128) >= self.settle as i128
    }

    /// Records that a write of everything changed so far has begun.
    pub fn begin_write(&mut self)
        ensures
            final(self)@ == (SavePlannerView { pending: false, ..old(self)@ }),
    {
        self.pending = false;
    }

    /// Records that the write begun earlier failed at `now`: the changes
    /// await the next write, which comes after settling again.
    pub fn write_failed(&mut self, now: i64)
        ensures
            final(self)@ == (SavePlannerView { pending: true, last_request: now as int, ..old(self)@ }),
    {
        self.pending = true;
        self.last_request = now;
    }
}

} // verus!
