//! The bounded-concurrency fetch scheduler, as a state machine over
//! plain counters.
//!
//! A fixed pool of permits bounds how many tasks are in flight at once.
//! The surrounding program owns the actual task handles; it may start a
//! task only when `try_start` grants a permit, and it reports each task's
//! terminal state through `finish`. Every task ends as completed or
//! failed; completed work is never rolled back when a sibling fails.

use vstd::prelude::*;

verus! {

/// The default number of simultaneously in-flight fetches.
pub const DEFAULT_CONCURRENCY_LIMIT: usize = 16;

/// Counters of a scheduling batch: every task is pending, in flight,
/// completed or failed, and at most `limit` are in flight at once.
pub struct Scheduler {
    pub limit: usize,
    pub total: usize,
    pub pending: usize,
    pub in_flight: usize,
    pub completed: usize,
    pub failed: usize,
}

impl Scheduler {
    /// Every task is in exactly one state, and the in-flight tasks never
    /// outnumber the permits.
    pub open spec fn wf(&self) -> bool {
        &&& self.limit >= 1
        &&& self.in_flight <= self.limit
        &&& self.pending + self.in_flight + self.completed + self.failed == self.total
    }

    /// A fresh batch of `total` pending tasks under `limit` permits.
    pub fn new(total: usize, limit: usize) -> (s: Scheduler)
        requires
            limit >= 1,
        ensures
            s.wf(),
            s.limit == limit,
            s.total == total,
            s.pending == total,
            s.in_flight == 0,
            s.completed == 0,
            s.failed == 0,
    {
        Scheduler { limit, total, pending: total, in_flight: 0, completed: 0, failed: 0 }
    }

    /// Grants a permit for one pending task when a permit is free;
    /// otherwise changes nothing.
    pub fn try_start(&mut self) -> (started: bool)
        requires
            old(self).wf(),
        ensures
            final(self).wf(),
            started <==> old(self).pending > 0 && old(self).in_flight < old(self).limit,
            started ==> *final(self) == (Scheduler {
                pending: (old(self).pending - 1) as usize,
                in_flight: (old(self).in_flight + 1) as usize,
                ..*old(self)
            }),
            !started ==> *final(self) == *old(self),
    {
        if self.pending > 0 && self.in_flight < self.limit {
            self.pending = self.pending - 1;
            self.in_flight = self.in_flight + 1;
            true
        } else {
            false
        }
    }

    /// Returns one in-flight task's permit and records its terminal
    /// state. The permit is released whatever the outcome was.
    pub fn finish(&mut self, success: bool)
        requires
            old(self).wf(),
            old(self).in_flight > 0,
        ensures
            final(self).wf(),
            success ==> *final(self) == (Scheduler {
                in_flight: (old(self).in_flight - 1) as usize,
                completed: (old(self).completed + 1) as usize,
                ..*old(self)
            }),
            !success ==> *final(self) == (Scheduler {
                in_flight: (old(self).in_flight - 1) as usize,
                failed: (old(self).failed + 1) as usize,
                ..*old(self)
            }),
    {
        self.in_flight = self.in_flight - 1;
        if success {
            self.completed = self.completed + 1;
        } else {
            self.failed = self.failed + 1;
        }
    }

    /// Whether every task has reached a terminal state.
    pub fn is_done(&self) -> (r: bool)
        ensures
            r == (self.pending == 0 && self.in_flight == 0),
    {
        self.pending == 0 && self.in_flight == 0
    }

    /// The batch's aggregate outcome: success exactly when no task
    /// failed.
    pub fn succeeded(&self) -> (r: bool)
        requires
            self.wf(),
        ensures
            r == (self.failed == 0),
    {
        self.failed == 0
    }
}

/// The concurrency bound: in every reachable scheduler state - every
/// state satisfying the invariant that `new`, `try_start` and `finish`
/// establish and preserve - the number of tasks holding a permit is at
/// most the permit limit.
pub proof fn lemma_in_flight_bounded(s: Scheduler)
    requires
        s.wf(),
    ensures
        s.in_flight <= s.limit,
{
}

} // verus!
