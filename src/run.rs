//! The decisions of a segmented download run: admit segments, wait for
//! completions, drain after a failure, and finish.
use vstd::prelude::*;
use crate::scheduler::{Scheduler, SchedulerView, SegmentStats, SegmentTask, rate_of};

verus! {

/// What the run loop does next.
#[derive(Debug, Clone, Copy, PartialEq, Eq, Structural)]
pub enum RunAction {
    /// Start a worker for this segment.
    Spawn(SegmentTask),
    /// Wait for the next worker to finish; at least one is running.
    AwaitCompletion,
    /// Every segment is done: finalize the file and the part map.
    Finalize,
    /// A worker failed and every other worker has finished: fail the run.
    Fail,
}

/// A segmented download in progress: the scheduler, the workers running,
/// and whether one of them failed.
pub struct SegmentedRun {
    pub scheduler: Scheduler,
    pub in_flight: usize,
    pub failed: bool,
}

impl SegmentedRun {
    /// Every running worker is one the scheduler counts as active.
    pub open spec fn wf(&self) -> bool {
        &&& self.scheduler.wf()
        &&& self.in_flight == self.scheduler@.active
    }

    pub fn new(scheduler: Scheduler) -> (r: SegmentedRun)
        requires
            scheduler.wf(),
            scheduler@.active == 0,
        ensures
            r.wf(),
            r.scheduler@ == scheduler@,
            r.in_flight == 0,
            !r.failed,
    {
        SegmentedRun { scheduler, in_flight: 0, failed: false }
    }

    /// After a failure, drain and then fail; otherwise admit the next
    /// segment if the scheduler allows, wait while workers run, and finish
    /// once nothing is pending or running.
    pub fn next_action(&mut self) -> (r: RunAction)
        requires
            old(self).wf(),
        ensures
            final(self).wf(),
            final(self).failed == old(self).failed,
            old(self).failed ==> final(self).scheduler@ == old(self).scheduler@ && (if old(
                self,
            ).in_flight > 0 {
                r == RunAction::AwaitCompletion
            } else {
                r == RunAction::Fail
            }),
            !old(self).failed ==> match r {
                RunAction::Spawn(t) => {
                    &&& old(self).scheduler@.active < old(self).scheduler@.target
                    &&& old(self).scheduler@.pending.len() > 0
                    &&& t == old(self).scheduler@.pending[0]
                    &&& final(self).scheduler@ == SchedulerView {
                        pending: old(self).scheduler@.pending.drop_first(),
                        active: old(self).scheduler@.active + 1,
                        ..old(self).scheduler@
                    }
                },
                RunAction::AwaitCompletion => {
                    &&& final(self).scheduler@ == old(self).scheduler@
                    &&& old(self).in_flight > 0
                    &&& (old(self).scheduler@.active >= old(self).scheduler@.target
                        || old(self).scheduler@.pending.len() == 0)
                },
                RunAction::Finalize => {
                    &&& final(self).scheduler@ == old(self).scheduler@
                    &&& old(self).scheduler@.pending.len() == 0
                    &&& old(self).in_flight == 0
                },
                RunAction::Fail => false,
            },
            r == RunAction::AwaitCompletion ==> final(self).in_flight > 0,
    {
        if self.failed {
            if self.in_flight > 0 {
                return RunAction::AwaitCompletion;
            }
            return RunAction::Fail;
        }
        match self.scheduler.next_segment() {
            Some(task) => {
                self.in_flight = self.in_flight + 1;
                RunAction::Spawn(task)
            },
            None => {
                if self.scheduler.has_remaining() {
                    RunAction::AwaitCompletion
                } else {
                    RunAction::Finalize
                }
            },
        }
    }

    /// A worker finished its segment at time `now`.
    pub fn on_completed(&mut self, stats: SegmentStats, now: u64)
        requires
            old(self).wf(),
            old(self).in_flight > 0,
        ensures
            final(self).wf(),
            final(self).failed == old(self).failed,
            final(self).in_flight == old(self).in_flight - 1,
            final(self).scheduler@ == old(self).scheduler@.complete(
                rate_of(stats) as u128,
                now as nat,
            ),
    {
        self.scheduler.on_segment_complete(stats, now);
        self.in_flight = self.in_flight - 1;
    }

    /// A worker failed for good: no more admissions.
    pub fn on_failed(&mut self)
        requires
            old(self).wf(),
            old(self).in_flight > 0,
        ensures
            final(self).wf(),
            final(self).failed,
            final(self).in_flight == old(self).in_flight - 1,
            final(self).scheduler@.pending == old(self).scheduler@.pending,
            final(self).scheduler@.active == old(self).scheduler@.active - 1,
            final(self).scheduler.wf(),
    {
        self.failed = true;
        self.in_flight = self.in_flight - 1;
        self.scheduler.active = self.scheduler.active - 1;
    }
}

} // verus!
