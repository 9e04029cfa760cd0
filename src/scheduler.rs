//! Admission control over pending segments, with a parallelism target that
//! follows the measured per-connection throughput.
use std::collections::VecDeque;
use vstd::prelude::*;

verus! {

/// Number of throughput samples kept for the moving average.
pub const THROUGHPUT_WINDOW: usize = 24;

/// Per-connection throughput (bytes/s) above which one more connection is admitted.
pub const SCALE_UP_THRESHOLD: u128 = 8000000;

/// Per-connection throughput (bytes/s) below which one connection is taken away.
pub const SCALE_DOWN_THRESHOLD: u128 = 200000;

/// Least time between two changes of the target, in nanoseconds (2 s).
pub const ADJUSTMENT_INTERVAL_NANOS: u64 = 2000000000;

/// Largest throughput sample: `u64::MAX` bytes in one nanosecond.
pub const MAX_SAMPLE: u128 = 18446744073709551615000000000;

/// A segment waiting to be downloaded.
#[derive(Debug, Clone, Copy, PartialEq, Eq, Structural)]
pub struct SegmentTask {
    pub id: usize,
    pub start: u64,
    pub end: u64,
    pub downloaded: u64,
}

impl SegmentTask {
    pub open spec fn spec_len(&self) -> int {
        if self.end >= self.start {
            self.end - self.start + 1
        } else {
            1
        }
    }

    /// The byte range still to fetch, `[start + downloaded, end]`, if any.
    pub fn remaining_range(&self) -> (r: Option<(u64, u64)>)
        requires
            self.spec_len() <= u64::MAX,
        ensures
            self.downloaded >= self.spec_len() ==> r.is_none(),
            self.downloaded < self.spec_len() ==> r == Some(
                ((self.start + self.downloaded) as u64, self.end),
            ),
    {
        let total = self.end.saturating_sub(self.start) + 1;
        if self.downloaded >= total {
            None
        } else {
            Some((self.start + self.downloaded, self.end))
        }
    }

    pub fn len(&self) -> (r: u64)
        requires
            self.spec_len() <= u64::MAX,
        ensures
            r == self.spec_len(),
    {
        self.end.saturating_sub(self.start) + 1
    }
}

/// What a finished segment reports: its id, the bytes it fetched and how
/// long that took.
#[derive(Debug, Clone, Copy, PartialEq, Eq, Structural)]
pub struct SegmentStats {
    pub id: usize,
    pub bytes: u64,
    pub duration_nanos: u64,
}

/// Throughput of a finished segment in whole bytes per second; a zero
/// duration counts as one second.
pub open spec fn rate_of(s: SegmentStats) -> nat {
    if s.duration_nanos == 0 {
        s.bytes as nat
    } else {
        ((s.bytes as int) * 1000000000 / (s.duration_nanos as int)) as nat
    }
}

impl SegmentStats {
    pub fn throughput(&self) -> (r: u128)
        ensures
            r == rate_of(*self),
            r <= MAX_SAMPLE,
    {
        if self.duration_nanos == 0 {
            return self.bytes as u128;
        }
        let scaled = (self.bytes as u128) * 1000000000;
        proof {
            assert(scaled / (self.duration_nanos as u128) <= scaled) by (nonlinear_arith)
                requires self.duration_nanos >= 1, scaled >= 0;
        }
        scaled / (self.duration_nanos as u128)
    }
}

/// Observer's view of the scheduler.
#[derive(Debug, Clone, Copy, PartialEq, Eq, Structural)]
pub struct SchedulerSnapshot {
    pub pending: usize,
    pub active: usize,
    pub target_parallelism: usize,
}

/// Sum of a sequence of samples.
pub open spec fn sum(s: Seq<u128>) -> nat
    decreases s.len(),
{
    if s.len() == 0 {
        0
    } else {
        sum(s.drop_last()) + s.last() as nat
    }
}

/// The window after a new sample: appended, the oldest dropped past 24.
pub open spec fn push_sample(w: Seq<u128>, x: u128) -> Seq<u128> {
    if w.len() + 1 > THROUGHPUT_WINDOW {
        w.push(x).drop_first()
    } else {
        w.push(x)
    }
}

/// The control law: with `avg = sum / n` and `per_conn = avg / target`, one
/// more connection above the scale-up threshold, one less below the
/// scale-down threshold, within `[1, max]`.
pub open spec fn adjusted_target(target: nat, max: nat, w: Seq<u128>) -> nat {
    let t = if target == 0 { 1 } else { target };
    if sum(w) > SCALE_UP_THRESHOLD * w.len() * t && target < max {
        target + 1
    } else if sum(w) < SCALE_DOWN_THRESHOLD * w.len() * t && target > 1 {
        (target - 1) as nat
    } else {
        target
    }
}

/// Admission-controlled queue of pending segments. Times are nanoseconds
/// on the caller's monotonic clock.
#[derive(Debug)]
pub struct Scheduler {
    pub pending: VecDeque<SegmentTask>,
    pub active: usize,
    pub target_parallelism: usize,
    pub recent_speeds: VecDeque<u128>,
    pub last_adjustment: u64,
    pub max_parallelism: usize,
}

/// The state of a scheduler as values.
pub ghost struct SchedulerView {
    pub pending: Seq<SegmentTask>,
    pub active: nat,
    pub target: nat,
    pub window: Seq<u128>,
    pub last: nat,
    pub max: nat,
}

impl SchedulerView {
    /// `active ≤ target ≤ max`, `target ≥ 1`, and a window of at most 24 bounded samples.
    pub open spec fn wf(&self) -> bool {
        &&& self.active <= self.target <= self.max
        &&& 1 <= self.target
        &&& self.max <= usize::MAX
        &&& self.last <= u64::MAX
        &&& self.window.len() <= THROUGHPUT_WINDOW
        &&& forall|i: int| 0 <= i < self.window.len() ==> #[trigger] self.window[i] <= MAX_SAMPLE
    }

    /// The state after a segment finished with throughput `rate` at time `now`.
    pub open spec fn complete(self, rate: u128, now: nat) -> SchedulerView {
        let active = if self.active > 0 { (self.active - 1) as nat } else { 0 };
        let window = push_sample(self.window, rate);
        if now < self.last + ADJUSTMENT_INTERVAL_NANOS {
            SchedulerView { active, window, ..self }
        } else {
            SchedulerView {
                active,
                window,
                last: now,
                target: adjusted_target(self.target, self.max, window),
                ..self
            }
        }
    }
}

impl View for Scheduler {
    type V = SchedulerView;

    open spec fn view(&self) -> SchedulerView {
        SchedulerView {
            pending: self.pending@,
            active: self.active as nat,
            target: self.target_parallelism as nat,
            window: self.recent_speeds@,
            last: self.last_adjustment as nat,
            max: self.max_parallelism as nat,
        }
    }
}

impl Scheduler {
    pub open spec fn wf(&self) -> bool {
        self@.wf()
    }

    /// Queues `initial_segments` in order, with target `initial_parallelism`
    /// clamped to `[1, max(max_parallelism, 1)]`; `now` starts the first
    /// adjustment interval.
    pub fn new(
        initial_segments: Vec<SegmentTask>,
        initial_parallelism: usize,
        max_parallelism: usize,
        now: u64,
    ) -> (r: Scheduler)
        ensures
            r.wf(),
            r@.pending == initial_segments@,
            r@.active == 0,
            r@.max == (if max_parallelism == 0 { 1 } else { max_parallelism as nat }),
            r@.target == (if initial_parallelism == 0 {
                1
            } else if initial_parallelism > r@.max {
                r@.max
            } else {
                initial_parallelism as nat
            }),
            r@.window.len() == 0,
            r@.last == now,
    {
        let max = if max_parallelism == 0 { 1 } else { max_parallelism };
        let target = if initial_parallelism == 0 {
            1
        } else if initial_parallelism > max {
            max
        } else {
            initial_parallelism
        };
        let mut pending: VecDeque<SegmentTask> = VecDeque::new();
        let mut i: usize = 0;
        while i < initial_segments.len()
            invariant
                i <= initial_segments@.len(),
                pending@ == initial_segments@.take(i as int),
            decreases initial_segments@.len() - i,
        {
            pending.push_back(initial_segments[i]);
            assert(pending@ =~= initial_segments@.take(i + 1));
            i = i + 1;
        }
        assert(pending@ =~= initial_segments@);
        Scheduler {
            pending,
            active: 0,
            target_parallelism: target,
            recent_speeds: VecDeque::new(),
            last_adjustment: now,
            max_parallelism: max,
        }
    }

    /// Admits the head of the queue when fewer than `target_parallelism`
    /// segments are active.
    pub fn next_segment(&mut self) -> (r: Option<SegmentTask>)
        requires
            old(self).wf(),
        ensures
            final(self).wf(),
            if old(self)@.active < old(self)@.target && old(self)@.pending.len() > 0 {
                &&& r == Some(old(self)@.pending[0])
                &&& final(self)@ == SchedulerView {
                    pending: old(self)@.pending.drop_first(),
                    active: old(self)@.active + 1,
                    ..old(self)@
                }
            } else {
                &&& r.is_none()
                &&& final(self)@ == old(self)@
            },
    {
        if self.active >= self.target_parallelism {
            return None;
        }
        match self.pending.pop_front() {
            Some(segment) => {
                self.active = self.active + 1;
                Some(segment)
            },
            None => None,
        }
    }

    /// Records a finished segment: one less active, its throughput into the
    /// window, and, when the adjustment interval has passed since the last
    /// one, the control law applied to the target.
    pub fn on_segment_complete(&mut self, stats: SegmentStats, now: u64)
        requires
            old(self).wf(),
        ensures
            final(self).wf(),
            final(self)@ == old(self)@.complete(rate_of(stats) as u128, now as nat),
    {
        if self.active > 0 {
            self.active = self.active - 1;
        }
        let rate = stats.throughput();
        let ghost w0 = self.recent_speeds@;
        self.recent_speeds.push_back(rate);
        if self.recent_speeds.len() > THROUGHPUT_WINDOW {
            let _ = self.recent_speeds.pop_front();
        }
        assert(self.recent_speeds@ =~= push_sample(w0, rate));
        if now < self.last_adjustment || now - self.last_adjustment < ADJUSTMENT_INTERVAL_NANOS {
            return;
        }
        self.last_adjustment = now;
        let n = self.recent_speeds.len();
        let mut total: u128 = 0;
        let mut i: usize = 0;
        while i < n
            invariant
                n == self.recent_speeds@.len(),
                n <= THROUGHPUT_WINDOW,
                i <= n,
                total == sum(self.recent_speeds@.take(i as int)),
                total <= i * MAX_SAMPLE,
                forall|j: int| 0 <= j < n ==> #[trigger] self.recent_speeds@[j] <= MAX_SAMPLE,
            decreases n - i,
        {
            assert(self.recent_speeds@.take(i + 1).drop_last() =~= self.recent_speeds@.take(i as int));
            total = total + self.recent_speeds[i];
            i = i + 1;
        }
        assert(self.recent_speeds@.take(n as int) =~= self.recent_speeds@);
        let t = self.target_parallelism as u128;
        let count = n as u128;
        proof {
            assert(SCALE_UP_THRESHOLD * count * t <= 8000000 * 24 * 0xffff_ffff_ffff_ffff) by (nonlinear_arith)
                requires count <= 24, t <= 0xffff_ffff_ffff_ffffu128, SCALE_UP_THRESHOLD == 8000000;
            assert(SCALE_DOWN_THRESHOLD * count * t <= 200000 * 24 * 0xffff_ffff_ffff_ffff) by (nonlinear_arith)
                requires count <= 24, t <= 0xffff_ffff_ffff_ffffu128, SCALE_DOWN_THRESHOLD == 200000;
        }
        if total > SCALE_UP_THRESHOLD * count * t && self.target_parallelism < self.max_parallelism {
            self.target_parallelism = self.target_parallelism + 1;
        } else if total < SCALE_DOWN_THRESHOLD * count * t && self.target_parallelism > 1 {
            self.target_parallelism = self.target_parallelism - 1;
        }
    }

    /// Whether any segment is pending or active.
    pub fn has_remaining(&self) -> (r: bool)
        ensures
            r == (self@.pending.len() > 0 || self@.active > 0),
    {
        self.pending.len() > 0 || self.active > 0
    }

    /// Queue length, active count and target.
    pub fn snapshot(&self) -> (r: SchedulerSnapshot)
        requires
            self.wf(),
        ensures
            r.pending == self@.pending.len(),
            r.active == self@.active,
            r.target_parallelism == self@.target,
            r.active <= r.target_parallelism <= self@.max,
    {
        SchedulerSnapshot {
            pending: self.pending.len(),
            active: self.active,
            target_parallelism: self.target_parallelism,
        }
    }
}

/// The state after segments finish with `stats[i]` at time `times[i]`, in order.
pub open spec fn run_completions(
    s: SchedulerView,
    stats: Seq<SegmentStats>,
    times: Seq<nat>,
) -> SchedulerView
    decreases stats.len(),
{
    if stats.len() == 0 || times.len() == 0 {
        s
    } else {
        run_completions(
            s.complete(rate_of(stats[0]) as u128, times[0]),
            stats.drop_first(),
            times.drop_first(),
        )
    }
}

/// Each completion time at least one adjustment interval after the previous
/// adjustment.
pub open spec fn spaced(last: nat, times: Seq<nat>) -> bool {
    &&& times.len() > 0 ==> times[0] >= last + ADJUSTMENT_INTERVAL_NANOS
    &&& forall|i: int|
        0 <= i < times.len() - 1 ==> #[trigger] times[i + 1] >= times[i] + ADJUSTMENT_INTERVAL_NANOS
}

pub proof fn lemma_rate_bound(s: SegmentStats)
    ensures
        rate_of(s) <= MAX_SAMPLE,
{
    if s.duration_nanos != 0 {
        let scaled = (s.bytes as int) * 1000000000;
        assert(scaled / (s.duration_nanos as int) <= scaled) by (nonlinear_arith)
            requires s.duration_nanos >= 1, scaled >= 0;
    }
}

proof fn lemma_sum_above(w: Seq<u128>, c: nat)
    requires
        forall|i: int| 0 <= i < w.len() ==> #[trigger] w[i] > c,
    ensures
        sum(w) >= c * w.len(),
        w.len() > 0 ==> sum(w) > c * w.len(),
    decreases w.len(),
{
    if w.len() > 0 {
        let p = w.drop_last();
        assert forall|i: int| 0 <= i < p.len() implies #[trigger] p[i] > c by {
            assert(p[i] == w[i]);
        }
        lemma_sum_above(p, c);
        assert(c * w.len() == c * p.len() + c) by (nonlinear_arith)
            requires w.len() == p.len() + 1;
    }
}

proof fn lemma_sum_below(w: Seq<u128>, c: nat)
    requires
        forall|i: int| 0 <= i < w.len() ==> #[trigger] w[i] < c,
    ensures
        sum(w) <= c * w.len(),
        w.len() > 0 ==> sum(w) < c * w.len(),
    decreases w.len(),
{
    if w.len() > 0 {
        let p = w.drop_last();
        assert forall|i: int| 0 <= i < p.len() implies #[trigger] p[i] < c by {
            assert(p[i] == w[i]);
        }
        lemma_sum_below(p, c);
        assert(c * w.len() == c * p.len() + c) by (nonlinear_arith)
            requires w.len() == p.len() + 1;
    }
}

/// Each completion keeps the scheduler well formed.
pub proof fn lemma_complete_wf(s: SchedulerView, rate: u128, now: nat)
    requires
        s.wf(),
        rate <= MAX_SAMPLE,
        now <= u64::MAX,
    ensures
        s.complete(rate, now).wf(),
{
    let w = push_sample(s.window, rate);
    assert forall|i: int| 0 <= i < w.len() implies #[trigger] w[i] <= MAX_SAMPLE by {
        if s.window.len() + 1 > THROUGHPUT_WINDOW {
            assert(w[i] == s.window.push(rate)[i + 1]);
        } else {
            assert(w[i] == s.window.push(rate)[i]);
        }
    }
}

/// Under a stream of completions each faster than the scale-up threshold
/// times the largest target, spaced by the adjustment interval, with such
/// samples only in the window, the target rises by one per completion until
/// it reaches the maximum.
pub proof fn lemma_scale_up(s: SchedulerView, stats: Seq<SegmentStats>, times: Seq<nat>)
    requires
        s.wf(),
        stats.len() == times.len(),
        spaced(s.last, times),
        forall|i: int| 0 <= i < times.len() ==> #[trigger] times[i] <= u64::MAX,
        forall|i: int|
            0 <= i < stats.len() ==> #[trigger] rate_of(stats[i]) > SCALE_UP_THRESHOLD * s.max,
        forall|i: int| 0 <= i < s.window.len() ==> #[trigger] s.window[i] > SCALE_UP_THRESHOLD
            * s.max,
    ensures
        run_completions(s, stats, times).target == if s.target + stats.len() <= s.max {
            s.target + stats.len()
        } else {
            s.max
        },
        run_completions(s, stats, times).wf(),
    decreases stats.len(),
{
    if stats.len() > 0 {
        let c = (SCALE_UP_THRESHOLD * s.max) as nat;
        let r0 = rate_of(stats[0]);
        lemma_rate_bound(stats[0]);
        let s1 = s.complete(r0 as u128, times[0]);
        lemma_complete_wf(s, r0 as u128, times[0]);
        let w = push_sample(s.window, r0 as u128);
        assert forall|i: int| 0 <= i < w.len() implies #[trigger] w[i] > c by {
            if s.window.len() + 1 > THROUGHPUT_WINDOW {
                assert(w[i] == s.window.push(r0 as u128)[i + 1]);
            } else {
                assert(w[i] == s.window.push(r0 as u128)[i]);
            }
        }
        lemma_sum_above(w, c);
        assert(c * w.len() >= SCALE_UP_THRESHOLD * w.len() * s.target) by (nonlinear_arith)
            requires c == SCALE_UP_THRESHOLD * s.max, s.target <= s.max;
        assert(SCALE_UP_THRESHOLD * w.len() * s.target >= SCALE_DOWN_THRESHOLD * w.len() * s.target)
            by (nonlinear_arith);
        let rest = stats.drop_first();
        let rt = times.drop_first();
        assert forall|i: int| 0 <= i < rest.len() implies #[trigger] rate_of(rest[i])
            > SCALE_UP_THRESHOLD * s1.max by {
            assert(rest[i] == stats[i + 1]);
        }
        assert forall|i: int| 0 <= i < rt.len() implies #[trigger] rt[i] <= u64::MAX by {
            assert(rt[i] == times[i + 1]);
        }
        assert forall|i: int| 0 <= i < rt.len() - 1 implies #[trigger] rt[i + 1] >= rt[i]
            + ADJUSTMENT_INTERVAL_NANOS by {
            assert(rt[i + 1] == times[i + 2]);
            assert(rt[i] == times[i + 1]);
        }
        if rt.len() > 0 {
            assert(rt[0] == times[1]);
        }
        lemma_scale_up(s1, rest, rt);
    }
}

/// Under a stream of completions each slower than the scale-down threshold,
/// spaced by the adjustment interval, with such samples only in the window,
/// the target falls by one per completion until it reaches one.
pub proof fn lemma_scale_down(s: SchedulerView, stats: Seq<SegmentStats>, times: Seq<nat>)
    requires
        s.wf(),
        stats.len() == times.len(),
        spaced(s.last, times),
        forall|i: int| 0 <= i < times.len() ==> #[trigger] times[i] <= u64::MAX,
        forall|i: int| 0 <= i < stats.len() ==> #[trigger] rate_of(stats[i]) < SCALE_DOWN_THRESHOLD,
        forall|i: int| 0 <= i < s.window.len() ==> #[trigger] s.window[i] < SCALE_DOWN_THRESHOLD,
    ensures
        run_completions(s, stats, times).target == if s.target >= stats.len() + 1 {
            (s.target - stats.len()) as nat
        } else {
            1
        },
        run_completions(s, stats, times).wf(),
    decreases stats.len(),
{
    if stats.len() > 0 {
        let c = SCALE_DOWN_THRESHOLD as nat;
        let r0 = rate_of(stats[0]);
        lemma_rate_bound(stats[0]);
        let s1 = s.complete(r0 as u128, times[0]);
        lemma_complete_wf(s, r0 as u128, times[0]);
        let w = push_sample(s.window, r0 as u128);
        assert forall|i: int| 0 <= i < w.len() implies #[trigger] w[i] < c by {
            if s.window.len() + 1 > THROUGHPUT_WINDOW {
                assert(w[i] == s.window.push(r0 as u128)[i + 1]);
            } else {
                assert(w[i] == s.window.push(r0 as u128)[i]);
            }
        }
        lemma_sum_below(w, c);
        assert(c * w.len() <= SCALE_DOWN_THRESHOLD * w.len() * s.target) by (nonlinear_arith)
            requires c == SCALE_DOWN_THRESHOLD, s.target >= 1;
        assert(SCALE_UP_THRESHOLD * w.len() * s.target >= SCALE_DOWN_THRESHOLD * w.len() * s.target)
            by (nonlinear_arith);
        let rest = stats.drop_first();
        let rt = times.drop_first();
        assert forall|i: int| 0 <= i < rest.len() implies #[trigger] rate_of(rest[i])
            < SCALE_DOWN_THRESHOLD by {
            assert(rest[i] == stats[i + 1]);
        }
        assert forall|i: int| 0 <= i < rt.len() implies #[trigger] rt[i] <= u64::MAX by {
            assert(rt[i] == times[i + 1]);
        }
        assert forall|i: int| 0 <= i < rt.len() - 1 implies #[trigger] rt[i + 1] >= rt[i]
            + ADJUSTMENT_INTERVAL_NANOS by {
            assert(rt[i + 1] == times[i + 2]);
            assert(rt[i] == times[i + 1]);
        }
        if rt.len() > 0 {
            assert(rt[0] == times[1]);
        }
        lemma_scale_down(s1, rest, rt);
    }
}

} // verus!
