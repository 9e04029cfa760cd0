use kdownload::scheduler::{Scheduler, SegmentStats, SegmentTask};
use kdownload::{MirrorPool, RunAction, SegmentedRun};

const SEC: u64 = 1_000_000_000;

fn tasks(n: usize) -> Vec<SegmentTask> {
    (0..n)
        .map(|i| SegmentTask { id: i, start: i as u64 * 10, end: i as u64 * 10 + 9, downloaded: 0 })
        .collect()
}

fn fast(id: usize) -> SegmentStats {
    SegmentStats { id, bytes: 100_000_000, duration_nanos: SEC }
}

fn slow(id: usize) -> SegmentStats {
    SegmentStats { id, bytes: 1_000, duration_nanos: SEC }
}

#[test]
fn task_remaining_range() {
    let t = SegmentTask { id: 0, start: 100, end: 199, downloaded: 40 };
    assert_eq!(t.remaining_range(), Some((140, 199)));
    assert_eq!(t.len(), 100);
    let t = SegmentTask { id: 0, start: 100, end: 199, downloaded: 100 };
    assert_eq!(t.remaining_range(), None);
}

#[test]
fn throughput_in_bytes_per_second() {
    assert_eq!(SegmentStats { id: 0, bytes: 3_000, duration_nanos: 1_500_000_000 }.throughput(), 2_000);
    assert_eq!(SegmentStats { id: 0, bytes: 77, duration_nanos: 0 }.throughput(), 77);
}

#[test]
fn admission_respects_target() {
    let mut s = Scheduler::new(tasks(5), 2, 8, 0);
    assert_eq!(s.next_segment().map(|t| t.id), Some(0));
    assert_eq!(s.next_segment().map(|t| t.id), Some(1));
    assert_eq!(s.next_segment(), None);
    let snap = s.snapshot();
    assert_eq!((snap.pending, snap.active, snap.target_parallelism), (3, 2, 2));
    assert!(snap.active <= snap.target_parallelism);
    s.on_segment_complete(fast(0), 1);
    assert_eq!(s.next_segment().map(|t| t.id), Some(2));
    assert!(s.has_remaining());
}

#[test]
fn initial_target_is_clamped() {
    let s = Scheduler::new(tasks(1), 0, 0, 0);
    assert_eq!(s.snapshot().target_parallelism, 1);
    assert_eq!(s.max_parallelism, 1);
    let s = Scheduler::new(tasks(1), 50, 8, 0);
    assert_eq!(s.snapshot().target_parallelism, 8);
}

#[test]
fn scale_up_toward_max() {
    let mut s = Scheduler::new(tasks(20), 2, 4, 0);
    let mut targets = vec![];
    for k in 1..=4u64 {
        let t = s.next_segment().unwrap();
        s.on_segment_complete(fast(t.id), k * 2 * SEC);
        targets.push(s.snapshot().target_parallelism);
    }
    assert_eq!(targets, vec![3, 4, 4, 4]);
}

#[test]
fn scale_down_toward_one() {
    let mut s = Scheduler::new(tasks(20), 3, 8, 0);
    let mut targets = vec![];
    for k in 1..=4u64 {
        let t = s.next_segment().unwrap();
        s.on_segment_complete(slow(t.id), k * 2 * SEC);
        targets.push(s.snapshot().target_parallelism);
    }
    assert_eq!(targets, vec![2, 1, 1, 1]);
}

#[test]
fn no_adjustment_within_interval() {
    let mut s = Scheduler::new(tasks(4), 2, 8, 0);
    let t = s.next_segment().unwrap();
    s.on_segment_complete(fast(t.id), SEC);
    assert_eq!(s.snapshot().target_parallelism, 2);
    assert_eq!(s.last_adjustment, 0);
}

#[test]
fn window_keeps_latest_24_samples() {
    let mut s = Scheduler::new(tasks(0), 1, 1, 0);
    for i in 0..30 {
        s.on_segment_complete(SegmentStats { id: 0, bytes: i, duration_nanos: 0 }, 0);
    }
    assert_eq!(s.recent_speeds.len(), 24);
    assert_eq!(s.recent_speeds[0], 6);
    assert_eq!(s.active, 0);
}

#[test]
fn rotation_visits_each_mirror_once() {
    let urls: Vec<String> = vec!["http://a/f".into(), "http://b/f".into(), "http://c/f".into()];
    let mut pool = MirrorPool::new(urls.clone());
    pool.next();
    let mut seen: Vec<String> = (0..3).map(|_| pool.next()).collect();
    assert_eq!(seen, vec!["http://b/f", "http://c/f", "http://a/f"]);
    seen.sort();
    assert_eq!(seen, urls);
    assert_eq!(pool.primary(), "http://a/f");
    assert_eq!(pool.all(), urls);
}

#[test]
fn run_spawns_waits_and_finishes() {
    let mut run = SegmentedRun::new(Scheduler::new(tasks(2), 1, 4, 0));
    assert!(matches!(run.next_action(), RunAction::Spawn(t) if t.id == 0));
    assert_eq!(run.next_action(), RunAction::AwaitCompletion);
    run.on_completed(fast(0), SEC);
    assert!(matches!(run.next_action(), RunAction::Spawn(t) if t.id == 1));
    run.on_completed(fast(1), 2 * SEC);
    assert_eq!(run.next_action(), RunAction::Finalize);
}

#[test]
fn run_drains_then_fails() {
    let mut run = SegmentedRun::new(Scheduler::new(tasks(4), 2, 4, 0));
    assert!(matches!(run.next_action(), RunAction::Spawn(_)));
    assert!(matches!(run.next_action(), RunAction::Spawn(_)));
    run.on_failed();
    assert_eq!(run.next_action(), RunAction::AwaitCompletion);
    run.on_completed(fast(1), SEC);
    assert_eq!(run.next_action(), RunAction::Fail);
}
