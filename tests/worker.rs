use kdownload::bandwidth::{Admission, BandwidthLimiter};
use kdownload::segment::{is_acceptable_status, open_range_header, range_header, retry_decision};
use kdownload::{FailureKind, RetryDecision, SegmentWriter};

#[test]
fn backoff_doubles_to_sixteen_and_fifth_failure_raises() {
    let waits: Vec<RetryDecision> = (1..=5).map(|k| retry_decision(k, FailureKind::Network)).collect();
    assert_eq!(
        waits,
        vec![
            RetryDecision::Retry(2),
            RetryDecision::Retry(4),
            RetryDecision::Retry(8),
            RetryDecision::Retry(16),
            RetryDecision::GiveUp
        ]
    );
    assert_eq!(retry_decision(1, FailureKind::Status), RetryDecision::Retry(2));
    assert_eq!(retry_decision(2, FailureKind::Body), RetryDecision::Retry(4));
}

#[test]
fn local_failures_are_not_retried() {
    assert_eq!(retry_decision(1, FailureKind::Write), RetryDecision::GiveUp);
    assert_eq!(retry_decision(1, FailureKind::PartMap), RetryDecision::GiveUp);
}

#[test]
fn acceptable_statuses() {
    assert!(is_acceptable_status(206, 500));
    assert!(is_acceptable_status(200, 0));
    assert!(!is_acceptable_status(200, 1));
    assert!(!is_acceptable_status(500, 0));
    assert!(!is_acceptable_status(416, 0));
}

#[test]
fn range_headers() {
    assert_eq!(range_header(0, 4194303), "bytes=0-4194303");
    assert_eq!(range_header(18446744073709551614, 18446744073709551614), "bytes=18446744073709551614-18446744073709551614");
    assert_eq!(open_range_header(1234), "bytes=1234-");
}

#[test]
fn writer_flushes_contiguous_blocks() {
    let mut w = SegmentWriter::new(1000, 5);
    let chunk = vec![7u8; 300 * 1024];
    assert!(w.can_accept(chunk.len()));
    assert!(w.push(&chunk).is_none());
    let first = w.push(&chunk).expect("flush at 512 KiB");
    assert_eq!(first.offset, 1000);
    assert_eq!(first.data.len(), 600 * 1024);
    assert!(w.push(&[1, 2, 3]).is_none());
    let last = w.finish().expect("residual");
    assert_eq!(last.offset, 1000 + 600 * 1024);
    assert_eq!(last.data, vec![1, 2, 3]);
    assert_eq!(w.downloaded, 5 + 600 * 1024 + 3);
    assert_eq!(w.transferred, 600 * 1024 + 3);
    assert!(w.finish().is_none());
    assert!(!SegmentWriter::new(u64::MAX - 1, 0).can_accept(2));
}

#[test]
fn limiter_grants_burst_then_waits() {
    let mut l = BandwidthLimiter::new(1_000_000, 0);
    assert_eq!(l.consume(600_000, 0), Admission::Granted);
    // 400_000 left; 600_000 more needs 0.2 s
    assert_eq!(l.consume(600_000, 0), Admission::Wait(200_000_000));
    assert_eq!(l.consume(600_000, 200_000_000), Admission::Granted);
    // a tiny deficit still waits 10 ms
    assert_eq!(l.consume(1, 200_000_000), Admission::Wait(10_000_000));
}

#[test]
fn limiter_caps_credit_at_two_seconds() {
    let mut l = BandwidthLimiter::new(1_000, 0);
    assert_eq!(l.consume(0, 100 * 1_000_000_000), Admission::Granted);
    assert_eq!(l.tokens, 2_000 * 1_000_000_000);
    assert_eq!(l.consume(2_000, 100 * 1_000_000_000), Admission::Granted);
    assert_eq!(l.consume(1_000, 100 * 1_000_000_000), Admission::Wait(1_000_000_000));
}

#[test]
fn limiter_throughput_over_time_stays_within_budget() {
    let rate = 1_000_000u64;
    let mut l = BandwidthLimiter::new(rate, 0);
    let mut now = 0u64;
    let mut total = 0u64;
    while now < 5_000_000_000 {
        match l.consume(16_384, now) {
            Admission::Granted => total += 16_384,
            Admission::Wait(ns) => now += ns,
        }
    }
    let secs = now as f64 / 1e9;
    assert!(total as f64 <= rate as f64 * secs + 2.0 * rate as f64);
    assert!(total as f64 >= rate as f64 * secs - 2.0 * rate as f64);
}
