use kdownload::bandwidth::{Admission, BandwidthLimiter};
use kdownload::partlog::{baseline_record, decode_log_record};
use kdownload::plan::{completed_bytes, compute_chunk_size, pending_tasks, streaming_plan};
use kdownload::probe::{head_outcome, range_probe_outcome, use_segments};
use kdownload::rate::parse_bandwidth_limit;
use kdownload::segment::retry_decision;
use kdownload::{
    ChecksumError, ChecksumSpec, FailureKind, HeadOutcome, MirrorPool, PartMap, PartMapLoad,
    RetryDecision, SegmentWriter,
};

const MIB: u64 = 1 << 20;

#[test]
fn ten_mib_with_four_requested_segments() {
    // The 4 MiB floor on the chunk size gives three segments, not four.
    let chunk = compute_chunk_size(10 * MIB, 4);
    let m = PartMap::new(10 * MIB, chunk);
    assert_eq!(m.segments.len(), 3);
    assert_eq!(pending_tasks(&m).len(), 3);
}

#[test]
fn head_without_ranges_falls_back_to_streaming() {
    let meta = match head_outcome(200, None, false, None) {
        HeadOutcome::Metadata(meta) => meta,
        other => panic!("unexpected {:?}", other),
    };
    assert!(!use_segments(&meta));
    let probed = range_probe_outcome(200, None, Some(10 * MIB), None, None).unwrap();
    assert!(!use_segments(&probed));
    let plan = streaming_plan(true, probed.supports_ranges, 123);
    assert!(plan.truncate);
    assert_eq!(plan.range_from, None);
}

#[test]
fn failing_primary_rotates_to_secondary() {
    let mut pool = MirrorPool::new(vec!["http://primary/f".to_string(), "http://secondary/f".to_string()]);
    assert_eq!(pool.next(), "http://primary/f");
    assert_eq!(retry_decision(1, FailureKind::Status), RetryDecision::Retry(2));
    assert_eq!(pool.next(), "http://secondary/f");
}

#[test]
fn resume_after_half_continues_from_recorded_bytes() {
    let size = 20 * MIB;
    let chunk = compute_chunk_size(size, 64);
    let mut m = PartMap::new(size, chunk);
    let mut log = baseline_record(&m);
    for id in 0..m.segments.len() {
        let len = m.segments[id].len();
        let done = if id < 2 { len } else if id == 2 { len / 2 } else { 0 };
        log.extend(m.record_progress(id, done).unwrap());
    }
    log.extend_from_slice(&[1, 2, 3]);
    let resumed = match PartMap::load_or_create(Some(&log), size, chunk) {
        PartMapLoad::Resumed(r) => r,
        other => panic!("unexpected {:?}", other),
    };
    assert_eq!(resumed, m);
    assert_eq!(completed_bytes(&resumed), 10 * MIB);
    let pending = pending_tasks(&resumed);
    assert_eq!(pending[0].id, 2);
    assert_eq!(pending[0].remaining_range(), Some((8 * MIB + 2 * MIB, 12 * MIB - 1)));
    let mut w = SegmentWriter::new(10 * MIB, 2 * MIB);
    let block = vec![0u8; (2 * MIB) as usize];
    let write = w.push(&block).unwrap();
    assert_eq!(write.offset, 10 * MIB);
    assert_eq!(w.downloaded, 4 * MIB);
    assert_eq!(decode_log_record(&log), Some(resumed));
}

#[test]
fn mismatching_digest_is_an_integrity_error() {
    let spec = ChecksumSpec::from_checksum_line(&"ab".repeat(32)).unwrap();
    let computed = [0u8; 32];
    assert!(matches!(spec.check_digest(&computed), Err(ChecksumError::Mismatch(_, _))));
}

#[test]
fn one_mib_per_second_on_five_mib() {
    let rate = parse_bandwidth_limit("1M/s").unwrap();
    assert_eq!(rate, 1_000_000);
    let mut l = BandwidthLimiter::new(rate, 0);
    let mut now = 0u64;
    let mut sent = 0u64;
    while sent < 5 * MIB {
        match l.consume(16_384, now) {
            Admission::Granted => sent += 16_384,
            Admission::Wait(ns) => now += ns,
        }
    }
    let secs = now as f64 / 1e9;
    // one second of initial credit, then the rate
    assert!(secs >= (5 * MIB) as f64 / rate as f64 - 1.0 - 0.05);
    assert!(sent as f64 <= rate as f64 * (secs + 1.0) + 16_384.0);
}
