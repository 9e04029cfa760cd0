use kdownload::partlog::{baseline_record, decode_log_record};
use kdownload::{PartMap, PartMapError, PartMapLoad, PartSegment};

const MIB: u64 = 1 << 20;

fn check_tiling(m: &PartMap) {
    assert!(!m.segments.is_empty());
    assert_eq!(m.segments[0].start, 0);
    for (i, s) in m.segments.iter().enumerate() {
        assert_eq!(s.id, i);
        assert!(s.start <= s.end);
        if i > 0 {
            assert_eq!(s.start, m.segments[i - 1].end + 1);
        }
    }
    if m.file_size > 0 {
        assert_eq!(m.segments.last().unwrap().end, m.file_size - 1);
    }
}

#[test]
fn partition_covers_file_in_order() {
    let m = PartMap::new(10 * MIB, 4 * MIB);
    assert_eq!(m.chunk_size, 4 * MIB);
    assert_eq!(m.segments.len(), 3);
    assert_eq!((m.segments[0].start, m.segments[0].end), (0, 4 * MIB - 1));
    assert_eq!((m.segments[1].start, m.segments[1].end), (4 * MIB, 8 * MIB - 1));
    assert_eq!((m.segments[2].start, m.segments[2].end), (8 * MIB, 10 * MIB - 1));
    check_tiling(&m);
}

#[test]
fn partition_raises_small_chunks_to_minimum() {
    let m = PartMap::new(10 * MIB, 1);
    assert_eq!(m.chunk_size, 4 * MIB);
    assert_eq!(m.segments.len(), 3);
    check_tiling(&m);
}

#[test]
fn partition_of_empty_file_is_one_segment() {
    let m = PartMap::new(0, 4 * MIB);
    assert_eq!(
        m.segments,
        vec![PartSegment { id: 0, start: 0, end: 0, downloaded: 0 }]
    );
}

#[test]
fn partition_exact_multiple_and_tiny_file() {
    let m = PartMap::new(8 * MIB, 4 * MIB);
    assert_eq!(m.segments.len(), 2);
    check_tiling(&m);
    let m = PartMap::new(1, 4 * MIB);
    assert_eq!(m.segments.len(), 1);
    assert_eq!((m.segments[0].start, m.segments[0].end), (0, 0));
}

#[test]
fn partition_at_largest_size() {
    let m = PartMap::new(u64::MAX, u64::MAX);
    assert_eq!(m.segments.len(), 1);
    assert_eq!(m.segments[0].end, u64::MAX - 1);
    assert_eq!(m.segments[0].len(), u64::MAX);
}

#[test]
fn segment_len_and_remaining() {
    let s = PartSegment { id: 0, start: 10, end: 19, downloaded: 4 };
    assert_eq!(s.len(), 10);
    assert_eq!(s.remaining(), 6);
    let s = PartSegment { id: 0, start: 10, end: 19, downloaded: 12 };
    assert_eq!(s.remaining(), 0);
}

#[test]
fn record_progress_clamps_to_segment_length() {
    let mut m = PartMap::new(10 * MIB, 4 * MIB);
    let rec = m.record_progress(2, u64::MAX).unwrap();
    assert_eq!(m.segments[2].downloaded, 2 * MIB);
    let mut expected = 2u64.to_le_bytes().to_vec();
    expected.extend_from_slice(&(2 * MIB).to_le_bytes());
    assert_eq!(rec, expected);
    m.record_progress(0, 123).unwrap();
    assert_eq!(m.segments[0].downloaded, 123);
    for s in &m.segments {
        assert!(s.downloaded <= s.len());
    }
}

#[test]
fn record_progress_unknown_segment() {
    let mut m = PartMap::new(10 * MIB, 4 * MIB);
    assert_eq!(m.record_progress(3, 1), Err(PartMapError::UnknownSegment));
    assert!(m.segments.iter().all(|s| s.downloaded == 0));
}

#[test]
fn baseline_matches_bincode_layout() {
    let mut m = PartMap::new(10 * MIB, 4 * MIB);
    m.record_progress(1, 77).unwrap();
    let segs: Vec<(u64, u64, u64, u64)> = m
        .segments
        .iter()
        .map(|s| (s.id as u64, s.start, s.end, s.downloaded))
        .collect();
    let reference = bincode::serialize(&(m.file_size, m.chunk_size, segs)).unwrap();
    assert_eq!(baseline_record(&m), reference);
    let upd = bincode::serialize(&(1u64, 5u64)).unwrap();
    let mut m2 = m.clone();
    assert_eq!(m2.record_progress(1, 5).unwrap(), upd);
}

#[test]
fn reload_of_baseline_is_equal() {
    let m = PartMap::new(10 * MIB, 4 * MIB);
    let log = baseline_record(&m);
    assert_eq!(decode_log_record(&log), Some(m));
}

#[test]
fn reload_replays_updates_last_writer_wins() {
    let mut m = PartMap::new(20 * MIB, 4 * MIB);
    let mut log = baseline_record(&m);
    log.extend(m.record_progress(0, 100).unwrap());
    log.extend(m.record_progress(3, 5).unwrap());
    log.extend(m.record_progress(0, 4 * MIB).unwrap());
    let back = decode_log_record(&log).unwrap();
    assert_eq!(back, m);
    assert_eq!(back.segments[0].downloaded, 4 * MIB);
    assert_eq!(back.segments[3].downloaded, 5);
}

#[test]
fn reload_ignores_truncated_trailing_update() {
    let mut m = PartMap::new(20 * MIB, 4 * MIB);
    let mut log = baseline_record(&m);
    log.extend(m.record_progress(1, 10).unwrap());
    let before = m.clone();
    let partial = m.record_progress(1, 20).unwrap();
    log.extend_from_slice(&partial[..11]);
    assert_eq!(decode_log_record(&log), Some(before));
}

#[test]
fn reload_rejects_truncated_or_invalid_baseline() {
    let m = PartMap::new(10 * MIB, 4 * MIB);
    let log = baseline_record(&m);
    assert_eq!(decode_log_record(&log[..log.len() - 1]), None);
    assert_eq!(decode_log_record(&[]), None);
    let mut bad = log.clone();
    bad[24 + 8] = 1; // first segment no longer starts at 0
    assert_eq!(decode_log_record(&bad), None);
}

#[test]
fn load_or_create_resumes_matching_log() {
    let mut m = PartMap::new(10 * MIB, 4 * MIB);
    let mut log = baseline_record(&m);
    log.extend(m.record_progress(2, 9).unwrap());
    match PartMap::load_or_create(Some(&log), 10 * MIB, 4 * MIB) {
        PartMapLoad::Resumed(r) => assert_eq!(r, m),
        other => panic!("expected resume, got {:?}", other),
    }
}

#[test]
fn load_or_create_starts_fresh_on_size_change() {
    let m = PartMap::new(10 * MIB, 4 * MIB);
    let log = baseline_record(&m);
    match PartMap::load_or_create(Some(&log), 12 * MIB, 4 * MIB) {
        PartMapLoad::Fresh(r, baseline) => {
            assert_eq!(r, PartMap::new(12 * MIB, 4 * MIB));
            assert_eq!(baseline, baseline_record(&r));
        }
        other => panic!("expected fresh, got {:?}", other),
    }
    match PartMap::load_or_create(None, 12 * MIB, 4 * MIB) {
        PartMapLoad::Fresh(r, _) => assert_eq!(r.segments.len(), 3),
        other => panic!("expected fresh, got {:?}", other),
    }
}
