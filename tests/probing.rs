use kdownload::plan::{
    compute_chunk_size, completed_bytes, initial_parallelism, needs_preallocation, pending_tasks,
    preflight, streaming_plan, PreflightError, StreamingPlan,
};
use kdownload::probe::{
    accepts_byte_ranges, head_outcome, parse_content_disposition, parse_content_length,
    parse_content_range, range_probe_outcome, use_segments,
};
use kdownload::{FileMetadata, HeadOutcome, PartMap, ProbeError};

const MIB: u64 = 1 << 20;

#[test]
fn content_range_total() {
    assert_eq!(parse_content_range(Some("bytes 0-0/10485760")), Some(10485760));
    assert_eq!(parse_content_range(Some("bytes 0-0/*")), None);
    assert_eq!(parse_content_range(Some("bytes 0-0")), None);
    assert_eq!(parse_content_range(Some("a/b/3")), None);
    assert_eq!(parse_content_range(None), None);
}

#[test]
fn content_length_values() {
    assert_eq!(parse_content_length(Some("1234")), Some(1234));
    assert_eq!(parse_content_length(Some("+5")), Some(5));
    assert_eq!(parse_content_length(Some("-5")), None);
    assert_eq!(parse_content_length(Some("18446744073709551616")), None);
    assert_eq!(parse_content_length(Some("")), None);
    assert_eq!(parse_content_length(None), None);
}

#[test]
fn disposition_filenames() {
    assert_eq!(parse_content_disposition("attachment; filename=\"report.pdf\""), Some("report.pdf".to_string()));
    assert_eq!(parse_content_disposition("attachment;filename=a.bin;x=y"), Some("a.bin".to_string()));
    assert_eq!(parse_content_disposition("attachment; filename=\"\"; filename=b"), Some("b".to_string()));
    assert_eq!(parse_content_disposition("inline"), None);
    assert_eq!(parse_content_disposition("attachment; FILENAME=x"), None);
}

#[test]
fn accept_ranges_values() {
    assert!(accepts_byte_ranges(Some("bytes")));
    assert!(accepts_byte_ranges(Some("Bytes")));
    assert!(accepts_byte_ranges(Some("none, BYTES")));
    assert!(!accepts_byte_ranges(Some("none")));
    assert!(!accepts_byte_ranges(None));
}

#[test]
fn head_decisions() {
    let meta = FileMetadata { content_length: Some(10), supports_ranges: true, filename: None };
    assert_eq!(head_outcome(200, Some(10), true, None), HeadOutcome::Metadata(meta));
    assert_eq!(head_outcome(200, None, true, Some("f".into())), HeadOutcome::RangeProbe(Some("f".into())));
    assert_eq!(
        head_outcome(200, None, false, None),
        HeadOutcome::Metadata(FileMetadata { content_length: None, supports_ranges: false, filename: None })
    );
    assert_eq!(head_outcome(405, None, false, None), HeadOutcome::RangeProbe(None));
    assert_eq!(head_outcome(501, None, false, None), HeadOutcome::RangeProbe(None));
    assert_eq!(head_outcome(404, None, false, None), HeadOutcome::Failed(ProbeError::Status(404)));
}

#[test]
fn range_probe_decisions() {
    assert_eq!(
        range_probe_outcome(206, Some("bytes 0-0/99"), Some(1), None, Some("h".into())),
        Ok(FileMetadata { content_length: Some(99), supports_ranges: true, filename: Some("h".into()) })
    );
    assert_eq!(range_probe_outcome(206, None, None, None, None), Err(ProbeError::MissingContentRange));
    let streaming = range_probe_outcome(200, None, Some(10485760), None, None).unwrap();
    assert!(!streaming.supports_ranges);
    assert!(!use_segments(&streaming));
    assert_eq!(range_probe_outcome(500, None, None, None, None), Err(ProbeError::Status(500)));
}

#[test]
fn chunk_size_formula() {
    assert_eq!(compute_chunk_size(0, 4), 1);
    assert_eq!(compute_chunk_size(10 * MIB, 4), 4 * MIB);
    assert_eq!(compute_chunk_size(100 * MIB, 4), 25 * MIB);
    assert_eq!(compute_chunk_size(100 * MIB + 1, 4), 25 * MIB + 1);
    assert_eq!(compute_chunk_size(MIB, 64), MIB);
    assert_eq!(compute_chunk_size(u64::MAX, 0), u64::MAX);
}

#[test]
fn run_decisions() {
    assert_eq!(preflight(true, false), Err(PreflightError::OutputExists));
    assert_eq!(preflight(true, true), Ok(()));
    assert_eq!(preflight(false, false), Ok(()));
    assert!(needs_preallocation(false, 100, 10));
    assert!(needs_preallocation(true, 5, 10));
    assert!(!needs_preallocation(true, 10, 10));
    assert_eq!(initial_parallelism(64, 32), 32);
    assert_eq!(initial_parallelism(4, 32), 4);
    assert_eq!(initial_parallelism(0, 32), 1);
    assert_eq!(
        streaming_plan(true, true, 500),
        StreamingPlan { start_offset: 500, truncate: false, range_from: Some(500) }
    );
    assert_eq!(
        streaming_plan(true, false, 500),
        StreamingPlan { start_offset: 0, truncate: true, range_from: None }
    );
}

#[test]
fn resume_seeds_progress_and_pending() {
    let mut m = PartMap::new(20 * MIB, 4 * MIB);
    m.record_progress(0, 4 * MIB).unwrap();
    m.record_progress(2, 1000).unwrap();
    assert_eq!(completed_bytes(&m), 4 * MIB + 1000);
    let pending = pending_tasks(&m);
    let ids: Vec<usize> = pending.iter().map(|t| t.id).collect();
    assert_eq!(ids, vec![1, 2, 3, 4]);
    assert_eq!(pending[1].downloaded, 1000);
    assert!(pending.windows(2).all(|w| w[0].start < w[1].start));
}
