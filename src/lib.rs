//! A segmented multi-source downloader: the byte-range partition, the
//! crash-safe part map and its on-disk log, the adaptive scheduler, mirror
//! rotation, retry policy, bandwidth limiting and the decisions of the
//! download manager, each stated and proved with Verus.
pub mod bandwidth;
pub mod checksum;
pub mod config;
pub mod mirror;
pub mod partlog;
pub mod partmap;
pub mod paths;
pub mod plan;
pub mod probe;
pub mod rate;
pub mod run;
pub mod scheduler;
pub mod segment;
pub mod size;
pub mod text;

pub use bandwidth::{Admission, BandwidthLimiter};
pub use checksum::{ChecksumError, ChecksumInput, ChecksumSpec};
pub use config::{
    Cli, ConfigError, DownloadConfig, ParsedUrl, ProgressFinish, ProgressMode, UrlError,
};
pub use mirror::MirrorPool;
pub use partlog::PartMapLoad;
pub use partmap::{PartMap, PartMapError, PartSegment};
pub use probe::{FileMetadata, HeadOutcome, ProbeError};
pub use run::{RunAction, SegmentedRun};
pub use scheduler::{Scheduler, SchedulerSnapshot, SegmentStats, SegmentTask};
pub use segment::{FailureKind, PendingWrite, RetryDecision, SegmentWriter};
