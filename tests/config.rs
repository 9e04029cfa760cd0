use kdownload::checksum::ChecksumSpec;
use kdownload::config::{is_supported_scheme, parse_urls};
use kdownload::paths::{derive_partmap_path, filename_from_segments};
use kdownload::{
    ChecksumError, ChecksumInput, Cli, ConfigError, DownloadConfig, ProgressMode, UrlError,
};

fn cli() -> Cli {
    Cli::new(vec!["https://example.com/file".to_string()])
}

#[test]
fn progress_mode_defaults_to_text() {
    assert_eq!(cli().progress_mode(), ProgressMode::Text);
}

#[test]
fn progress_mode_respects_quiet() {
    let mut c = cli();
    c.quiet = true;
    assert_eq!(c.progress_mode(), ProgressMode::Quiet);
}

#[test]
fn progress_mode_prefers_json_flag() {
    let mut c = cli();
    c.quiet = true;
    c.json = true;
    assert_eq!(c.progress_mode(), ProgressMode::Json);
}

#[test]
fn connection_limits() {
    let mut c = cli();
    assert_eq!(c.connection_limits(), Ok((32, 64)));
    c.connections = 100;
    assert_eq!(c.connection_limits(), Ok((64, 64)));
    c.connections = 0;
    assert_eq!(c.connection_limits(), Ok((1, 64)));
    c.connections = 100;
    c.unsafe_conn = Some(128);
    assert_eq!(c.connection_limits(), Ok((100, 128)));
    c.unsafe_conn = Some(50);
    assert_eq!(c.connection_limits(), Err(ConfigError::ConnectionsAboveUnsafeLimit));
    c.segments = 0;
    assert_eq!(c.initial_segments(), 1);
}

#[test]
fn max_parallelism_of_config() {
    let cfg = DownloadConfig {
        urls: vec!["http://a/b".into()],
        output_path: "b".into(),
        partmap_path: "b.kdl.partmap".into(),
        resume: false,
        initial_segments: 64,
        max_connections_per_host: 100,
        unsafe_connection_cap: 64,
        timeout_secs: None,
        bandwidth_limit: None,
        expected_sha256: None,
        progress: ProgressMode::Text,
    };
    assert_eq!(cfg.max_parallelism(), 64);
}

#[test]
fn schemes() {
    assert!(is_supported_scheme("http"));
    assert!(is_supported_scheme("https"));
    assert!(!is_supported_scheme("ftp"));
    assert!(!is_supported_scheme("httpx"));
}

#[test]
fn partmap_path_beside_output() {
    assert_eq!(derive_partmap_path("dir/file.iso"), "dir/file.iso.kdl.partmap");
    assert_eq!(derive_partmap_path("file.iso"), "file.iso.kdl.partmap");
    assert_eq!(derive_partmap_path("dir/.."), "dir/../download.bin.kdl.partmap");
}

#[test]
fn file_name_from_url_path() {
    let segs = |v: &[&str]| Some(v.iter().map(|s| s.to_string()).collect::<Vec<_>>());
    assert_eq!(filename_from_segments(segs(&["a", "b.iso"])), "b.iso");
    assert_eq!(filename_from_segments(segs(&["a", "b.iso", ""])), "b.iso");
    assert_eq!(filename_from_segments(segs(&[""])), "download.bin");
    assert_eq!(filename_from_segments(segs(&["a", " "])), "download.bin");
    assert_eq!(filename_from_segments(None), "download.bin");
}

const DIGEST: &str = "9f86d081884c7d659a2feaa0c55ad015a3bf4f1b2b0b822cd15d6c15b0f00a08";

#[test]
fn checksum_from_hex_argument() {
    match ChecksumSpec::from_input(&format!("  {}\n", DIGEST.to_uppercase())) {
        Ok(ChecksumInput::Digest(spec)) => {
            assert_eq!(spec.expected[0], 0x9f);
            assert_eq!(spec.expected[31], 0x08);
            assert_eq!(spec.display(), DIGEST.to_uppercase());
        }
        other => panic!("unexpected {:?}", other),
    }
    assert!(matches!(ChecksumSpec::from_input("   "), Err(ChecksumError::Empty)));
    match ChecksumSpec::from_input(" sums.txt ") {
        Ok(ChecksumInput::File(p)) => assert_eq!(p, "sums.txt"),
        other => panic!("unexpected {:?}", other),
    }
}

#[test]
fn checksum_from_file_line() {
    let spec = ChecksumSpec::from_checksum_line(&format!("{}  file.iso\n", DIGEST)).unwrap();
    assert_eq!(spec.display(), DIGEST);
    assert_eq!(ChecksumSpec::from_checksum_line("  \n").unwrap_err(), ChecksumError::EmptyFile);
    assert_eq!(ChecksumSpec::from_checksum_line("abc file").unwrap_err(), ChecksumError::InvalidHex);
}

#[test]
fn checksum_mismatch_reports_both_digests() {
    let spec = ChecksumSpec::from_checksum_line(DIGEST).unwrap();
    let mut other = spec.expected;
    assert_eq!(spec.check_digest(&other), Ok(()));
    other[0] = 0;
    match spec.check_digest(&other) {
        Err(ChecksumError::Mismatch(e, a)) => {
            assert_eq!(e, DIGEST);
            assert_eq!(&a[..2], "00");
            assert_eq!(&a[2..], &DIGEST[2..]);
        }
        r => panic!("unexpected {:?}", r),
    }
}

#[test]
fn urls_parse_in_order_with_supported_schemes() {
    let urls = vec!["https://example.com/dir/file.iso".to_string()];
    let mirrors = vec!["http://mirror.example/file.iso".to_string()];
    let parsed = parse_urls(&urls, &mirrors).unwrap();
    assert_eq!(parsed.len(), 2);
    assert_eq!(parsed[0].href, "https://example.com/dir/file.iso");
    assert_eq!(parsed[0].scheme, "https");
    assert_eq!(parsed[0].path_segments, Some(vec!["dir".to_string(), "file.iso".to_string()]));
    assert_eq!(parsed[1].scheme, "http");
    assert_eq!(filename_from_segments(parsed[0].path_segments.clone()), "file.iso");
    let bad = vec!["ftp://example.com/f".to_string()];
    assert_eq!(parse_urls(&urls, &bad), Err(UrlError::UnsupportedScheme("ftp".to_string())));
    let junk = vec!["not a url".to_string()];
    assert_eq!(parse_urls(&junk, &bad), Err(UrlError::Invalid("not a url".to_string())));
    assert_eq!(parse_urls(&vec![], &mirrors), Err(UrlError::NoUrls));
}
