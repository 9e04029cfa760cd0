//! Run configuration: what the command line asks for, as plain values.
use vstd::prelude::*;
use vstd::string::StrSliceExecFns;
use crate::checksum::ChecksumSpec;
use crate::paths::views;

verus! {

/// Highest connection count allowed without `--unsafe-conn`.
pub const SAFE_CONNECTION_CAP: usize = 64;

/// How progress is shown.
#[derive(Debug, Clone, Copy, PartialEq, Eq, Structural)]
pub enum ProgressMode {
    Quiet,
    Text,
    Json,
}

/// How a run ended, for the progress display.
#[derive(Debug, Clone, Copy, PartialEq, Eq, Structural)]
pub enum ProgressFinish {
    Success,
    Failure,
}

/// Why the command line was refused.
#[derive(Debug, Clone, Copy, PartialEq, Eq, Structural)]
pub enum ConfigError {
    /// `--connections` exceeds `--unsafe-conn`.
    ConnectionsAboveUnsafeLimit,
}

/// The command-line arguments.
#[derive(Debug, Clone, PartialEq, Eq)]
pub struct Cli {
    pub urls: Vec<String>,
    pub output: Option<String>,
    pub connections: usize,
    pub segments: usize,
    pub mirrors: Vec<String>,
    pub sha256: Option<String>,
    pub resume: bool,
    pub timeout: Option<u64>,
    pub bandwidth_limit: Option<String>,
    pub unsafe_conn: Option<usize>,
    pub quiet: bool,
    pub verbose: bool,
    pub json: bool,
}

/// `--json` wins over `--quiet`; the default is a text bar.
pub open spec fn mode_for(json: bool, quiet: bool) -> ProgressMode {
    if json {
        ProgressMode::Json
    } else if quiet {
        ProgressMode::Quiet
    } else {
        ProgressMode::Text
    }
}

impl Cli {
    /// The arguments for `urls` with every option at its default:
    /// 32 connections, 64 segments.
    pub fn new(urls: Vec<String>) -> (r: Cli)
        ensures
            r.urls@ == urls@,
            r.output.is_none(),
            r.connections == 32,
            r.segments == 64,
            r.mirrors@.len() == 0,
            r.sha256.is_none(),
            !r.resume,
            r.timeout.is_none(),
            r.bandwidth_limit.is_none(),
            r.unsafe_conn.is_none(),
            !r.quiet,
            !r.verbose,
            !r.json,
    {
        Cli {
            urls,
            output: None,
            connections: 32,
            segments: 64,
            mirrors: Vec::new(),
            sha256: None,
            resume: false,
            timeout: None,
            bandwidth_limit: None,
            unsafe_conn: None,
            quiet: false,
            verbose: false,
            json: false,
        }
    }

    pub fn progress_mode(&self) -> (r: ProgressMode)
        ensures
            r == mode_for(self.json, self.quiet),
    {
        if self.json {
            ProgressMode::Json
        } else if self.quiet {
            ProgressMode::Quiet
        } else {
            ProgressMode::Text
        }
    }

    /// Per-host connections and the connection ceiling. Without
    /// `--unsafe-conn` the count is clamped to `[1, 64]` under a ceiling of
    /// 64; with it, the count (at least 1) may not exceed the given ceiling.
    pub fn connection_limits(&self) -> (r: Result<(usize, usize), ConfigError>)
        ensures
            match self.unsafe_conn {
                None => r == Ok::<(usize, usize), ConfigError>(
                    (
                        if self.connections == 0 {
                            1
                        } else if self.connections > SAFE_CONNECTION_CAP {
                            SAFE_CONNECTION_CAP
                        } else {
                            self.connections
                        },
                        SAFE_CONNECTION_CAP,
                    ),
                ),
                Some(cap) => if self.connections > cap {
                    r == Err::<(usize, usize), ConfigError>(ConfigError::ConnectionsAboveUnsafeLimit)
                } else {
                    r == Ok::<(usize, usize), ConfigError>(
                        (if self.connections == 0 { 1 } else { self.connections }, cap),
                    )
                },
            },
    {
        match self.unsafe_conn {
            None => {
                let c = if self.connections > SAFE_CONNECTION_CAP {
                    SAFE_CONNECTION_CAP
                } else {
                    self.connections
                };
                Ok((if c == 0 { 1 } else { c }, SAFE_CONNECTION_CAP))
            },
            Some(cap) => {
                if self.connections > cap {
                    Err(ConfigError::ConnectionsAboveUnsafeLimit)
                } else {
                    Ok((if self.connections == 0 { 1 } else { self.connections }, cap))
                }
            },
        }
    }

    /// The initial segment count, at least 1.
    pub fn initial_segments(&self) -> (r: usize)
        ensures
            r == (if self.segments == 0 { 1 } else { self.segments }),
    {
        if self.segments == 0 { 1 } else { self.segments }
    }
}

/// Only `http` and `https` are fetched.
pub fn is_supported_scheme(scheme: &str) -> (r: bool)
    ensures
        r == (scheme@ == seq!['h', 't', 't', 'p'] || scheme@ == seq!['h', 't', 't', 'p', 's']),
{
    let n = scheme.unicode_len();
    if n != 4 && n != 5 {
        return false;
    }
    let head = scheme.get_char(0) == 'h' && scheme.get_char(1) == 't' && scheme.get_char(2) == 't'
        && scheme.get_char(3) == 'p';
    if !head {
        return false;
    }
    if n == 4 {
        assert(scheme@ =~= seq!['h', 't', 't', 'p']);
        return true;
    }
    let r = scheme.get_char(4) == 's';
    if r {
        assert(scheme@ =~= seq!['h', 't', 't', 'p', 's']);
    }
    r
}

/// What a URL parses to, as text: its serialization, its scheme and, for
/// a URL with a hierarchical path, the path's `/`-separated segments.
pub uninterp spec fn url_parts(s: Seq<char>) -> Option<(Seq<char>, Seq<char>, Option<Seq<Seq<char>>>)>;

/// A parsed absolute URL.
#[derive(Debug, Clone, PartialEq, Eq)]
pub struct ParsedUrl {
    pub href: String,
    pub scheme: String,
    pub path_segments: Option<Vec<String>>,
}

pub open spec fn parts_of(u: ParsedUrl) -> (Seq<char>, Seq<char>, Option<Seq<Seq<char>>>) {
    (
        u.href@,
        u.scheme@,
        match u.path_segments {
            Some(v) => Some(views(v@)),
            None => None,
        },
    )
}

/// Relies on `reqwest::Url::parse` (the `url` crate): an absolute URL
/// parses or is refused, depending on the text alone; the parts are read
/// with `as_str`, `scheme` and `path_segments`.
#[verifier::external_body]
fn parse_url(s: &str) -> (r: Option<ParsedUrl>)
    ensures
        r.is_some() == url_parts(s@).is_some(),
        r.is_some() ==> parts_of(r.unwrap()) == url_parts(s@).unwrap(),
{
    match reqwest::Url::parse(s) {
        Ok(u) => Some(ParsedUrl {
            href: u.as_str().to_string(),
            scheme: u.scheme().to_string(),
            path_segments: u.path_segments().map(|p| p.map(|x| x.to_string()).collect()),
        }),
        Err(_) => None,
    }
}

/// Why a URL was refused.
#[derive(Debug, Clone, PartialEq, Eq)]
pub enum UrlError {
    /// No URL was given.
    NoUrls,
    /// This text is not a URL.
    Invalid(String),
    /// A URL with this scheme, neither `http` nor `https`.
    UnsupportedScheme(String),
}

pub open spec fn supported_scheme(s: Seq<char>) -> bool {
    s == seq!['h', 't', 't', 'p'] || s == seq!['h', 't', 't', 'p', 's']
}

/// The text parses to an `http` or `https` URL.
pub open spec fn url_ok(s: Seq<char>) -> bool {
    url_parts(s).is_some() && supported_scheme(url_parts(s).unwrap().1)
}

/// The error for a text that is not an acceptable URL.
pub open spec fn url_error_matches(s: Seq<char>, e: UrlError) -> bool {
    match url_parts(s) {
        None => e matches UrlError::Invalid(t) && t@ == s,
        Some(parts) => e matches UrlError::UnsupportedScheme(t) && t@ == parts.1,
    }
}

/// Parses the primary URLs and then the mirrors, in order: each must be
/// an `http` or `https` URL; the first that is not stops the parse.
pub fn parse_urls(urls: &Vec<String>, mirrors: &Vec<String>) -> (r: Result<Vec<ParsedUrl>, UrlError>)
    ensures
        ({
            let all = views(urls@) + views(mirrors@);
            if urls@.len() == 0 {
                r == Err::<Vec<ParsedUrl>, UrlError>(UrlError::NoUrls)
            } else {
                match r {
                    Ok(v) => {
                        &&& forall|i: int| 0 <= i < all.len() ==> url_ok(#[trigger] all[i])
                        &&& v@.len() == all.len()
                        &&& forall|i: int|
                            0 <= i < all.len() ==> parts_of(#[trigger] v@[i]) == url_parts(
                                all[i],
                            ).unwrap()
                    },
                    Err(e) => exists|i: int|
                        0 <= i < all.len() && !url_ok(#[trigger] all[i]) && url_error_matches(
                            all[i],
                            e,
                        ) && forall|j: int| 0 <= j < i ==> url_ok(#[trigger] all[j]),
                }
            }
        }),
{
    if urls.len() == 0 {
        return Err(UrlError::NoUrls);
    }
    let ghost all = views(urls@) + views(mirrors@);
    let n1 = urls.len();
    let n2 = mirrors.len();
    let mut out: Vec<ParsedUrl> = Vec::new();
    let mut i: usize = 0;
    while i < n1
        invariant
            n1 == urls@.len(),
            n2 == mirrors@.len(),
            all == views(urls@) + views(mirrors@),
            all.len() == n1 + n2,
            i <= n1,
            out@.len() == i,
            forall|j: int| 0 <= j < i ==> url_ok(#[trigger] all[j]),
            forall|j: int| 0 <= j < i ==> parts_of(#[trigger] out@[j]) == url_parts(all[j]).unwrap(),
        decreases n1 - i,
    {
        assert(urls@[i as int]@ == all[i as int]);
        match parse_one(&urls[i]) {
            Ok(u) => out.push(u),
            Err(e) => {
                assert(!url_ok(all[i as int]) && url_error_matches(all[i as int], e));
                return Err(e);
            },
        }
        i = i + 1;
    }
    let mut k: usize = 0;
    while k < n2
        invariant
            n1 == urls@.len(),
            n2 == mirrors@.len(),
            all == views(urls@) + views(mirrors@),
            all.len() == n1 + n2,
            k <= n2,
            n1 > 0,
            out@.len() == n1 + k,
            forall|j: int| 0 <= j < n1 + k ==> url_ok(#[trigger] all[j]),
            forall|j: int| 0 <= j < n1 + k ==> parts_of(#[trigger] out@[j]) == url_parts(all[j]).unwrap(),
        decreases n2 - k,
    {
        assert(mirrors@[k as int]@ == all[n1 + k]);
        match parse_one(&mirrors[k]) {
            Ok(u) => out.push(u),
            Err(e) => {
                assert(!url_ok(all[n1 + k]) && url_error_matches(all[n1 + k], e));
                return Err(e);
            },
        }
        k = k + 1;
    }
    Ok(out)
}

/// One URL: it must parse, with scheme `http` or `https`.
fn parse_one(text: &String) -> (r: Result<ParsedUrl, UrlError>)
    ensures
        match r {
            Ok(u) => url_ok(text@) && parts_of(u) == url_parts(text@).unwrap(),
            Err(e) => !url_ok(text@) && url_error_matches(text@, e),
        },
{
    match parse_url(text.as_str()) {
        None => Err(UrlError::Invalid(text.clone())),
        Some(u) => {
            if is_supported_scheme(u.scheme.as_str()) {
                Ok(u)
            } else {
                Err(UrlError::UnsupportedScheme(u.scheme.clone()))
            }
        },
    }
}

/// Everything a download run needs.
#[derive(Debug, Clone)]
pub struct DownloadConfig {
    pub urls: Vec<String>,
    pub output_path: String,
    pub partmap_path: String,
    pub resume: bool,
    pub initial_segments: usize,
    pub max_connections_per_host: usize,
    pub unsafe_connection_cap: usize,
    pub timeout_secs: Option<u64>,
    pub bandwidth_limit: Option<u64>,
    pub expected_sha256: Option<ChecksumSpec>,
    pub progress: ProgressMode,
}

impl DownloadConfig {
    /// `min(max_connections_per_host, unsafe_connection_cap)`, at least 1.
    pub fn max_parallelism(&self) -> (r: usize)
        ensures
            r == ({
                let m = if self.max_connections_per_host <= self.unsafe_connection_cap {
                    self.max_connections_per_host
                } else {
                    self.unsafe_connection_cap
                };
                if m == 0 { 1 } else { m }
            }),
    {
        let m = if self.max_connections_per_host <= self.unsafe_connection_cap {
            self.max_connections_per_host
        } else {
            self.unsafe_connection_cap
        };
        if m == 0 { 1 } else { m }
    }
}

} // verus!
