//! What the metadata probe makes of the responses it gets, and the header
//! values it reads.
use vstd::prelude::*;
use vstd::string::StrSliceExecFns;
use crate::text::{parse_u64, parsed_u64, trim, trimmed};

verus! {

/// What the probe learned of the remote file.
#[derive(Debug, Clone, PartialEq, Eq)]
pub struct FileMetadata {
    pub content_length: Option<u64>,
    pub supports_ranges: bool,
    pub filename: Option<String>,
}

/// Why a mirror's probe failed.
#[derive(Debug, Clone, Copy, PartialEq, Eq, Structural)]
pub enum ProbeError {
    /// The response had this status.
    Status(u16),
    /// A 206 answer without a usable `Content-Range` total.
    MissingContentRange,
}

/// What to do after the HEAD response.
#[derive(Debug, Clone, PartialEq, Eq)]
pub enum HeadOutcome {
    /// The HEAD response settles it.
    Metadata(FileMetadata),
    /// Ask with a one-byte `Range: bytes=0-0` GET; a filename found so far
    /// fills in for one that answer lacks.
    RangeProbe(Option<String>),
    /// This mirror failed.
    Failed(ProbeError),
}

pub open spec fn is_success(status: u16) -> bool {
    200 <= status < 300
}

/// The HEAD decision: a success with a length is final; a success without
/// one goes on to the range probe when ranges are advertised; 405 and 501 go
/// to the range probe; any other status fails the mirror.
pub fn head_outcome(
    status: u16,
    content_length: Option<u64>,
    supports_ranges: bool,
    filename: Option<String>,
) -> (r: HeadOutcome)
    ensures
        is_success(status) && content_length.is_some() ==> r == HeadOutcome::Metadata(
            FileMetadata { content_length, supports_ranges, filename },
        ),
        is_success(status) && content_length.is_none() && supports_ranges ==> r
            == HeadOutcome::RangeProbe(filename),
        is_success(status) && content_length.is_none() && !supports_ranges ==> r
            == HeadOutcome::Metadata(
            FileMetadata { content_length: None, supports_ranges: false, filename },
        ),
        !is_success(status) && (status == 405 || status == 501) ==> r == HeadOutcome::RangeProbe(
            None,
        ),
        !is_success(status) && status != 405 && status != 501 ==> r == HeadOutcome::Failed(
            ProbeError::Status(status),
        ),
{
    if 200 <= status && status < 300 {
        if content_length.is_some() {
            HeadOutcome::Metadata(FileMetadata { content_length, supports_ranges, filename })
        } else if supports_ranges {
            HeadOutcome::RangeProbe(filename)
        } else {
            HeadOutcome::Metadata(FileMetadata { content_length: None, supports_ranges, filename })
        }
    } else if status == 405 || status == 501 {
        HeadOutcome::RangeProbe(None)
    } else {
        HeadOutcome::Failed(ProbeError::Status(status))
    }
}

/// The range-probe decision: a 206 gives the total of `Content-Range` and
/// range support; another success gives its `Content-Length` and no range
/// support; anything else fails the mirror. `fallback_filename` stands in
/// when the answer names no file.
pub fn range_probe_outcome(
    status: u16,
    content_range: Option<&str>,
    content_length: Option<u64>,
    filename: Option<String>,
    fallback_filename: Option<String>,
) -> (r: Result<FileMetadata, ProbeError>)
    ensures
        ({
            let name = if filename.is_some() { filename } else { fallback_filename };
            if status == 206 {
                match range_total(content_range) {
                    Some(total) => r == Ok::<FileMetadata, ProbeError>(
                        FileMetadata { content_length: Some(total), supports_ranges: true, filename: name },
                    ),
                    None => r == Err::<FileMetadata, ProbeError>(ProbeError::MissingContentRange),
                }
            } else if is_success(status) {
                r == Ok::<FileMetadata, ProbeError>(
                    FileMetadata { content_length, supports_ranges: false, filename: name },
                )
            } else {
                r == Err::<FileMetadata, ProbeError>(ProbeError::Status(status))
            }
        }),
{
    let name = if filename.is_some() { filename } else { fallback_filename };
    if status == 206 {
        match parse_content_range(content_range) {
            Some(total) => Ok(FileMetadata { content_length: Some(total), supports_ranges: true, filename: name }),
            None => Err(ProbeError::MissingContentRange),
        }
    } else if 200 <= status && status < 300 {
        Ok(FileMetadata { content_length, supports_ranges: false, filename: name })
    } else {
        Err(ProbeError::Status(status))
    }
}

/// Whether a file is fetched by ranges: only when ranges are supported and
/// the length is known.
pub fn use_segments(meta: &FileMetadata) -> (r: bool)
    ensures
        r == (meta.supports_ranges && meta.content_length.is_some()),
{
    meta.supports_ranges && meta.content_length.is_some()
}

/// `Content-Length`: a `u64` in decimal.
pub fn parse_content_length(value: Option<&str>) -> (r: Option<u64>)
    ensures
        r == (match value {
            Some(v) => parsed_u64(v@),
            None => None::<u64>,
        }),
{
    match value {
        Some(v) => parse_u64(v),
        None => None,
    }
}

/// Positions of `c` in `s`.
pub open spec fn count_char(s: Seq<char>, c: char) -> nat
    decreases s.len(),
{
    if s.len() == 0 {
        0
    } else {
        count_char(s.drop_last(), c) + if s.last() == c { 1nat } else { 0nat }
    }
}

/// The total of `Content-Range: bytes P-E/TOTAL`: the value has exactly one
/// `/`, and what follows it is a `u64`.
pub open spec fn range_total(value: Option<&str>) -> Option<u64> {
    match value {
        None => None,
        Some(v) => if count_char(v@, '/') == 1 {
            let i = choose|i: int| 0 <= i < v@.len() && v@[i] == '/';
            parsed_u64(v@.subrange(i + 1, v@.len() as int))
        } else {
            None
        },
    }
}

pub fn parse_content_range(value: Option<&str>) -> (r: Option<u64>)
    ensures
        r == range_total(value),
{
    let v = match value {
        Some(v) => v,
        None => return None,
    };
    let n = v.unicode_len();
    let mut slashes: usize = 0;
    let mut at: usize = 0;
    let mut i: usize = 0;
    while i < n
        invariant
            n == v@.len(),
            i <= n,
            slashes == count_char(v@.take(i as int), '/'),
            slashes <= i,
            slashes >= 1 ==> at < i && v@[at as int] == '/',
            slashes == 0 ==> forall|j: int| 0 <= j < i ==> v@[j] != '/',
            slashes == 1 ==> forall|j: int| 0 <= j < i && v@[j] == '/' ==> j == at,
        decreases n - i,
    {
        assert(v@.take(i + 1).drop_last() =~= v@.take(i as int));
        if v.get_char(i) == '/' {
            at = i;
            proof {
                if slashes == 1 {
                    assert(v@.take(i + 1).drop_last() =~= v@.take(i as int));
                }
            }
            slashes = slashes + 1;
        }
        i = i + 1;
    }
    assert(v@.take(n as int) =~= v@);
    if slashes != 1 {
        return None;
    }
    let tail = v.substring_char(at + 1, n);
    proof {
        let k = choose|k: int| 0 <= k < v@.len() && v@[k] == '/';
        assert(v@[at as int] == '/');
        assert(k == at);
    }
    parse_u64(tail)
}

/// Index of the first `c` in `s`, or the length of `s`.
pub open spec fn find_char(s: Seq<char>, c: char) -> int
    decreases s.len(),
{
    if s.len() == 0 {
        0
    } else if s[0] == c {
        0
    } else {
        1 + find_char(s.drop_first(), c)
    }
}

/// `s` without leading and trailing `c`.
pub open spec fn strip_char(s: Seq<char>, c: char) -> Seq<char>
    decreases s.len(),
{
    if s.len() > 0 && s[0] == c {
        strip_char(s.drop_first(), c)
    } else if s.len() > 0 && s.last() == c {
        strip_char(s.drop_last(), c)
    } else {
        s
    }
}

pub open spec fn filename_key() -> Seq<char> {
    seq!['f', 'i', 'l', 'e', 'n', 'a', 'm', 'e', '=']
}

/// The name a `;`-separated part gives: after trimming, `filename=` and a
/// value that is not empty once its double quotes are stripped.
pub open spec fn part_filename(part: Seq<char>) -> Option<Seq<char>> {
    let t = trimmed(part);
    if t.len() >= 9 && t.subrange(0, 9) == filename_key() {
        let name = strip_char(t.subrange(9, t.len() as int), '"');
        if name.len() > 0 { Some(name) } else { None }
    } else {
        None
    }
}

/// The first filename that the parts of a `Content-Disposition` value give.
pub open spec fn disposition_filename(s: Seq<char>) -> Option<Seq<char>>
    decreases s.len(),
{
    let i = find_char(s, ';');
    match part_filename(s.subrange(0, i)) {
        Some(name) => Some(name),
        None => if 0 <= i < s.len() {
            disposition_filename(s.subrange(i + 1, s.len() as int))
        } else {
            None
        },
    }
}

proof fn lemma_find_char_bound(s: Seq<char>, c: char)
    ensures
        0 <= find_char(s, c) <= s.len(),
        find_char(s, c) < s.len() ==> s[find_char(s, c)] == c,
        forall|j: int| 0 <= j < find_char(s, c) ==> s[j] != c,
    decreases s.len(),
{
    if s.len() > 0 && s[0] != c {
        lemma_find_char_bound(s.drop_first(), c);
        assert forall|j: int| 0 <= j < find_char(s, c) implies s[j] != c by {
            if j > 0 {
                assert(s[j] == s.drop_first()[j - 1]);
            }
        }
    }
}

pub proof fn lemma_find_char_at(s: Seq<char>, c: char, i: int)
    requires
        0 <= i <= s.len(),
        i < s.len() ==> s[i] == c,
        forall|j: int| 0 <= j < i ==> s[j] != c,
    ensures
        find_char(s, c) == i,
    decreases s.len(),
{
    if s.len() > 0 && i > 0 {
        assert forall|j: int| 0 <= j < i - 1 implies s.drop_first()[j] != c by {
            assert(s.drop_first()[j] == s[j + 1]);
        }
        lemma_find_char_at(s.drop_first(), c, i - 1);
    }
}

/// `s` without leading and trailing `"`.
fn strip_quotes(s: &str) -> (r: &str)
    ensures
        r@ == strip_char(s@, '"'),
{
    let n = s.unicode_len();
    let mut a: usize = 0;
    let mut b: usize = n;
    assert(s@.subrange(0, n as int) =~= s@);
    while a < b && (s.get_char(a) == '"' || s.get_char(b - 1) == '"')
        invariant
            a <= b <= n,
            n == s@.len(),
            strip_char(s@, '"') == strip_char(s@.subrange(a as int, b as int), '"'),
        decreases b - a,
    {
        let ghost t = s@.subrange(a as int, b as int);
        if s.get_char(a) == '"' {
            assert(t.drop_first() =~= s@.subrange(a + 1, b as int));
            a = a + 1;
        } else {
            assert(t.drop_last() =~= s@.subrange(a as int, b - 1));
            b = b - 1;
        }
    }
    s.substring_char(a, b)
}

/// The name that one `;`-separated part gives, if any.
fn filename_of_part(part: &str) -> (r: Option<String>)
    ensures
        match r {
            Some(name) => part_filename(part@) == Some(name@),
            None => part_filename(part@).is_none(),
        },
{
    let t = trim(part);
    let n = t.unicode_len();
    if n < 9 {
        return None;
    }
    let key = t.substring_char(0, 9);
    let matches = key.get_char(0) == 'f' && key.get_char(1) == 'i' && key.get_char(2) == 'l'
        && key.get_char(3) == 'e' && key.get_char(4) == 'n' && key.get_char(5) == 'a'
        && key.get_char(6) == 'm' && key.get_char(7) == 'e' && key.get_char(8) == '=';
    if !matches {
        return None;
    }
    assert(key@ =~= filename_key());
    let name = strip_quotes(t.substring_char(9, n));
    if name.unicode_len() == 0 {
        return None;
    }
    Some(String::from_str(name))
}

/// The filename a `Content-Disposition` value names: the first
/// `;`-separated part that reads `filename=NAME` once trimmed, with double
/// quotes around `NAME` stripped and `NAME` not empty.
pub fn parse_content_disposition(value: &str) -> (r: Option<String>)
    ensures
        match r {
            Some(name) => disposition_filename(value@) == Some(name@),
            None => disposition_filename(value@).is_none(),
        },
{
    let n = value.unicode_len();
    let mut start: usize = 0;
    assert(value@.subrange(0, n as int) =~= value@);
    loop
        invariant
            start <= n,
            n == value@.len(),
            disposition_filename(value@) == disposition_filename(
                value@.subrange(start as int, n as int),
            ),
        decreases n - start,
    {
        let ghost rest = value@.subrange(start as int, n as int);
        let mut end: usize = start;
        while end < n && value.get_char(end) != ';'
            invariant
                start <= end <= n,
                n == value@.len(),
                forall|j: int| start <= j < end ==> value@[j] != ';',
            decreases n - end,
        {
            end = end + 1;
        }
        proof {
            assert forall|j: int| 0 <= j < end - start implies rest[j] != ';' by {
                assert(rest[j] == value@[start + j]);
            }
            lemma_find_char_at(rest, ';', end - start);
            assert(rest.subrange(0, end - start) =~= value@.subrange(start as int, end as int));
        }
        let part = value.substring_char(start, end);
        match filename_of_part(part) {
            Some(name) => {
                return Some(name);
            },
            None => {},
        }
        if end == n {
            return None;
        }
        proof {
            assert(rest.subrange(end - start + 1, rest.len() as int) =~= value@.subrange(
                end + 1,
                n as int,
            ));
        }
        start = end + 1;
    }
}

/// `c` is `t` or, for an ASCII lowercase letter `t`, its uppercase form.
pub open spec fn lower_is(c: char, t: char) -> bool {
    c == t || ('a' <= t <= 'z' && c as u32 + 32 == t as u32)
}

/// `bytes`, any ASCII letter of it in either case, at index `i` of `s`.
pub open spec fn bytes_at(s: Seq<char>, i: int) -> bool {
    &&& 0 <= i
    &&& i + 5 <= s.len()
    &&& lower_is(s[i], 'b')
    &&& lower_is(s[i + 1], 'y')
    &&& lower_is(s[i + 2], 't')
    &&& lower_is(s[i + 3], 'e')
    &&& lower_is(s[i + 4], 's')
}

/// `s`, ASCII letters lowercased, contains `bytes`.
pub open spec fn mentions_bytes(s: Seq<char>) -> bool {
    exists|i: int| #[trigger] bytes_at(s, i)
}

fn lower_eq(c: char, t: char) -> (r: bool)
    requires
        'a' <= t <= 'z',
    ensures
        r == lower_is(c, t),
{
    c == t || (c as u32) + 32 == (t as u32)
}

/// Whether an `Accept-Ranges` value, lowercased, contains `bytes`; an
/// absent header says no.
pub fn accepts_byte_ranges(value: Option<&str>) -> (r: bool)
    ensures
        r == (match value {
            Some(v) => mentions_bytes(v@),
            None => false,
        }),
{
    match value {
        Some(v) => contains_bytes(v),
        None => false,
    }
}

fn contains_bytes(v: &str) -> (r: bool)
    ensures
        r == mentions_bytes(v@),
{
    let n = v.unicode_len();
    if n < 5 {
        return false;
    }
    let mut i: usize = 0;
    while i <= n - 5
        invariant
            n == v@.len(),
            n >= 5,
            i <= n - 4,
            forall|j: int| 0 <= j < i ==> !#[trigger] bytes_at(v@, j),
        decreases n - i,
    {
        let found = lower_eq(v.get_char(i), 'b') && lower_eq(v.get_char(i + 1), 'y') && lower_eq(
            v.get_char(i + 2),
            't',
        ) && lower_eq(v.get_char(i + 3), 'e') && lower_eq(v.get_char(i + 4), 's');
        if found {
            assert(bytes_at(v@, i as int));
            assert(mentions_bytes(v@));
            return true;
        }
        i = i + 1;
    }
    assert forall|j: int| !#[trigger] bytes_at(v@, j) by {
        if 0 <= j < i {
        }
    }
    false
}

} // verus!
