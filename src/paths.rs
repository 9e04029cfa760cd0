//! File names around the download: the part-map path beside the output, and
//! the name taken from a URL.
use vstd::prelude::*;
use vstd::string::{StrSliceExecFns, StringExecFns};
use crate::text::{trim, trimmed};

verus! {

/// Name used when neither the output path nor the URL gives one.
pub open spec fn default_name() -> Seq<char> {
    seq!['d', 'o', 'w', 'n', 'l', 'o', 'a', 'd', '.', 'b', 'i', 'n']
}

/// Suffix of the part-map file.
pub open spec fn partmap_suffix() -> Seq<char> {
    seq!['.', 'k', 'd', 'l', '.', 'p', 'a', 'r', 't', 'm', 'a', 'p']
}

/// The final component of a path, when it is a normal file name.
pub uninterp spec fn path_file_name(p: Seq<char>) -> Option<Seq<char>>;

/// A path with its final component replaced by `name`.
pub uninterp spec fn path_with_file_name(p: Seq<char>, name: Seq<char>) -> Seq<char>;

/// Relies on `std::path::Path::file_name`: the final component of the path,
/// or none when the path ends in `..` or is a root or empty.
#[verifier::external_body]
fn file_name_of(path: &str) -> (r: Option<String>)
    ensures
        r.is_some() == path_file_name(path@).is_some(),
        r.is_some() ==> r.unwrap()@ == path_file_name(path@).unwrap(),
{
    match std::path::Path::new(path).file_name() {
        Some(n) => Some(n.to_string_lossy().into_owned()),
        None => None,
    }
}

/// Relies on `std::path::Path::with_file_name`: the path with its final
/// component replaced.
#[verifier::external_body]
fn with_file_name(path: &str, name: &str) -> (r: String)
    ensures
        r@ == path_with_file_name(path@, name@),
{
    std::path::Path::new(path).with_file_name(name).to_string_lossy().into_owned()
}

/// The part-map path of an output path: `<name>.kdl.partmap` in the same
/// directory, `download.bin.kdl.partmap` when the output has no file name.
pub fn derive_partmap_path(output: &str) -> (r: String)
    ensures
        r@ == path_with_file_name(
            output@,
            (match path_file_name(output@) {
                Some(n) => n,
                None => default_name(),
            }) + partmap_suffix(),
        ),
{
    proof {
        reveal_strlit("download.bin");
        reveal_strlit(".kdl.partmap");
    }
    let mut name = match file_name_of(output) {
        Some(n) => n,
        None => String::from_str("download.bin"),
    };
    let ghost base = name@;
    assert(base =~= (match path_file_name(output@) {
        Some(n) => n,
        None => default_name(),
    }));
    name.append(".kdl.partmap");
    assert(name@ =~= base + partmap_suffix());
    with_file_name(output, name.as_str())
}

/// The file name a URL's path gives: its last non-empty segment, unless
/// that is blank; `download.bin` otherwise.
pub open spec fn url_file_name(segments: Option<Seq<Seq<char>>>) -> Seq<char> {
    match segments {
        None => default_name(),
        Some(segs) => if exists|i: int| 0 <= i < segs.len() && (#[trigger] segs[i]).len() > 0 {
            let i = choose|i: int|
                0 <= i < segs.len() && (#[trigger] segs[i]).len() > 0 && forall|j: int|
                    i < j < segs.len() ==> (#[trigger] segs[j]).len() == 0;
            if trimmed(segs[i]).len() > 0 {
                segs[i]
            } else {
                default_name()
            }
        } else {
            default_name()
        },
    }
}

pub open spec fn views(v: Seq<String>) -> Seq<Seq<char>> {
    v.map_values(|s: String| s@)
}

/// The file name for the URL whose path segments are `segments`.
pub fn filename_from_segments(segments: Option<Vec<String>>) -> (r: String)
    ensures
        r@ == url_file_name(
            match segments {
                Some(v) => Some(views(v@)),
                None => None,
            },
        ),
{
    proof {
        reveal_strlit("download.bin");
    }
    let v = match segments {
        Some(v) => v,
        None => return String::from_str("download.bin"),
    };
    let ghost segs = views(v@);
    let mut i: usize = v.len();
    while i > 0 && v[i - 1].as_str().unicode_len() == 0
        invariant
            i <= v@.len(),
            segs == views(v@),
            forall|j: int| i <= j < v@.len() ==> (#[trigger] segs[j]).len() == 0,
        decreases i,
    {
        i = i - 1;
    }
    if i == 0 {
        assert(!exists|j: int| 0 <= j < segs.len() && (#[trigger] segs[j]).len() > 0);
        return String::from_str("download.bin");
    }
    let last = v[i - 1].as_str();
    proof {
        let k = (i - 1) as int;
        assert(segs[k] == last@);
        assert(segs[k].len() > 0);
        let c = choose|c: int|
            0 <= c < segs.len() && (#[trigger] segs[c]).len() > 0 && forall|j: int|
                c < j < segs.len() ==> (#[trigger] segs[j]).len() == 0;
        assert(c == k) by {
            if c < k {
                assert(segs[k].len() == 0);
            }
            if c > k {
                assert(segs[c].len() == 0);
            }
        }
    }
    if trim(last).unicode_len() > 0 {
        String::from_str(last)
    } else {
        String::from_str("download.bin")
    }
}

} // verus!
