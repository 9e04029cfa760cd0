//! Decisions of the download manager around the network and disk work:
//! chunk size, preflight, preallocation, what to resume, how to stream.
use vstd::prelude::*;
use crate::partmap::{MIN_CHUNK_SIZE, PartMap, PartSegment, lemma_end_mono, lemma_tiles_in_file, tiles};
use crate::scheduler::SegmentTask;

verus! {

/// `⌈total / max(initial_segments, 1)⌉`, at least 4 MiB, at most `total`;
/// 1 for an empty file.
pub open spec fn chunk_size_for(total: nat, initial_segments: nat) -> nat {
    if total == 0 {
        1
    } else {
        let s = if initial_segments == 0 { 1 } else { initial_segments };
        let base = (total + s - 1) / (s as int);
        let c = if base < MIN_CHUNK_SIZE { MIN_CHUNK_SIZE as int } else { base };
        (if c > total { total as int } else { c }) as nat
    }
}

pub fn compute_chunk_size(total: u64, initial_segments: usize) -> (r: u64)
    ensures
        r == chunk_size_for(total as nat, initial_segments as nat),
{
    if total == 0 {
        return 1;
    }
    let segments: u64 = if initial_segments == 0 { 1 } else { initial_segments as u64 };
    proof {
        let s = segments as int;
        let t = total as int;
        let q = t / s;
        let m = t % s;
        vstd::arithmetic::div_mod::lemma_fundamental_div_mod(t, s);
        vstd::arithmetic::div_mod::lemma_mod_pos_bound(t, s);
        assert(q * s == s * q) by (nonlinear_arith);
        assert((q + 1) * s == s * q + s) by (nonlinear_arith);
        if s >= 2 {
            assert(q * 2 <= q * s) by (nonlinear_arith)
                requires s >= 2, q >= 0;
        }
        if m == 0 {
            vstd::arithmetic::div_mod::lemma_fundamental_div_mod_converse(t + s - 1, s, q, s - 1);
        } else {
            vstd::arithmetic::div_mod::lemma_fundamental_div_mod_converse(t + s - 1, s, q + 1, m - 1);
        }
    }
    let base = total / segments + if total % segments == 0 { 0 } else { 1 };
    let c = if base < MIN_CHUNK_SIZE { MIN_CHUNK_SIZE } else { base };
    if c > total { total } else { c }
}

/// Why a download does not start.
#[derive(Debug, Clone, Copy, PartialEq, Eq, Structural)]
pub enum PreflightError {
    /// The output file exists and resuming was not asked for.
    OutputExists,
}

/// An existing output file is an error unless the run resumes.
pub fn preflight(output_exists: bool, resume: bool) -> (r: Result<(), PreflightError>)
    ensures
        r == (if output_exists && !resume {
            Err::<(), PreflightError>(PreflightError::OutputExists)
        } else {
            Ok::<(), PreflightError>(())
        }),
{
    if output_exists && !resume {
        Err(PreflightError::OutputExists)
    } else {
        Ok(())
    }
}

/// A fresh file, or a resumed one shorter than the download, is preallocated.
pub fn needs_preallocation(resume: bool, existing_len: u64, size: u64) -> (r: bool)
    ensures
        r == (!resume || existing_len < size),
{
    !resume || existing_len < size
}

/// `min(initial_segments, max_parallelism)`, at least 1.
pub fn initial_parallelism(initial_segments: usize, max_parallelism: usize) -> (r: usize)
    ensures
        r == (if initial_segments <= max_parallelism {
            if initial_segments == 0 { 1 } else { initial_segments }
        } else {
            if max_parallelism == 0 { 1 } else { max_parallelism }
        }),
{
    let m = if initial_segments <= max_parallelism { initial_segments } else { max_parallelism };
    if m == 0 { 1 } else { m }
}

/// Bytes already present: each segment's progress, within its length.
pub open spec fn completed(segs: Seq<PartSegment>) -> nat
    decreases segs.len(),
{
    if segs.len() == 0 {
        0
    } else {
        let s = segs.last();
        completed(segs.drop_last()) + (if s.downloaded <= s.spec_len() {
            s.downloaded as int
        } else {
            s.spec_len()
        }) as nat
    }
}

/// Bytes of the file already present, which seed the progress counter.
pub fn completed_bytes(m: &PartMap) -> (r: u64)
    requires
        m.wf(),
    ensures
        r == completed(m.segments@),
{
    let segs = &m.segments;
    let n = segs.len();
    let mut total: u64 = 0;
    let mut i: usize = 0;
    while i < n
        invariant
            n == segs@.len(),
            i <= n,
            tiles(segs@, m.file_size as nat),
            total == completed(segs@.take(i as int)),
            i > 0 ==> total <= segs@[i - 1].end + 1,
        decreases n - i,
    {
        proof {
            lemma_tiles_in_file(segs@, m.file_size as nat, i as int);
            assert(segs@.take(i + 1).drop_last() =~= segs@.take(i as int));
            if i > 0 {
                let j = i - 1;
                assert(segs@[j + 1].start == segs@[j].end + 1);
            }
        }
        let s = segs[i];
        let len = s.len();
        let d = if s.downloaded <= len { s.downloaded } else { len };
        total = total + d;
        i = i + 1;
    }
    assert(segs@.take(n as int) =~= segs@);
    total
}

pub open spec fn task_of(s: PartSegment) -> SegmentTask {
    SegmentTask { id: s.id, start: s.start, end: s.end, downloaded: s.downloaded }
}

/// The segments with bytes still to fetch, in order, as tasks.
pub open spec fn pending_of(segs: Seq<PartSegment>) -> Seq<SegmentTask>
    decreases segs.len(),
{
    if segs.len() == 0 {
        seq![]
    } else {
        pending_of(segs.drop_last()) + if segs.last().spec_remaining() > 0 {
            seq![task_of(segs.last())]
        } else {
            seq![]
        }
    }
}

/// The tasks of the segments with bytes still to fetch, sorted by start.
pub fn pending_tasks(m: &PartMap) -> (r: Vec<SegmentTask>)
    requires
        m.wf(),
    ensures
        r@ == pending_of(m.segments@),
        forall|i: int, j: int| 0 <= i < j < r@.len() ==> r@[i].start < r@[j].start,
{
    let segs = &m.segments;
    let n = segs.len();
    let mut out: Vec<SegmentTask> = Vec::new();
    let mut i: usize = 0;
    while i < n
        invariant
            n == segs@.len(),
            i <= n,
            tiles(segs@, m.file_size as nat),
            out@ == pending_of(segs@.take(i as int)),
            forall|a: int, b: int| 0 <= a < b < out@.len() ==> out@[a].start < out@[b].start,
            i < n ==> forall|a: int| 0 <= a < out@.len() ==> out@[a].start < segs@[i as int].start,
        decreases n - i,
    {
        proof {
            lemma_tiles_in_file(segs@, m.file_size as nat, i as int);
            assert(segs@.take(i + 1).drop_last() =~= segs@.take(i as int));
            if i + 1 < n {
                assert(segs@[i + 1].start == segs@[i as int].end + 1);
            }
        }
        let s = segs[i];
        if s.remaining() > 0 {
            out.push(SegmentTask { id: s.id, start: s.start, end: s.end, downloaded: s.downloaded });
        }
        assert(out@ =~= pending_of(segs@.take(i + 1)));
        i = i + 1;
    }
    assert(segs@.take(n as int) =~= segs@);
    out
}

/// Byte `x` lies in segment `s`.
pub open spec fn holds_byte(s: PartSegment, x: int) -> bool {
    s.start <= x <= s.end
}

proof fn lemma_some_segment_holds(segs: Seq<PartSegment>, fs: nat, x: int)
    requires
        tiles(segs, fs),
        fs > 0,
        0 <= x < fs,
    ensures
        exists|i: int| 0 <= i < segs.len() && #[trigger] holds_byte(segs[i], x),
    decreases segs.len(),
{
    let n = segs.len();
    if x >= segs[n - 1].start {
        assert(holds_byte(segs[n - 1], x));
    } else {
        let init = segs.drop_last();
        assert(n >= 2);
        let j = n - 2;
        assert(segs[j + 1].start == segs[j].end + 1);
        let fs2 = (segs[n - 2].end + 1) as nat;
        assert(tiles(init, fs2)) by {
            assert forall|i: int| 0 <= i < init.len() - 1 implies (#[trigger] init[i + 1]).start
                == init[i].end + 1 by {
                assert(segs[i + 1].start == segs[i].end + 1);
            }
        }
        lemma_some_segment_holds(init, fs2, x);
        let i = choose|i: int| 0 <= i < init.len() && #[trigger] holds_byte(init[i], x);
        assert(holds_byte(segs[i], x));
    }
}

proof fn lemma_pending_has(segs: Seq<PartSegment>, i: int)
    requires
        0 <= i < segs.len(),
        segs[i].spec_remaining() > 0,
    ensures
        exists|k: int| 0 <= k < pending_of(segs).len() && #[trigger] pending_of(segs)[k] == task_of(
            segs[i],
        ),
    decreases segs.len(),
{
    let n = segs.len();
    let init = segs.drop_last();
    if i == n - 1 {
        let k = pending_of(init).len() as int;
        assert(pending_of(segs)[k] == task_of(segs[i]));
    } else {
        lemma_pending_has(init, i);
        let k = choose|k: int| 0 <= k < pending_of(init).len() && #[trigger] pending_of(init)[k]
            == task_of(init[i]);
        assert(pending_of(segs)[k] == task_of(segs[i]));
    }
}

/// Resuming misses nothing: every byte of the file lies in exactly one
/// segment, and unless that segment's recorded progress already covers it,
/// the segment's task is among the pending tasks.
pub proof fn lemma_resume_covers_missing(segs: Seq<PartSegment>, fs: nat, x: int)
    requires
        tiles(segs, fs),
        fs > 0,
        0 <= x < fs,
    ensures
        exists|i: int|
            0 <= i < segs.len() && #[trigger] holds_byte(segs[i], x) && (forall|j: int|
                0 <= j < segs.len() && #[trigger] holds_byte(segs[j], x) ==> j == i) && (x
                >= segs[i].start + segs[i].downloaded ==> exists|k: int|
                0 <= k < pending_of(segs).len() && #[trigger] pending_of(segs)[k] == task_of(
                    segs[i],
                )),
{
    lemma_some_segment_holds(segs, fs, x);
    let i = choose|i: int| 0 <= i < segs.len() && #[trigger] holds_byte(segs[i], x);
    assert forall|j: int| 0 <= j < segs.len() && #[trigger] holds_byte(segs[j], x) implies j
        == i by {
        if j < i {
            lemma_end_mono(segs, fs, j, i - 1);
            assert(segs[(i - 1) + 1].start == segs[i - 1].end + 1);
        } else if j > i {
            lemma_end_mono(segs, fs, i, j - 1);
            assert(segs[(j - 1) + 1].start == segs[j - 1].end + 1);
        }
    }
    if x >= segs[i].start + segs[i].downloaded {
        lemma_pending_has(segs, i);
    }
}

/// How the single-connection path starts.
#[derive(Debug, Clone, Copy, PartialEq, Eq, Structural)]
pub struct StreamingPlan {
    /// Offset of the first byte to write.
    pub start_offset: u64,
    /// Whether to cut the file to zero first.
    pub truncate: bool,
    /// The start of an open-ended `Range` request, if one is made.
    pub range_from: Option<u64>,
}

/// A resumed run against a server with ranges continues at the file's
/// current length (asking for `bytes=LEN-` when that is not zero); any
/// other run truncates and downloads from zero.
pub fn streaming_plan(resume: bool, supports_ranges: bool, existing_len: u64) -> (r: StreamingPlan)
    ensures
        resume && supports_ranges ==> r == (StreamingPlan {
            start_offset: existing_len,
            truncate: false,
            range_from: if existing_len > 0 { Some(existing_len) } else { None },
        }),
        !(resume && supports_ranges) ==> r == (StreamingPlan {
            start_offset: 0,
            truncate: true,
            range_from: None,
        }),
{
    if resume && supports_ranges {
        StreamingPlan {
            start_offset: existing_len,
            truncate: false,
            range_from: if existing_len > 0 { Some(existing_len) } else { None },
        }
    } else {
        StreamingPlan { start_offset: 0, truncate: true, range_from: None }
    }
}

} // verus!
