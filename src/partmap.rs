//! Segment geometry and per-segment progress: the partition of a file into
//! byte ranges and the clamped progress records.
use vstd::prelude::*;
use crate::partlog::{encode_update, push_word};

verus! {

/// Smallest chunk that the partition hands out: 4 MiB.
pub const MIN_CHUNK_SIZE: u64 = 4194304;

/// A closed byte range `[start, end]` of the destination file, with the
/// number of bytes of it already fetched.
#[derive(Debug, Clone, Copy, PartialEq, Eq, Structural)]
pub struct PartSegment {
    pub id: usize,
    pub start: u64,
    pub end: u64,
    pub downloaded: u64,
}

impl PartSegment {
    /// Number of bytes the segment spans (`end - start + 1`, never below 1).
    pub open spec fn spec_len(&self) -> int {
        if self.end >= self.start {
            self.end - self.start + 1
        } else {
            1
        }
    }

    /// Bytes still to fetch.
    pub open spec fn spec_remaining(&self) -> int {
        if self.downloaded >= self.spec_len() {
            0
        } else {
            self.spec_len() - self.downloaded
        }
    }

    pub fn len(&self) -> (r: u64)
        requires
            self.spec_len() <= u64::MAX,
        ensures
            r == self.spec_len(),
    {
        self.end.saturating_sub(self.start) + 1
    }

    pub fn remaining(&self) -> (r: u64)
        requires
            self.spec_len() <= u64::MAX,
        ensures
            r == self.spec_remaining(),
    {
        self.len().saturating_sub(self.downloaded)
    }
}

/// The effective chunk of a partition: the requested one, at least 4 MiB.
pub open spec fn effective_chunk(chunk_size: u64) -> u64 {
    if chunk_size < MIN_CHUNK_SIZE {
        MIN_CHUNK_SIZE
    } else {
        chunk_size
    }
}

/// Number of segments that cut `file_size` bytes into chunks of `chunk`.
pub open spec fn segment_count(file_size: nat, chunk: nat) -> nat
    recommends
        chunk > 0,
{
    if file_size == 0 {
        1
    } else {
        ((file_size + chunk - 1) / (chunk as int)) as nat
    }
}

/// The `i`-th segment of the partition: `[i*chunk, min((i+1)*chunk, file_size) - 1]`.
pub open spec fn nth_segment(file_size: nat, chunk: nat, i: int) -> PartSegment {
    let start = i * chunk;
    let end = if (i + 1) * chunk <= file_size { (i + 1) * chunk - 1 } else { file_size - 1 };
    PartSegment { id: i as usize, start: start as u64, end: end as u64, downloaded: 0 }
}

/// The fresh partition of `file_size` bytes into chunks of `chunk` bytes.
/// An empty file gets the single segment `[0, 0]`.
pub open spec fn partition(file_size: nat, chunk: nat) -> Seq<PartSegment> {
    if file_size == 0 {
        seq![PartSegment { id: 0, start: 0, end: 0, downloaded: 0 }]
    } else {
        Seq::new(segment_count(file_size, chunk), |i: int| nth_segment(file_size, chunk, i))
    }
}

/// Segments that tile `[0, file_size)` in start order, with ids `0..len`
/// and a progress count within each segment's length.
pub open spec fn tiles(segs: Seq<PartSegment>, file_size: nat) -> bool {
    &&& segs.len() > 0
    &&& segs[0].start == 0
    &&& forall|i: int| 0 <= i < segs.len() ==> (#[trigger] segs[i]).id == i
    &&& forall|i: int| 0 <= i < segs.len() ==> (#[trigger] segs[i]).start <= segs[i].end
    &&& forall|i: int| 0 <= i < segs.len() ==> (#[trigger] segs[i]).downloaded <= segs[i].spec_len()
    &&& forall|i: int| 0 <= i < segs.len() - 1 ==> (#[trigger] segs[i + 1]).start == segs[i].end + 1
    &&& if file_size == 0 {
        segs.len() == 1 && segs[0].end == 0
    } else {
        segs.last().end == file_size - 1
    }
}

/// What a part map holds, as values.
pub ghost struct PartMapView {
    pub file_size: u64,
    pub chunk_size: u64,
    pub segments: Seq<PartSegment>,
}

/// Sets the progress of segment `id` to `downloaded`, clamped to the
/// segment's length; an unknown id changes nothing.
pub open spec fn apply_update(segs: Seq<PartSegment>, id: int, downloaded: int) -> Seq<PartSegment> {
    if 0 <= id < segs.len() {
        segs.update(
            id,
            PartSegment {
                downloaded: (if downloaded <= segs[id].spec_len() {
                    downloaded
                } else {
                    segs[id].spec_len()
                }) as u64,
                ..segs[id]
            },
        )
    } else {
        segs
    }
}

pub proof fn lemma_end_mono(segs: Seq<PartSegment>, fs: nat, i: int, j: int)
    requires
        tiles(segs, fs),
        0 <= i <= j < segs.len(),
    ensures
        segs[i].end <= segs[j].end,
    decreases j - i,
{
    if i < j {
        lemma_end_mono(segs, fs, i + 1, j);
        assert(segs[i + 1].start == segs[i].end + 1);
        assert(segs[i + 1].start <= segs[i + 1].end);
    }
}

/// Every segment of a tiling lies inside the file, so its length fits in a `u64`.
pub proof fn lemma_tiles_in_file(segs: Seq<PartSegment>, fs: nat, i: int)
    requires
        tiles(segs, fs),
        fs <= u64::MAX,
        0 <= i < segs.len(),
    ensures
        segs[i].spec_len() <= u64::MAX,
        fs > 0 ==> segs[i].end < fs,
        fs == 0 ==> segs[i].end == 0,
{
    lemma_end_mono(segs, fs, i, segs.len() - 1);
}

/// Recording progress keeps a tiling a tiling.
pub proof fn lemma_apply_update_tiles(segs: Seq<PartSegment>, fs: nat, id: int, downloaded: int)
    requires
        tiles(segs, fs),
        downloaded >= 0,
    ensures
        tiles(apply_update(segs, id, downloaded), fs),
{
    let r = apply_update(segs, id, downloaded);
    if 0 <= id < segs.len() {
        assert forall|i: int| 0 <= i < segs.len() - 1 implies (#[trigger] r[i + 1]).start
            == r[i].end + 1 by {
            assert(segs[i + 1].start == segs[i].end + 1);
        }
        assert forall|i: int| 0 <= i < segs.len() implies (#[trigger] r[i]).downloaded
            <= r[i].spec_len() && r[i].id == i && r[i].start <= r[i].end by {
            if i != id {
                assert(r[i] == segs[i]);
            }
        }
    }
}

/// Why a progress record was refused.
#[derive(Debug, Clone, Copy, PartialEq, Eq, Structural)]
pub enum PartMapError {
    /// No segment has this id.
    UnknownSegment,
}

/// Segment geometry and per-segment progress of one download.
#[derive(Debug, Clone, PartialEq, Eq)]
pub struct PartMap {
    pub file_size: u64,
    pub chunk_size: u64,
    pub segments: Vec<PartSegment>,
}

impl View for PartMap {
    type V = PartMapView;

    open spec fn view(&self) -> PartMapView {
        PartMapView { file_size: self.file_size, chunk_size: self.chunk_size, segments: self.segments@ }
    }
}

impl PartMap {
    /// The segments tile the file.
    pub open spec fn wf(&self) -> bool {
        tiles(self.segments@, self.file_size as nat)
    }

    /// Snapshot of the segment with this id.
    pub fn segment(&self, id: usize) -> (r: Option<PartSegment>)
        requires
            self.wf(),
        ensures
            r == (if id < self.segments@.len() {
                Some(self.segments@[id as int])
            } else {
                None::<PartSegment>
            }),
    {
        if id < self.segments.len() {
            Some(self.segments[id])
        } else {
            None
        }
    }

    /// Sets the progress of segment `id` to `downloaded`, clamped to the
    /// segment's length, and returns the update record to append to the log.
    pub fn record_progress(&mut self, id: usize, downloaded: u64) -> (r: Result<
        Vec<u8>,
        PartMapError,
    >)
        requires
            old(self).wf(),
        ensures
            final(self).wf(),
            final(self).file_size == old(self).file_size,
            final(self).chunk_size == old(self).chunk_size,
            match r {
                Ok(bytes) => {
                    &&& id < old(self).segments@.len()
                    &&& final(self).segments@ == apply_update(
                        old(self).segments@,
                        id as int,
                        downloaded as int,
                    )
                    &&& bytes@ == encode_update(id, final(self).segments@[id as int].downloaded)
                    &&& final(self).segments@[id as int].downloaded
                        <= final(self).segments@[id as int].spec_len()
                },
                Err(e) => {
                    &&& id >= old(self).segments@.len()
                    &&& e == PartMapError::UnknownSegment
                    &&& final(self).segments@ == old(self).segments@
                },
            },
    {
        if id >= self.segments.len() {
            return Err(PartMapError::UnknownSegment);
        }
        proof {
            lemma_tiles_in_file(self.segments@, self.file_size as nat, id as int);
            lemma_apply_update_tiles(self.segments@, self.file_size as nat, id as int, downloaded as int);
        }
        let seg = self.segments[id];
        let len = seg.len();
        let clamped = if downloaded <= len { downloaded } else { len };
        self.segments.set(id, PartSegment { downloaded: clamped, ..seg });
        assert(self.segments@ =~= apply_update(old(self).segments@, id as int, downloaded as int));
        let mut bytes: Vec<u8> = Vec::new();
        push_word(&mut bytes, id as u64);
        push_word(&mut bytes, clamped);
        assert(bytes@ =~= encode_update(id, clamped));
        Ok(bytes)
    }

    /// Splits `file_size` bytes into segments of `max(chunk_size, 4 MiB)` bytes,
    /// the last one cut at the end of the file, none of them downloaded.
    pub fn new(file_size: u64, chunk_size: u64) -> (r: PartMap)
        requires
            segment_count(file_size as nat, effective_chunk(chunk_size) as nat) <= usize::MAX,
        ensures
            r.file_size == file_size,
            r.chunk_size == effective_chunk(chunk_size),
            r.segments@ == partition(file_size as nat, effective_chunk(chunk_size) as nat),
            r.wf(),
    {
        let chunk = if chunk_size < MIN_CHUNK_SIZE { MIN_CHUNK_SIZE } else { chunk_size };
        let mut segments: Vec<PartSegment> = Vec::new();
        if file_size == 0 {
            segments.push(PartSegment { id: 0, start: 0, end: 0, downloaded: 0 });
            let r = PartMap { file_size, chunk_size: chunk, segments };
            assert(r.segments@ =~= partition(0, chunk as nat));
            return r;
        }
        let ghost fs = file_size as nat;
        let ghost c = chunk as nat;
        let mut start: u64 = 0;
        let mut id: usize = 0;
        while start < file_size
            invariant
                c == chunk,
                fs == file_size,
                0 < fs,
                0 < c,
                start as int == if id * c <= fs { id * c } else { fs as int },
                id > 0 ==> (id - 1) * c < fs,
                segment_count(fs, c) <= usize::MAX,
                segments@.len() == id,
                forall|i: int| 0 <= i < id ==> segments@[i] == nth_segment(fs, c, i),
            decreases file_size - start,
        {
            let end: u64 = if chunk - 1 >= file_size - 1 - start {
                file_size - 1
            } else {
                start + (chunk - 1)
            };
            proof {
                assert((id + 1) * c == id * c + c) by (nonlinear_arith);
                lemma_count_bounds(fs, c);
                if id + 1 > segment_count(fs, c) {
                    assert(id * c >= segment_count(fs, c) * c) by (nonlinear_arith)
                        requires id >= segment_count(fs, c), c > 0;
                }
            }
            assert(nth_segment(fs, c, id as int).end == end);
            segments.push(PartSegment { id, start, end, downloaded: 0 });
            if end == file_size - 1 {
                start = file_size;
            } else {
                start = end + 1;
            }
            id = id + 1;
        }
        proof {
            let x = fs + c - 1;
            let r = x - id * c;
            assert(id > 0);
            assert((id - 1) * c == id * c - c) by (nonlinear_arith);
            assert(x == id * c + r);
            vstd::arithmetic::div_mod::lemma_fundamental_div_mod_converse(x, c as int, id as int, r);
        }
        let r = PartMap { file_size, chunk_size: chunk, segments };
        assert(r.segments@ =~= partition(fs, c));
        proof {
            lemma_partition_tiles(fs, c);
        }
        r
    }
}

proof fn lemma_count_bounds(file_size: nat, chunk: nat)
    requires
        chunk > 0,
        file_size > 0,
    ensures
        segment_count(file_size, chunk) * chunk >= file_size,
        (segment_count(file_size, chunk) - 1) * chunk < file_size,
        segment_count(file_size, chunk) >= 1,
{
    let n = segment_count(file_size, chunk);
    let x = file_size + chunk - 1;
    vstd::arithmetic::div_mod::lemma_fundamental_div_mod(x as int, chunk as int);
    vstd::arithmetic::div_mod::lemma_mod_pos_bound(x as int, chunk as int);
    assert(chunk * n <= x < chunk * n + chunk);
    assert(n * chunk == chunk * n) by (nonlinear_arith);
    assert((n - 1) * chunk == n * chunk - chunk) by (nonlinear_arith);
    assert(n >= 1) by (nonlinear_arith)
        requires n * chunk >= file_size, file_size > 0, chunk > 0;
}

/// For any file size and positive chunk, the fresh partition's segments are
/// contiguous and non-overlapping, cover `[0, file_size)` and carry the ids
/// `0..n` in start order.
pub proof fn lemma_partition_tiles(file_size: nat, chunk: nat)
    requires
        chunk > 0,
        file_size <= u64::MAX,
        segment_count(file_size, chunk) <= usize::MAX,
    ensures
        tiles(partition(file_size, chunk), file_size),
{
    if file_size > 0 {
        let segs = partition(file_size, chunk);
        let n = segment_count(file_size, chunk);
        lemma_count_bounds(file_size, chunk);
        assert forall|i: int| 0 <= i < n implies #[trigger] segs[i].start <= segs[i].end
            && segs[i].start == i * chunk && i * chunk < file_size by {
            assert(segs[i] == nth_segment(file_size, chunk, i));
            assert(i * chunk >= 0) by (nonlinear_arith)
                requires i >= 0, chunk > 0;
            assert(i * chunk <= (n - 1) * chunk) by (nonlinear_arith)
                requires i <= n - 1, chunk > 0;
            assert((i + 1) * chunk == i * chunk + chunk) by (nonlinear_arith);
        }
        assert forall|i: int| 0 <= i < n - 1 implies (#[trigger] segs[i + 1]).start == segs[i].end + 1 by {
            assert((i + 1) * chunk <= (n - 1) * chunk) by (nonlinear_arith)
                requires i + 1 <= n - 1, chunk > 0;
            assert((i + 1) * chunk < file_size);
            assert((i + 1) * chunk >= chunk) by (nonlinear_arith)
                requires i >= 0, chunk > 0;
            assert(segs[i] == nth_segment(file_size, chunk, i));
            assert(segs[i + 1] == nth_segment(file_size, chunk, i + 1));
            assert(segs[i].end == (i + 1) * chunk - 1);
            assert(segs[i + 1].start == (i + 1) * chunk);
        }
        assert forall|i: int| 0 <= i < n implies (#[trigger] segs[i]).id == i
            && segs[i].downloaded <= segs[i].spec_len() by {
            assert(segs[i] == nth_segment(file_size, chunk, i));
        }
        assert(segs[0] == nth_segment(file_size, chunk, 0));
        assert(segs[n - 1] == nth_segment(file_size, chunk, n - 1));
        assert(n * chunk >= file_size);
        assert(segs.last().end == file_size - 1);
    }
}


} // verus!
