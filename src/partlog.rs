//! The part-map log: a baseline record holding the whole map, followed by
//! update records `(id, downloaded)`. Every integer is eight bytes,
//! least significant first; the segment list carries its length in front.
use vstd::prelude::*;
use crate::partmap::{
    PartMap, PartMapView, PartSegment, apply_update, effective_chunk, partition, segment_count, tiles,
};

verus! {

/// `256^n`.
pub open spec fn pow256(n: nat) -> nat
    decreases n,
{
    if n == 0 {
        1
    } else {
        256 * pow256((n - 1) as nat)
    }
}

/// The `n` low bytes of `v`, least significant first.
pub open spec fn le_bytes(v: nat, n: nat) -> Seq<u8>
    decreases n,
{
    if n == 0 {
        seq![]
    } else {
        seq![(v % 256) as u8] + le_bytes(v / 256, (n - 1) as nat)
    }
}

/// The number whose bytes, least significant first, are `b`.
pub open spec fn le_value(b: Seq<u8>) -> nat
    decreases b.len(),
{
    if b.len() == 0 {
        0
    } else {
        b[0] as nat + 256 * le_value(b.subrange(1, b.len() as int))
    }
}

/// The eight-byte form of `v`.
pub open spec fn word(v: u64) -> Seq<u8> {
    le_bytes(v as nat, 8)
}

/// The integer stored in the eight bytes at `off`.
pub open spec fn read_word(b: Seq<u8>, off: int) -> nat {
    le_value(b.subrange(off, off + 8))
}

pub open spec fn encode_segment(s: PartSegment) -> Seq<u8> {
    word(s.id as u64) + word(s.start) + word(s.end) + word(s.downloaded)
}

pub open spec fn encode_segments(segs: Seq<PartSegment>) -> Seq<u8>
    decreases segs.len(),
{
    if segs.len() == 0 {
        seq![]
    } else {
        encode_segments(segs.drop_last()) + encode_segment(segs.last())
    }
}

/// The baseline record of a part map.
pub open spec fn encode_baseline(m: PartMapView) -> Seq<u8> {
    word(m.file_size) + word(m.chunk_size) + word(m.segments.len() as u64) + encode_segments(
        m.segments,
    )
}

/// The update record that sets segment `id` to `downloaded` bytes.
pub open spec fn encode_update(id: usize, downloaded: u64) -> Seq<u8> {
    word(id as u64) + word(downloaded)
}

/// Update records, one after the other.
pub open spec fn encode_updates(us: Seq<(usize, u64)>) -> Seq<u8>
    decreases us.len(),
{
    if us.len() == 0 {
        seq![]
    } else {
        encode_update(us[0].0, us[0].1) + encode_updates(us.drop_first())
    }
}

/// Applies updates in order, later ones overriding earlier ones.
pub open spec fn apply_all(segs: Seq<PartSegment>, us: Seq<(usize, u64)>) -> Seq<PartSegment>
    decreases us.len(),
{
    if us.len() == 0 {
        segs
    } else {
        apply_all(apply_update(segs, us[0].0 as int, us[0].1 as int), us.drop_first())
    }
}

pub open spec fn decode_segment(b: Seq<u8>, off: int) -> PartSegment {
    PartSegment {
        id: read_word(b, off) as usize,
        start: read_word(b, off + 8) as u64,
        end: read_word(b, off + 16) as u64,
        downloaded: read_word(b, off + 24) as u64,
    }
}

/// Replays the update records in `rest`, stopping before a trailing record
/// shorter than sixteen bytes.
pub open spec fn replay(segs: Seq<PartSegment>, rest: Seq<u8>) -> Seq<PartSegment>
    decreases rest.len(),
{
    if rest.len() < 16 {
        segs
    } else {
        replay(
            apply_update(segs, read_word(rest, 0) as int, read_word(rest, 8) as int),
            rest.subrange(16, rest.len() as int),
        )
    }
}

/// The segment count announced by a baseline, if its header is complete.
pub open spec fn baseline_count(b: Seq<u8>) -> int {
    read_word(b, 16) as int
}

/// The baseline at the front of `b`, if one is there whole.
pub open spec fn decode_baseline(b: Seq<u8>) -> Option<PartMapView> {
    if b.len() < 24 || b.len() < 24 + 32 * baseline_count(b) {
        None
    } else {
        Some(
            PartMapView {
                file_size: read_word(b, 0) as u64,
                chunk_size: read_word(b, 8) as u64,
                segments: Seq::new(
                    baseline_count(b) as nat,
                    |i: int| decode_segment(b, 24 + 32 * i),
                ),
            },
        )
    }
}

/// The part map that a log holds: its baseline, if whole and tiling its file,
/// with the update records after it replayed.
pub open spec fn decode_log(b: Seq<u8>) -> Option<PartMapView> {
    match decode_baseline(b) {
        None => None,
        Some(m) => if tiles(m.segments, m.file_size as nat) {
            Some(
                PartMapView {
                    segments: replay(
                        m.segments,
                        b.subrange((24 + 32 * m.segments.len()) as int, b.len() as int),
                    ),
                    ..m
                },
            )
        } else {
            None
        },
    }
}

/// Appends the eight-byte form of `v`.
pub fn push_word(out: &mut Vec<u8>, v: u64)
    ensures
        final(out)@ == old(out)@ + word(v),
{
    let ghost pre = out@;
    let mut x: u64 = v;
    let mut i: usize = 0;
    while i < 8
        invariant
            i <= 8,
            out@ + le_bytes(x as nat, (8 - i) as nat) == pre + word(v),
        decreases 8 - i,
    {
        let ghost before = out@;
        assert(le_bytes(x as nat, (8 - i) as nat) == seq![(x as nat % 256) as u8] + le_bytes(
            x as nat / 256,
            (8 - i - 1) as nat,
        ));
        out.push((x % 256) as u8);
        assert(out@ + le_bytes((x / 256) as nat, (8 - i - 1) as nat) =~= before + le_bytes(
            x as nat,
            (8 - i) as nat,
        ));
        x = x / 256;
        i = i + 1;
    }
    assert(le_bytes(x as nat, 0) =~= Seq::<u8>::empty());
    assert(out@ =~= pre + word(v));
}

/// Reads the eight-byte integer at `off`.
pub fn read_word_at(b: &[u8], off: usize) -> (r: u64)
    requires
        off + 8 <= b@.len(),
    ensures
        r as nat == read_word(b@, off as int),
{
    let n = b.len();
    let mut acc: u64 = 0;
    let mut k: usize = 8;
    proof {
        lemma_pow256_8();
        assert(b@.subrange(off + 8, off + 8) =~= Seq::<u8>::empty());
    }
    while k > 0
        invariant
            k <= 8,
            off + 8 <= b@.len(),
            n == b@.len(),
            acc as nat == le_value(b@.subrange(off + k, off + 8)),
            acc < pow256((8 - k) as nat),
            pow256(8) == 0x1_0000_0000_0000_0000,
        decreases k,
    {
        let ghost sub = b@.subrange(off + k - 1, off + 8);
        assert(sub.subrange(1, sub.len() as int) =~= b@.subrange(off + k, off + 8));
        proof {
            lemma_pow256_mono((9 - k) as nat, 8);
        }
        acc = acc * 256 + b[off + k - 1] as u64;
        k = k - 1;
    }
    acc
}

/// The baseline record of `m`.
pub fn baseline_record(m: &PartMap) -> (r: Vec<u8>)
    ensures
        r@ == encode_baseline(m@),
{
    let mut out: Vec<u8> = Vec::new();
    push_word(&mut out, m.file_size);
    push_word(&mut out, m.chunk_size);
    push_word(&mut out, m.segments.len() as u64);
    let ghost header = out@;
    let mut i: usize = 0;
    while i < m.segments.len()
        invariant
            i <= m.segments@.len(),
            out@ == header + encode_segments(m.segments@.take(i as int)),
        decreases m.segments@.len() - i,
    {
        let s = m.segments[i];
        push_word(&mut out, s.id as u64);
        push_word(&mut out, s.start);
        push_word(&mut out, s.end);
        push_word(&mut out, s.downloaded);
        assert(m.segments@.take(i + 1).drop_last() =~= m.segments@.take(i as int));
        assert(out@ =~= header + encode_segments(m.segments@.take(i + 1)));
        i = i + 1;
    }
    assert(m.segments@.take(i as int) =~= m.segments@);
    out
}

/// Whether `segs` tile `[0, file_size)`.
pub fn check_tiles(segs: &Vec<PartSegment>, file_size: u64) -> (r: bool)
    ensures
        r == tiles(segs@, file_size as nat),
{
    let n = segs.len();
    if n == 0 || segs[0].start != 0 {
        return false;
    }
    let mut i: usize = 0;
    while i < n
        invariant
            n == segs@.len(),
            i <= n,
            forall|j: int| 0 <= j < i ==> (#[trigger] segs@[j]).id == j,
            forall|j: int| 0 <= j < i ==> (#[trigger] segs@[j]).start <= segs@[j].end,
            forall|j: int| 0 <= j < i ==> (#[trigger] segs@[j]).downloaded <= segs@[j].spec_len(),
            forall|j: int| 0 <= j < i - 1 ==> (#[trigger] segs@[j + 1]).start == segs@[j].end + 1,
            i > 0 ==> forall|j: int| 0 <= j < i ==> (#[trigger] segs@[j]).start <= segs@[i - 1].end,
        decreases n - i,
    {
        let s = segs[i];
        if s.id != i || s.start > s.end {
            return false;
        }
        if s.downloaded > 0 && s.downloaded - 1 > s.end - s.start {
            assert(segs@[i as int].downloaded > segs@[i as int].spec_len());
            return false;
        }
        if i > 0 {
            let prev_end = segs[i - 1].end;
            if prev_end == u64::MAX || s.start != prev_end + 1 {
                let ghost j = i - 1;
                assert(segs@[j + 1].start != segs@[j].end + 1);
                return false;
            }
        }
        i = i + 1;
    }
    let last = segs[n - 1];
    if file_size == 0 {
        n == 1 && last.end == 0
    } else {
        last.end == file_size - 1
    }
}

/// The part map that the log `b` holds (see `decode_log`).
pub fn decode_log_record(b: &[u8]) -> (r: Option<PartMap>)
    ensures
        r.is_some() == decode_log(b@).is_some(),
        r.is_some() ==> r.unwrap()@ == decode_log(b@).unwrap(),
        r.is_some() ==> r.unwrap().wf(),
{
    let len = b.len();
    if len < 24 {
        return None;
    }
    let count = read_word_at(b, 16);
    if count > ((len - 24) / 32) as u64 {
        return None;
    }
    let n = count as usize;
    let file_size = read_word_at(b, 0);
    let chunk_size = read_word_at(b, 8);
    let ghost spec_base = decode_baseline(b@).unwrap();
    assert(baseline_count(b@) == n);
    let mut segments: Vec<PartSegment> = Vec::new();
    let mut i: usize = 0;
    while i < n
        invariant
            n == baseline_count(b@),
            len == b@.len(),
            24 + 32 * n <= len,
            i <= n,
            segments@ == spec_base.segments.take(i as int),
            spec_base == decode_baseline(b@).unwrap(),
            decode_baseline(b@).is_some(),
        decreases n - i,
    {
        let off = 24 + 32 * i;
        let id = read_word_at(b, off);
        let start = read_word_at(b, off + 8);
        let end = read_word_at(b, off + 16);
        let downloaded = read_word_at(b, off + 24);
        segments.push(PartSegment { id: id as usize, start, end, downloaded });
        assert(segments@ =~= spec_base.segments.take(i + 1));
        i = i + 1;
    }
    assert(segments@ =~= spec_base.segments);
    if !check_tiles(&segments, file_size) {
        return None;
    }
    let mut m = PartMap { file_size, chunk_size, segments };
    let start = 24 + 32 * n;
    let mut off: usize = start;
    assert(b@.subrange(start as int, len as int) == b@.subrange(off as int, len as int));
    while len - off >= 16
        invariant
            start <= off <= len,
            len == b@.len(),
            m.wf(),
            m.file_size == file_size,
            m.chunk_size == chunk_size,
            replay(spec_base.segments, b@.subrange(start as int, len as int)) == replay(
                m.segments@,
                b@.subrange(off as int, len as int),
            ),
        decreases len - off,
    {
        let id = read_word_at(b, off);
        let downloaded = read_word_at(b, off + 8);
        let ghost rest = b@.subrange(off as int, len as int);
        assert(rest.subrange(0, 8) =~= b@.subrange(off as int, off + 8));
        assert(rest.subrange(8, 16) =~= b@.subrange(off + 8, off + 16));
        assert(rest.subrange(16, rest.len() as int) =~= b@.subrange(off + 16, len as int));
        if id < m.segments.len() as u64 {
            let _ = m.record_progress(id as usize, downloaded);
        } else {
            proof {
                assert(apply_update(m.segments@, id as int, downloaded as int) == m.segments@);
            }
        }
        off = off + 16;
    }
    Some(m)
}

/// A part map taken from an existing log, or a fresh one with the baseline
/// record that starts its new log.
#[derive(Debug)]
pub enum PartMapLoad {
    Resumed(PartMap),
    Fresh(PartMap, Vec<u8>),
}

impl PartMap {
    /// Resumes from the log `existing` when it holds a part map of a file of
    /// `file_size` bytes; otherwise partitions the file afresh (the log is
    /// then to be replaced by the returned baseline).
    pub fn load_or_create(existing: Option<&[u8]>, file_size: u64, chunk_size: u64) -> (r:
        PartMapLoad)
        requires
            segment_count(file_size as nat, effective_chunk(chunk_size) as nat) <= usize::MAX,
        ensures
            match r {
                PartMapLoad::Resumed(m) => {
                    &&& existing.is_some()
                    &&& decode_log(existing.unwrap()@) == Some(m@)
                    &&& m.file_size == file_size
                    &&& m.wf()
                },
                PartMapLoad::Fresh(m, baseline) => {
                    &&& !(existing.is_some() && decode_log(existing.unwrap()@).is_some()
                        && decode_log(existing.unwrap()@).unwrap().file_size == file_size)
                    &&& m.file_size == file_size
                    &&& m.chunk_size == effective_chunk(chunk_size)
                    &&& m.segments@ == partition(file_size as nat, effective_chunk(chunk_size) as nat)
                    &&& m.wf()
                    &&& baseline@ == encode_baseline(m@)
                },
            },
    {
        if let Some(bytes) = existing {
            if let Some(m) = decode_log_record(bytes) {
                if m.file_size == file_size {
                    return PartMapLoad::Resumed(m);
                }
            }
        }
        let m = PartMap::new(file_size, chunk_size);
        let baseline = baseline_record(&m);
        PartMapLoad::Fresh(m, baseline)
    }
}

proof fn lemma_pow256_mono(a: nat, b: nat)
    requires
        a <= b,
    ensures
        1 <= pow256(a) <= pow256(b),
    decreases b,
{
    if b > a {
        lemma_pow256_mono(a, (b - 1) as nat);
    } else if a > 0 {
        lemma_pow256_mono((a - 1) as nat, (a - 1) as nat);
    }
}

proof fn lemma_pow256_8()
    ensures
        pow256(8) == 0x1_0000_0000_0000_0000,
{
    reveal_with_fuel(pow256, 9);
}

proof fn lemma_le_bytes_len(v: nat, n: nat)
    ensures
        #[trigger] le_bytes(v, n).len() == n,
    decreases n,
{
    if n > 0 {
        lemma_le_bytes_len(v / 256, (n - 1) as nat);
    }
}

/// Reading back the bytes of a number that fits gives the number.
proof fn lemma_le_round_trip(v: nat, n: nat)
    requires
        v < pow256(n),
    ensures
        le_value(le_bytes(v, n)) == v,
    decreases n,
{
    if n == 0 {
    } else {
        let b = le_bytes(v, n);
        lemma_le_bytes_len(v, n);
        lemma_le_bytes_len(v / 256, (n - 1) as nat);
        assert(b.subrange(1, b.len() as int) =~= le_bytes(v / 256, (n - 1) as nat));
        assert(v / 256 < pow256((n - 1) as nat));
        lemma_le_round_trip(v / 256, (n - 1) as nat);
        assert(v == 256 * (v / 256) + v % 256);
    }
}

proof fn lemma_word(v: u64)
    ensures
        word(v).len() == 8,
        le_value(word(v)) == v,
{
    lemma_le_bytes_len(v as nat, 8);
    lemma_pow256_8();
    lemma_le_round_trip(v as nat, 8);
}

proof fn lemma_encode_segments_len(segs: Seq<PartSegment>)
    ensures
        encode_segments(segs).len() == 32 * segs.len(),
    decreases segs.len(),
{
    if segs.len() > 0 {
        lemma_encode_segments_len(segs.drop_last());
        let s = segs.last();
        lemma_word(s.id as u64);
        lemma_word(s.start);
        lemma_word(s.end);
        lemma_word(s.downloaded);
    }
}

proof fn lemma_encode_segments_at(segs: Seq<PartSegment>, i: int)
    requires
        0 <= i < segs.len(),
    ensures
        encode_segments(segs).subrange(32 * i, 32 * i + 32) == encode_segment(segs[i]),
    decreases segs.len(),
{
    lemma_encode_segments_len(segs);
    lemma_encode_segments_len(segs.drop_last());
    let s = segs.last();
    lemma_word(s.id as u64);
    lemma_word(s.start);
    lemma_word(s.end);
    lemma_word(s.downloaded);
    if i < segs.len() - 1 {
        lemma_encode_segments_at(segs.drop_last(), i);
        assert(encode_segments(segs).subrange(32 * i, 32 * i + 32) =~= encode_segments(
            segs.drop_last(),
        ).subrange(32 * i, 32 * i + 32));
    } else {
        assert(encode_segments(segs).subrange(32 * i, 32 * i + 32) =~= encode_segment(s));
    }
}

proof fn lemma_decode_segment(b: Seq<u8>, off: int, s: PartSegment)
    requires
        0 <= off,
        off + 32 <= b.len(),
        b.subrange(off, off + 32) == encode_segment(s),
    ensures
        decode_segment(b, off) == s,
{
    lemma_word(s.id as u64);
    lemma_word(s.start);
    lemma_word(s.end);
    lemma_word(s.downloaded);
    let e = encode_segment(s);
    let w = b.subrange(off, off + 32);
    assert(b.subrange(off, off + 8) =~= w.subrange(0, 8));
    assert(b.subrange(off + 8, off + 16) =~= w.subrange(8, 16));
    assert(b.subrange(off + 16, off + 24) =~= w.subrange(16, 24));
    assert(b.subrange(off + 24, off + 32) =~= w.subrange(24, 32));
    assert(e.subrange(0, 8) =~= word(s.id as u64));
    assert(e.subrange(8, 16) =~= word(s.start));
    assert(e.subrange(16, 24) =~= word(s.end));
    assert(e.subrange(24, 32) =~= word(s.downloaded));
}

/// Replaying encoded updates, with a trailing fragment shorter than one
/// record, applies exactly those updates.
proof fn lemma_replay_updates(segs: Seq<PartSegment>, us: Seq<(usize, u64)>, tail: Seq<u8>)
    requires
        tail.len() < 16,
    ensures
        replay(segs, encode_updates(us) + tail) == apply_all(segs, us),
    decreases us.len(),
{
    if us.len() == 0 {
        assert(encode_updates(us) + tail =~= tail);
    } else {
        let (id, d) = us[0];
        lemma_word(id as u64);
        lemma_word(d);
        let rest = encode_updates(us) + tail;
        let after = encode_updates(us.drop_first()) + tail;
        assert(rest =~= word(id as u64) + word(d) + after);
        assert(rest.subrange(0, 8) =~= word(id as u64));
        assert(rest.subrange(8, 16) =~= word(d));
        assert(rest.subrange(16, rest.len() as int) =~= after);
        lemma_replay_updates(apply_update(segs, id as int, d as int), us.drop_first(), tail);
    }
}

/// Reloading a log made of a baseline, the update records written after it
/// and a truncated trailing record gives back the part map with each update
/// applied in order; the truncated record is ignored.
pub proof fn lemma_log_round_trip(m: PartMapView, us: Seq<(usize, u64)>, tail: Seq<u8>)
    requires
        tiles(m.segments, m.file_size as nat),
        m.segments.len() <= usize::MAX,
        tail.len() < 16,
    ensures
        decode_log(encode_baseline(m) + encode_updates(us) + tail) == Some(
            PartMapView { segments: apply_all(m.segments, us), ..m },
        ),
{
    let n = m.segments.len();
    let enc = encode_segments(m.segments);
    let header = word(m.file_size) + word(m.chunk_size) + word(n as u64);
    let base = encode_baseline(m);
    let rest = encode_updates(us) + tail;
    let b = base + encode_updates(us) + tail;
    assert(b =~= base + rest);
    assert(base =~= header + enc);
    lemma_word(m.file_size);
    lemma_word(m.chunk_size);
    lemma_word(n as u64);
    lemma_encode_segments_len(m.segments);
    assert(header.subrange(0, 8) =~= word(m.file_size));
    assert(header.subrange(8, 16) =~= word(m.chunk_size));
    assert(header.subrange(16, 24) =~= word(n as u64));
    lemma_prefix_sub(base, rest, 0, 8);
    lemma_prefix_sub(base, rest, 8, 16);
    lemma_prefix_sub(base, rest, 16, 24);
    lemma_prefix_sub(header, enc, 0, 8);
    lemma_prefix_sub(header, enc, 8, 16);
    lemma_prefix_sub(header, enc, 16, 24);
    assert(baseline_count(b) == n);
    let hdr = decode_baseline(b).unwrap();
    assert forall|i: int| 0 <= i < n implies hdr.segments[i] == m.segments[i] by {
        lemma_encode_segments_at(m.segments, i);
        lemma_prefix_sub(base, rest, 24 + 32 * i, 24 + 32 * i + 32);
        lemma_suffix_sub(header, enc, 24 + 32 * i, 24 + 32 * i + 32);
        lemma_decode_segment(b, 24 + 32 * i, m.segments[i]);
    }
    assert(hdr.segments =~= m.segments);
    lemma_suffix_sub(base, rest, base.len() as int, b.len() as int);
    assert(rest.subrange(0, rest.len() as int) =~= rest);
    lemma_replay_updates(m.segments, us, tail);
}

proof fn lemma_prefix_sub(p: Seq<u8>, q: Seq<u8>, x: int, y: int)
    requires
        0 <= x <= y <= p.len(),
    ensures
        (p + q).subrange(x, y) == p.subrange(x, y),
{
    assert((p + q).subrange(x, y) =~= p.subrange(x, y));
}

proof fn lemma_suffix_sub(p: Seq<u8>, q: Seq<u8>, x: int, y: int)
    requires
        p.len() <= x <= y <= p.len() + q.len(),
    ensures
        (p + q).subrange(x, y) == q.subrange(x - p.len(), y - p.len()),
{
    assert((p + q).subrange(x, y) =~= q.subrange(x - p.len(), y - p.len()));
}

} // verus!
