//! Decisions of the segment worker: which responses to accept, how long to
//! back off, and where buffered bytes land in the destination file.
use vstd::prelude::*;
use vstd::string::StringExecFns;
use crate::text::{decimal, decimal_string};

verus! {

/// Attempts per segment before its failure is final.
pub const MAX_RETRIES: u32 = 5;

/// Bytes a worker buffers before one positional write (512 KiB).
pub const WRITE_BUFFER_SIZE: usize = 524288;

/// How an attempt failed.
#[derive(Debug, Clone, Copy, PartialEq, Eq, Structural)]
pub enum FailureKind {
    /// Connecting, sending, TLS or a timeout.
    Network,
    /// A status other than an acceptable one.
    Status,
    /// Reading the response body.
    Body,
    /// The positional write to the destination file.
    Write,
    /// Updating the part map.
    PartMap,
}

/// What to do after a failed attempt.
#[derive(Debug, Clone, Copy, PartialEq, Eq, Structural)]
pub enum RetryDecision {
    /// Sleep this many seconds, then try again.
    Retry(u64),
    /// Surface the error.
    GiveUp,
}

pub open spec fn retriable(kind: FailureKind) -> bool {
    kind == FailureKind::Network || kind == FailureKind::Status || kind == FailureKind::Body
}

pub open spec fn pow2(n: nat) -> nat
    decreases n,
{
    if n == 0 {
        1
    } else {
        2 * pow2((n - 1) as nat)
    }
}

/// `2^min(k, 4)` seconds.
pub open spec fn backoff_secs(k: nat) -> nat {
    if k >= 4 {
        pow2(4)
    } else {
        pow2(k)
    }
}

/// After failed attempt `attempt` (counted from 1): network, status and body
/// failures are retried after `2^min(attempt, 4)` seconds while fewer than
/// five attempts were made; local write and part-map failures never are.
pub fn retry_decision(attempt: u32, kind: FailureKind) -> (r: RetryDecision)
    ensures
        retriable(kind) && attempt < MAX_RETRIES ==> r == RetryDecision::Retry(
            backoff_secs(attempt as nat) as u64,
        ),
        !(retriable(kind) && attempt < MAX_RETRIES) ==> r == RetryDecision::GiveUp,
{
    let retry = match kind {
        FailureKind::Network | FailureKind::Status | FailureKind::Body => true,
        FailureKind::Write | FailureKind::PartMap => false,
    };
    if !retry || attempt >= MAX_RETRIES {
        return RetryDecision::GiveUp;
    }
    let k: u32 = if attempt > 4 { 4 } else { attempt };
    let mut wait: u64 = 1;
    let mut i: u32 = 0;
    while i < k
        invariant
            i <= k <= 4,
            wait == pow2(i as nat),
            wait <= 16,
        decreases k - i,
    {
        proof {
            reveal_with_fuel(pow2, 5);
        }
        wait = wait * 2;
        i = i + 1;
    }
    proof {
        reveal_with_fuel(pow2, 5);
    }
    RetryDecision::Retry(wait)
}

/// 206, or any 2xx when the range starts at byte 0.
pub open spec fn acceptable(status: u16, position: u64) -> bool {
    status == 206 || (position == 0 && 200 <= status < 300)
}

pub fn is_acceptable_status(status: u16, position: u64) -> (r: bool)
    ensures
        r == acceptable(status, position),
{
    status == 206 || (position == 0 && 200 <= status && status < 300)
}

/// `bytes=P-E`.
pub fn range_header(first: u64, last: u64) -> (r: String)
    ensures
        r@ == seq!['b', 'y', 't', 'e', 's', '='] + decimal(first as nat) + seq!['-'] + decimal(
            last as nat,
        ),
{
    let mut r = String::from_str("bytes=");
    let a = decimal_string(first);
    r.append(a.as_str());
    r.append("-");
    let b = decimal_string(last);
    r.append(b.as_str());
    proof {
        reveal_strlit("bytes=");
        reveal_strlit("-");
    }
    r
}

/// `bytes=P-`, for a download that resumes at byte `P` to the end.
pub fn open_range_header(first: u64) -> (r: String)
    ensures
        r@ == seq!['b', 'y', 't', 'e', 's', '='] + decimal(first as nat) + seq!['-'],
{
    let mut r = String::from_str("bytes=");
    let a = decimal_string(first);
    r.append(a.as_str());
    r.append("-");
    proof {
        reveal_strlit("bytes=");
        reveal_strlit("-");
    }
    r
}

/// A positional write: `data` goes to the file at `offset`.
#[derive(Debug)]
pub struct PendingWrite {
    pub offset: u64,
    pub data: Vec<u8>,
}

/// Buffers the bytes of one attempt and hands them out as positional writes
/// of at least 512 KiB, in order and without gaps from the start offset.
pub struct SegmentWriter {
    /// File offset of the first byte of the attempt.
    pub origin: u64,
    /// File offset of the first buffered byte.
    pub buffer_position: u64,
    pub buffer: Vec<u8>,
    /// The segment's downloaded count, including this attempt's bytes.
    pub downloaded: u64,
    /// Bytes received in this attempt.
    pub transferred: u64,
    /// Every byte received in this attempt, in order.
    pub received: Ghost<Seq<u8>>,
}

impl SegmentWriter {
    pub open spec fn wf(&self) -> bool {
        &&& self.transferred == self.received@.len()
        &&& self.origin + self.transferred <= u64::MAX
        &&& self.buffer_position as int + self.buffer@.len() == self.origin + self.transferred
        &&& self.origin <= self.buffer_position
        &&& self.buffer@ == self.received@.subrange(
            self.buffer_position - self.origin,
            self.received@.len() as int,
        )
        &&& self.buffer@.len() < WRITE_BUFFER_SIZE
    }

    /// A writer for an attempt that starts at file offset `origin` with
    /// `downloaded` bytes of the segment already present.
    pub fn new(origin: u64, downloaded: u64) -> (r: SegmentWriter)
        ensures
            r.wf(),
            r.origin == origin,
            r.buffer_position == origin,
            r.downloaded == downloaded,
            r.transferred == 0,
    {
        assert(Seq::<u8>::empty().subrange(0, 0) =~= Seq::<u8>::empty());
        SegmentWriter {
            origin,
            buffer_position: origin,
            buffer: Vec::new(),
            downloaded,
            transferred: 0,
            received: Ghost(Seq::empty()),
        }
    }

    /// Whether `n` more bytes keep every offset and count within `u64`.
    pub fn can_accept(&self, n: usize) -> (r: bool)
        requires
            self.wf(),
        ensures
            r == (self.origin + self.transferred + n <= u64::MAX && self.downloaded + n
                <= u64::MAX),
    {
        let t = self.origin as u128 + self.transferred as u128 + n as u128;
        let d = self.downloaded as u128 + n as u128;
        t <= u64::MAX as u128 && d <= u64::MAX as u128
    }

    /// Takes one body chunk; once 512 KiB are buffered they come back as a
    /// write at the offset that follows the previous write.
    pub fn push(&mut self, chunk: &[u8]) -> (r: Option<PendingWrite>)
        requires
            old(self).wf(),
            old(self).origin + old(self).transferred + chunk@.len() <= u64::MAX,
            old(self).downloaded + chunk@.len() <= u64::MAX,
        ensures
            final(self).wf(),
            final(self).origin == old(self).origin,
            final(self).received@ == old(self).received@ + chunk@,
            final(self).downloaded == old(self).downloaded + chunk@.len(),
            match r {
                Some(w) => {
                    &&& w.offset == old(self).buffer_position
                    &&& w.data@ == old(self).buffer@ + chunk@
                    &&& w.data@.len() >= WRITE_BUFFER_SIZE
                    &&& final(self).buffer_position == w.offset + w.data@.len()
                },
                None => {
                    &&& final(self).buffer_position == old(self).buffer_position
                    &&& final(self).buffer@ == old(self).buffer@ + chunk@
                },
            },
    {
        let n = chunk.len();
        let mut i: usize = 0;
        let ghost pre = self.buffer@;
        while i < n
            invariant
                i <= n,
                n == chunk@.len(),
                self.buffer@ == pre + chunk@.take(i as int),
                self.origin == old(self).origin,
                self.transferred == old(self).transferred,
                self.downloaded == old(self).downloaded,
                self.buffer_position == old(self).buffer_position,
                self.received == old(self).received,
            decreases n - i,
        {
            self.buffer.push(chunk[i]);
            assert(self.buffer@ =~= pre + chunk@.take(i + 1));
            i = i + 1;
        }
        assert(chunk@.take(n as int) =~= chunk@);
        self.received = Ghost(self.received@ + chunk@);
        self.transferred = self.transferred + n as u64;
        self.downloaded = self.downloaded + n as u64;
        assert(self.buffer@ =~= self.received@.subrange(
            self.buffer_position - self.origin,
            self.received@.len() as int,
        ));
        if self.buffer.len() >= WRITE_BUFFER_SIZE {
            let data = self.buffer.split_off(0);
            let offset = self.buffer_position;
            self.buffer_position = self.buffer_position + data.len() as u64;
            assert(self.buffer@ =~= self.received@.subrange(
                self.buffer_position - self.origin,
                self.received@.len() as int,
            ));
            Some(PendingWrite { offset, data })
        } else {
            None
        }
    }

    /// The residual buffer at the end of the stream, if any.
    pub fn finish(&mut self) -> (r: Option<PendingWrite>)
        requires
            old(self).wf(),
        ensures
            final(self).wf(),
            final(self).origin == old(self).origin,
            final(self).received == old(self).received,
            final(self).downloaded == old(self).downloaded,
            final(self).transferred == old(self).transferred,
            final(self).buffer@.len() == 0,
            final(self).buffer_position == old(self).origin + old(self).transferred,
            match r {
                Some(w) => {
                    &&& w.offset == old(self).buffer_position
                    &&& w.data@ == old(self).buffer@
                    &&& w.data@.len() > 0
                },
                None => old(self).buffer@.len() == 0,
            },
    {
        if self.buffer.len() == 0 {
            return None;
        }
        let data = self.buffer.split_off(0);
        let offset = self.buffer_position;
        self.buffer_position = self.buffer_position + data.len() as u64;
        assert(self.buffer@ =~= self.received@.subrange(
            self.buffer_position - self.origin,
            self.received@.len() as int,
        ));
        Some(PendingWrite { offset, data })
    }
}

} // verus!
