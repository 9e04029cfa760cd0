//! A token bucket shared by all workers. Tokens are kept in byte-nanoseconds
//! (one byte is 10^9 of them) so that the refill `elapsed × rate` is exact.
//! Times are nanoseconds on the caller's monotonic clock.
use vstd::prelude::*;

verus! {

/// Byte-nanoseconds in one byte; nanoseconds in one second.
pub const NANOS_PER_SEC: u128 = 1000000000;

/// Shortest wait handed out, in nanoseconds (10 ms).
pub const MIN_WAIT_NANOS: u128 = 10000000;

/// What `consume` decides for one request.
#[derive(Debug, Clone, Copy, PartialEq, Eq, Structural)]
pub enum Admission {
    /// The bytes are debited; go on.
    Granted,
    /// Not enough tokens: sleep this many nanoseconds, then ask again.
    Wait(u64),
}

/// Token bucket of rate `limit_per_sec` bytes per second and burst credit
/// of two seconds of rate.
pub struct BandwidthLimiter {
    pub limit_per_sec: u64,
    pub tokens: u128,
    pub last: u64,
    /// Bytes granted since creation.
    pub granted: Ghost<nat>,
    /// Time of creation.
    pub origin: Ghost<nat>,
}

/// Most tokens the bucket holds: two seconds of rate.
pub open spec fn cap(rate: u64) -> nat {
    (2 * rate * NANOS_PER_SEC) as nat
}

/// Tokens after refilling for the time from `last` to `now` (none if `now`
/// is not later).
pub open spec fn refilled(tokens: nat, rate: u64, last: u64, now: u64) -> nat {
    if now > last {
        let t = tokens + (now - last) * rate;
        if t < cap(rate) { t as nat } else { cap(rate) }
    } else {
        tokens
    }
}

/// The wait for a deficit of `deficit` byte-nanoseconds: the time the rate
/// takes to cover it, rounded up, at least 10 ms, at most `u64::MAX` ns.
pub open spec fn wait_for(deficit: nat, rate: u64) -> nat {
    let w = (deficit + rate - 1) / (rate as int);
    let w = if w < MIN_WAIT_NANOS { MIN_WAIT_NANOS as int } else { w };
    if w > u64::MAX { u64::MAX as nat } else { w as nat }
}

impl BandwidthLimiter {
    /// Tokens within the cap, and no more bytes granted than the first
    /// second's credit plus the rate times the time since creation.
    pub open spec fn wf(&self) -> bool {
        &&& self.limit_per_sec > 0
        &&& self.tokens <= cap(self.limit_per_sec)
        &&& self.origin@ <= self.last
        &&& self.granted@ * NANOS_PER_SEC + self.tokens <= self.limit_per_sec * NANOS_PER_SEC
            + self.limit_per_sec * (self.last - self.origin@)
    }

    /// A bucket holding one second of rate, started at `now`.
    pub fn new(limit_per_sec: u64, now: u64) -> (r: BandwidthLimiter)
        requires
            limit_per_sec > 0,
        ensures
            r.wf(),
            r.limit_per_sec == limit_per_sec,
            r.tokens == limit_per_sec * NANOS_PER_SEC,
            r.last == now,
            r.granted@ == 0,
            r.origin@ == now,
    {
        BandwidthLimiter {
            limit_per_sec,
            tokens: (limit_per_sec as u128) * NANOS_PER_SEC,
            last: now,
            granted: Ghost(0),
            origin: Ghost(now as nat),
        }
    }

    /// One round of `consume(amount)` at time `now`: refill, then debit the
    /// bytes if enough tokens are there, else say how long to sleep.
    pub fn consume(&mut self, amount: u64, now: u64) -> (r: Admission)
        requires
            old(self).wf(),
        ensures
            final(self).wf(),
            final(self).limit_per_sec == old(self).limit_per_sec,
            final(self).origin == old(self).origin,
            final(self).last == (if now > old(self).last { now } else { old(self).last }),
            ({
                let t = refilled(old(self).tokens as nat, old(self).limit_per_sec, old(self).last, now);
                if t >= amount * NANOS_PER_SEC {
                    &&& r == Admission::Granted
                    &&& final(self).tokens == t - amount * NANOS_PER_SEC
                    &&& final(self).granted@ == old(self).granted@ + amount
                } else {
                    &&& r == Admission::Wait(
                        wait_for((amount * NANOS_PER_SEC - t) as nat, old(self).limit_per_sec) as u64,
                    )
                    &&& final(self).tokens == t
                    &&& final(self).granted@ == old(self).granted@
                }
            }),
    {
        let rate = self.limit_per_sec as u128;
        if now > self.last {
            let elapsed = (now - self.last) as u128;
            let limit = 2 * rate * NANOS_PER_SEC;
            proof {
                assert(elapsed * rate <= 0xffff_ffff_ffff_ffff * 0xffff_ffff_ffff_ffff) by (nonlinear_arith)
                    requires elapsed <= 0xffff_ffff_ffff_ffffu128, rate <= 0xffff_ffff_ffff_ffffu128;
            }
            let added = elapsed * rate;
            proof {
                let o = self.origin@ as int;
                let l0 = self.last as int;
                assert(rate * (now - o) == rate * (l0 - o) + added) by (nonlinear_arith)
                    requires added == elapsed * rate, elapsed == now - l0;
            }
            if added >= limit - self.tokens {
                self.tokens = limit;
            } else {
                self.tokens = self.tokens + added;
            }
            self.last = now;
        }
        let need = (amount as u128) * NANOS_PER_SEC;
        if self.tokens >= need {
            self.tokens = self.tokens - need;
            self.granted = Ghost((self.granted@ + amount) as nat);
            return Admission::Granted;
        }
        let deficit = need - self.tokens;
        let mut wait = (deficit + (rate - 1)) / rate;
        if wait < MIN_WAIT_NANOS {
            wait = MIN_WAIT_NANOS;
        }
        let w: u64 = if wait > u64::MAX as u128 { u64::MAX } else { wait as u64 };
        Admission::Wait(w)
    }
}

/// Over any run from creation, the bytes granted are at most the rate times
/// the elapsed time plus two seconds of rate.
pub proof fn lemma_granted_within_budget(l: &BandwidthLimiter)
    requires
        l.wf(),
    ensures
        l.granted@ * NANOS_PER_SEC <= l.limit_per_sec * (l.last - l.origin@) + 2 * l.limit_per_sec
            * NANOS_PER_SEC,
{
}

/// After a refusal, sleeping the returned wait refills enough tokens for the
/// request, whenever the request fits in the bucket at all.
pub proof fn lemma_wait_suffices(tokens: nat, rate: u64, last: u64, amount: u64)
    requires
        rate > 0,
        tokens < amount * NANOS_PER_SEC,
        amount * NANOS_PER_SEC <= cap(rate),
        wait_for((amount * NANOS_PER_SEC - tokens) as nat, rate) < u64::MAX,
        last + wait_for((amount * NANOS_PER_SEC - tokens) as nat, rate) <= u64::MAX,
    ensures
        refilled(
            tokens,
            rate,
            last,
            (last + wait_for((amount * NANOS_PER_SEC - tokens) as nat, rate)) as u64,
        ) >= amount * NANOS_PER_SEC,
{
    let d = (amount * NANOS_PER_SEC - tokens) as int;
    let r = rate as int;
    let q = (d + r - 1) / r;
    vstd::arithmetic::div_mod::lemma_fundamental_div_mod(d + r - 1, r);
    vstd::arithmetic::div_mod::lemma_mod_pos_bound(d + r - 1, r);
    assert(q * r >= d) by (nonlinear_arith)
        requires d + r - 1 == r * q + (d + r - 1) % r, (d + r - 1) % r < r, r > 0;
    let w = wait_for(d as nat, rate) as int;
    assert(w >= q);
    assert(w * r >= q * r) by (nonlinear_arith)
        requires w >= q, r > 0;
}

} // verus!
