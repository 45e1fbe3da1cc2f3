//! Token-bucket rate limiter for background IO budget.
//!
//! Background workers acquire tokens before performing IO, ensuring foreground traffic
//! is not starved.  Times are in milliseconds on the caller's clock.

use vstd::prelude::*;

verus! {

/// Token-bucket rate limiter.
///
/// Tokens are replenished at a fixed rate up to a maximum capacity.
#[derive(Clone, Debug)]
pub struct TokenBucket {
    pub capacity: u64,
    /// Tokens per second.
    pub refill_rate: u64,
    pub tokens: u64,
    /// When tokens were last added.
    pub last_refill_ms: u64,
}

impl TokenBucket {
    /// There are never more tokens than the bucket holds.
    pub open spec fn wf(&self) -> bool {
        self.tokens <= self.capacity
    }

    /// The whole tokens that have come in since the last refill.
    pub open spec fn earned(&self, now_ms: u64) -> int {
        if now_ms >= self.last_refill_ms {
            (now_ms - self.last_refill_ms) * self.refill_rate / 1000
        } else {
            0
        }
    }

    /// The bucket with the tokens that have come in.  As long as that is not a whole
    /// token, the time keeps running.
    pub open spec fn refilled(self, now_ms: u64) -> Self {
        if self.earned(now_ms) > 0 {
            TokenBucket {
                tokens: if self.tokens + self.earned(now_ms) <= self.capacity {
                    (self.tokens + self.earned(now_ms)) as u64
                } else {
                    self.capacity
                },
                last_refill_ms: now_ms,
                ..self
            }
        } else {
            self
        }
    }

    /// A thousand times the tokens that the bucket can hand out at a time, parts of
    /// tokens included.
    pub open spec fn credit(&self, now_ms: u64) -> int {
        1000 * self.tokens + (if now_ms >= self.last_refill_ms {
            (now_ms - self.last_refill_ms) * self.refill_rate
        } else {
            0
        })
    }

    /// A full bucket with the given capacity and refill rate (tokens/sec).
    pub fn new(capacity: u64, refill_rate: u64, now_ms: u64) -> (r: Self)
        ensures
            r == (TokenBucket { capacity, refill_rate, tokens: capacity, last_refill_ms: now_ms }),
            r.wf(),
    {
        TokenBucket { capacity, refill_rate, tokens: capacity, last_refill_ms: now_ms }
    }

    /// Refill tokens based on elapsed time.
    fn refill(&mut self, now_ms: u64)
        requires
            old(self).wf(),
        ensures
            *final(self) == old(self).refilled(now_ms),
            final(self).wf(),
    {
        let elapsed: u64 = if now_ms >= self.last_refill_ms {
            now_ms - self.last_refill_ms
        } else {
            0
        };
        assert(elapsed * self.refill_rate <= 0xffff_ffff_ffff_ffff * 0xffff_ffff_ffff_ffff)
            by (nonlinear_arith)
            requires
                elapsed <= 0xffff_ffff_ffff_ffff,
                self.refill_rate <= 0xffff_ffff_ffff_ffff,
        ;
        let earned: u128 = (elapsed as u128) * (self.refill_rate as u128) / 1000;
        if elapsed == 0 {
            assert(elapsed * self.refill_rate == 0) by (nonlinear_arith)
                requires
                    elapsed == 0,
            ;
        }
        if earned > 0 {
            let room: u64 = self.capacity - self.tokens;
            if earned <= room as u128 {
                self.tokens = self.tokens + earned as u64;
            } else {
                self.tokens = self.capacity;
            }
            self.last_refill_ms = now_ms;
        }
    }

    /// Try to acquire `count` tokens without blocking.
    ///
    /// Returns `true` if tokens were acquired, `false` otherwise.
    pub fn try_acquire(&mut self, count: u64, now_ms: u64) -> (r: bool)
        requires
            old(self).wf(),
        ensures
            final(self).wf(),
            r == (old(self).refilled(now_ms).tokens >= count),
            *final(self) == (TokenBucket {
                tokens: if r {
                    (old(self).refilled(now_ms).tokens - count) as u64
                } else {
                    old(self).refilled(now_ms).tokens
                },
                ..old(self).refilled(now_ms)
            }),
    {
        self.refill(now_ms);
        if self.tokens >= count {
            self.tokens = self.tokens - count;
            true
        } else {
            false
        }
    }

    /// The tokens that can be acquired now.
    pub fn available(&mut self, now_ms: u64) -> (r: u64)
        requires
            old(self).wf(),
        ensures
            *final(self) == old(self).refilled(now_ms),
            final(self).wf(),
            r == final(self).tokens,
    {
        self.refill(now_ms);
        self.tokens
    }

    /// Get the capacity of this bucket.
    pub fn capacity(&self) -> (r: u64)
        ensures
            r == self.capacity,
    {
        self.capacity
    }

    /// Get the refill rate (tokens/sec).
    pub fn refill_rate(&self) -> (r: u64)
        ensures
            r == self.refill_rate,
    {
        self.refill_rate
    }
}

/// Refilling hands out nothing that has not come in: it never adds credit, and the bucket
/// stays within its capacity.
pub proof fn refill_never_adds_credit(bucket: TokenBucket, now_ms: u64)
    requires
        bucket.wf(),
    ensures
        bucket.refilled(now_ms).wf(),
        bucket.refilled(now_ms).credit(now_ms) <= bucket.credit(now_ms),
{
    if bucket.earned(now_ms) > 0 {
        let total = (now_ms - bucket.last_refill_ms) * bucket.refill_rate;
        assert(1000 * (total / 1000) <= total);
        assert((now_ms - now_ms) * bucket.refill_rate == 0) by (nonlinear_arith);
    }
}

/// The budget: tokens are taken out of credit, which grows only with time, by a thousand
/// times the refill rate per second.  Over any span of time no more tokens are handed out
/// than the bucket had credit for at its start and came in during it.
pub proof fn budget_is_kept(bucket: TokenBucket, count: u64, now_ms: u64, later_ms: u64)
    requires
        bucket.wf(),
        bucket.last_refill_ms <= now_ms <= later_ms,
        bucket.refilled(now_ms).tokens >= count,
    ensures
        ({
            let after = TokenBucket {
                tokens: (bucket.refilled(now_ms).tokens - count) as u64,
                ..bucket.refilled(now_ms)
            };
            &&& after.credit(now_ms) + 1000 * count <= bucket.credit(now_ms)
            &&& after.credit(later_ms) <= after.credit(now_ms) + (later_ms - now_ms)
                * bucket.refill_rate
        }),
{
    refill_never_adds_credit(bucket, now_ms);
    let after = TokenBucket {
        tokens: (bucket.refilled(now_ms).tokens - count) as u64,
        ..bucket.refilled(now_ms)
    };
    let a = now_ms - after.last_refill_ms;
    let b = later_ms - now_ms;
    let rate = bucket.refill_rate as int;
    assert((a + b) * rate == a * rate + b * rate) by (nonlinear_arith);
}

/// Tokens come in at the refill rate, as many whole ones as fit, and none is lost but for the
/// bucket being full: after a refill there are as many as before and as came in since the
/// last one, up to the capacity. As long as no whole token has come in, and where the clock
/// ran back, nothing changes, and the time goes on counting.
pub proof fn tokens_come_in_at_the_rate(bucket: TokenBucket, now_ms: u64)
    requires
        bucket.wf(),
    ensures
        ({
            let came = if bucket.last_refill_ms <= now_ms {
                (now_ms - bucket.last_refill_ms) * bucket.refill_rate / 1000
            } else {
                0
            };
            let after = bucket.refilled(now_ms);
            &&& after.tokens == (if bucket.tokens + came <= bucket.capacity {
                bucket.tokens + came
            } else {
                bucket.capacity as int
            })
            &&& after.capacity == bucket.capacity
            &&& after.refill_rate == bucket.refill_rate
            &&& came > 0 ==> after.last_refill_ms == now_ms
            &&& came == 0 ==> after == bucket
        }),
{
    if bucket.last_refill_ms <= now_ms {
        let total = (now_ms - bucket.last_refill_ms) * bucket.refill_rate;
        assert(total >= 0) by (nonlinear_arith)
            requires
                total == (now_ms - bucket.last_refill_ms) * bucket.refill_rate,
                bucket.last_refill_ms <= now_ms,
        ;
    }
}

} // verus!
