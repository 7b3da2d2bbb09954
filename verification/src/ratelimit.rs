//! Leaky-bucket accounting for the two rate-limited upstream endpoint
//! classes.

use vstd::prelude::*;

verus! {

/// A leaky bucket: `refill` tokens drip in every `interval_ms`, the level
/// never passes `capacity`, and each admitted call takes one token.
pub struct TokenBucket {
    pub capacity: u64,
    pub refill: u64,
    pub interval_ms: u64,
    pub available: u64,
    pub last_refill_ms: u64,
}

impl TokenBucket {
    pub open spec fn wf(&self) -> bool {
        &&& self.available <= self.capacity
        &&& self.capacity >= 1
        &&& self.refill >= 1
        &&& self.interval_ms >= 1
    }

    fn new(capacity: u64, refill: u64, interval_ms: u64, now_ms: u64) -> (r: TokenBucket)
        requires
            capacity >= 1,
            refill >= 1,
            interval_ms >= 1,
        ensures
            r.wf(),
            r.capacity == capacity,
            r.refill == refill,
            r.interval_ms == interval_ms,
            r.available == capacity,
            r.last_refill_ms == now_ms,
    {
        TokenBucket { capacity, refill, interval_ms, available: capacity, last_refill_ms: now_ms }
    }

    /// Credits the tokens of every full interval since the last credit.
    pub fn refill_now(&mut self, now_ms: u64)
        requires
            old(self).wf(),
            now_ms >= old(self).last_refill_ms,
        ensures
            final(self).wf(),
            final(self).capacity == old(self).capacity,
            final(self).refill == old(self).refill,
            final(self).interval_ms == old(self).interval_ms,
            ({
                let periods = (now_ms - old(self).last_refill_ms) as int
                    / old(self).interval_ms as int;
                &&& final(self).available == (if old(self).available + periods * old(self).refill
                    > old(self).capacity {
                    old(self).capacity as int
                } else {
                    old(self).available + periods * old(self).refill
                })
                &&& final(self).last_refill_ms == old(self).last_refill_ms + periods * old(
                    self,
                ).interval_ms
            }),
    {
        let elapsed = now_ms - self.last_refill_ms;
        let periods = elapsed / self.interval_ms;
        proof {
            vstd::arithmetic::div_mod::lemma_fundamental_div_mod(
                elapsed as int,
                self.interval_ms as int,
            );
            vstd::arithmetic::div_mod::lemma_mod_bound(elapsed as int, self.interval_ms as int);
            assert(periods as int * self.interval_ms as int == self.interval_ms as int
                * periods as int) by (nonlinear_arith);
            assert(periods * self.interval_ms <= elapsed);
        }
        self.last_refill_ms = self.last_refill_ms + periods * self.interval_ms;
        let shortfall = self.capacity - self.available;
        if periods > shortfall / self.refill {
            proof {
                assert(periods * self.refill >= (shortfall as int / self.refill as int + 1)
                    * self.refill) by (nonlinear_arith)
                    requires
                        periods >= shortfall as int / self.refill as int + 1,
                        self.refill >= 1,
                ;
                assert((shortfall as int / self.refill as int + 1) * self.refill as int
                    > shortfall) by (nonlinear_arith)
                    requires
                        self.refill >= 1,
                        shortfall >= 0,
                ;
            }
            self.available = self.capacity;
        } else {
            proof {
                assert(periods * self.refill <= (shortfall as int / self.refill as int)
                    * self.refill) by (nonlinear_arith)
                    requires
                        periods <= shortfall as int / self.refill as int,
                        periods >= 0,
                        self.refill >= 1,
                ;
                assert((shortfall as int / self.refill as int) * self.refill as int <= shortfall)
                    by (nonlinear_arith)
                    requires
                        self.refill >= 1,
                        shortfall >= 0,
                ;
            }
            self.available = self.available + periods * self.refill;
        }
    }

    /// Takes one token when one is available.
    pub fn try_acquire_one(&mut self) -> (r: bool)
        requires
            old(self).wf(),
        ensures
            final(self).wf(),
            r == (old(self).available >= 1),
            final(self).capacity == old(self).capacity,
            final(self).refill == old(self).refill,
            final(self).interval_ms == old(self).interval_ms,
            final(self).last_refill_ms == old(self).last_refill_ms,
            final(self).available == (if old(self).available >= 1 {
                old(self).available - 1
            } else {
                old(self).available as int
            }),
    {
        if self.available >= 1 {
            self.available = self.available - 1;
            true
        } else {
            false
        }
    }
}

/// The bucket for thumbnail batches: fifty tokens per 1.5 s, starting full.
pub fn thumbnails_bucket(now_ms: u64) -> (r: TokenBucket)
    ensures
        r.wf(),
        r.capacity == 50 && r.refill == 50 && r.interval_ms == 1500 && r.available == 50
            && r.last_refill_ms == now_ms,
{
    TokenBucket::new(50, 50, 1500, now_ms)
}

/// The bucket for public-server pages: ten tokens per 3.5 s, starting full.
pub fn servers_bucket(now_ms: u64) -> (r: TokenBucket)
    ensures
        r.wf(),
        r.capacity == 10 && r.refill == 10 && r.interval_ms == 3500 && r.available == 10
            && r.last_refill_ms == now_ms,
{
    TokenBucket::new(10, 10, 3500, now_ms)
}

} // verus!
