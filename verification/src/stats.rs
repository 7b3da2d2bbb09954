//! Rolling statistics: the moving averages of the two loops' cycle times and
//! the memoized global game and target counts.
//!
//! The averages are kept in `simple_moving_average`'s windowed accumulator,
//! read and written through the trusted wrappers below.

use vstd::prelude::*;

verus! {

#[verifier::external_type_specification]
#[verifier::external_body]
#[verifier::reject_recursive_types(Sample)]
#[verifier::reject_recursive_types(Divisor)]
pub struct ExNoSumSMA<Sample, Divisor, const WINDOW_SIZE: usize>(
    simple_moving_average::NoSumSMA<Sample, Divisor, WINDOW_SIZE>,
);

/// The samples a ten-sample averaging window holds, oldest first.
pub uninterp spec fn sma_window(m: simple_moving_average::NoSumSMA<u64, u64, 10>) -> Seq<u64>;

/// The sum of a window's samples.
pub open spec fn window_sum(s: Seq<u64>) -> int
    decreases s.len(),
{
    if s.len() == 0 {
        0
    } else {
        window_sum(s.drop_last()) + s.last()
    }
}

/// Relies on simple_moving_average::NoSumSMA::from_zero: a new window holds
/// no samples.
#[verifier::external_body]
pub(crate) fn sma_new() -> (m: simple_moving_average::NoSumSMA<u64, u64, 10>)
    ensures
        sma_window(m) == Seq::<u64>::empty(),
{
    simple_moving_average::NoSumSMA::from_zero(0)
}

/// Relies on simple_moving_average::NoSumSMA::add_sample (a ring buffer of
/// ten): appends the sample, dropping the oldest once ten are held.
#[verifier::external_body]
pub(crate) fn sma_add_sample(m: &mut simple_moving_average::NoSumSMA<u64, u64, 10>, sample: u64)
    ensures
        sma_window(*final(m)) == (if sma_window(*old(m)).len() < 10 {
            sma_window(*old(m)).push(sample)
        } else {
            sma_window(*old(m)).drop_first().push(sample)
        }),
{
    simple_moving_average::SMA::add_sample(m, sample);
}

/// Relies on simple_moving_average::NoSumSMA::get_average: the sum of the
/// held samples divided by how many are held, zero when none are held. The
/// crate sums the samples in the sample type, so the caller keeps the sum
/// within bounds.
#[verifier::external_body]
pub(crate) fn sma_get_average(m: &simple_moving_average::NoSumSMA<u64, u64, 10>) -> (r: u64)
    requires
        window_sum(sma_window(*m)) <= u64::MAX,
    ensures
        r == (if sma_window(*m).len() == 0 {
            0int
        } else {
            window_sum(sma_window(*m)) / sma_window(*m).len() as int
        }),
{
    simple_moving_average::SMA::get_average(m)
}

proof fn lemma_window_sum_bound(s: Seq<u64>, each: u64)
    requires
        forall|i: int| 0 <= i < s.len() ==> (#[trigger] s[i]) <= each,
    ensures
        window_sum(s) <= s.len() * each,
        window_sum(s) >= 0,
    decreases s.len(),
{
    if s.len() > 0 {
        lemma_window_sum_bound(s.drop_last(), each);
        assert(s.last() <= each);
        assert((s.len() - 1) * each + each == s.len() * each) by (nonlinear_arith);
    }
}

/// A value memoized for sixty seconds.
pub struct CountMemo {
    value: u64,
    fetched_at_ms: u64,
    has: bool,
}

impl CountMemo {
    pub closed spec fn wf(&self) -> bool {
        self.has ==> self.fetched_at_ms <= u64::MAX - 60000
    }

    pub closed spec fn spec_get(&self, now_ms: u64) -> Option<u64> {
        if self.has && now_ms < self.fetched_at_ms + 60000 {
            Some(self.value)
        } else {
            None
        }
    }

    pub fn empty() -> (r: CountMemo)
        ensures
            r.wf(),
            forall|now: u64| (#[trigger] r.spec_get(now)) is None,
    {
        CountMemo { value: 0, fetched_at_ms: 0, has: false }
    }

    /// The memoized value, while it is still fresh.
    pub fn get(&self, now_ms: u64) -> (r: Option<u64>)
        requires
            self.wf(),
        ensures
            r == self.spec_get(now_ms),
    {
        if self.has && now_ms < self.fetched_at_ms + 60000 {
            Some(self.value)
        } else {
            None
        }
    }

    /// Memoizes a freshly fetched value.
    pub fn put(&mut self, value: u64, now_ms: u64)
        requires
            old(self).wf(),
            now_ms <= u64::MAX - 60000,
        ensures
            final(self).wf(),
            forall|t: u64|
                t < now_ms + 60000 ==> (#[trigger] final(self).spec_get(t)) == Some(value),
            forall|t: u64| t >= now_ms + 60000 ==> (#[trigger] final(self).spec_get(t)) is None,
    {
        self.value = value;
        self.fetched_at_ms = now_ms;
        self.has = true;
    }
}

/// Rolling statistics of the tracker: average cycle times over the last ten
/// cycles of each loop, and the memoized global counts.
pub struct Stats {
    tracking_cycle: simple_moving_average::NoSumSMA<u64, u64, 10>,
    update_cycle: simple_moving_average::NoSumSMA<u64, u64, 10>,
    game_count: CountMemo,
    target_count: CountMemo,
}

impl Stats {
    /// Every held sample is small enough that a full window still sums within
    /// bounds.
    pub closed spec fn wf(&self) -> bool {
        &&& sma_window(self.tracking_cycle).len() <= 10
        &&& sma_window(self.update_cycle).len() <= 10
        &&& forall|i: int|
            0 <= i < sma_window(self.tracking_cycle).len() ==> (#[trigger] sma_window(
                self.tracking_cycle,
            )[i]) <= u64::MAX / 10
        &&& forall|i: int|
            0 <= i < sma_window(self.update_cycle).len() ==> (#[trigger] sma_window(
                self.update_cycle,
            )[i]) <= u64::MAX / 10
        &&& self.game_count.wf()
        &&& self.target_count.wf()
    }

    /// The samples of tracking-cycle durations currently averaged over.
    pub closed spec fn tracking_window(&self) -> Seq<u64> {
        sma_window(self.tracking_cycle)
    }

    /// The samples of update-cycle durations currently averaged over.
    pub closed spec fn update_window(&self) -> Seq<u64> {
        sma_window(self.update_cycle)
    }

    pub closed spec fn spec_game_count(&self, now_ms: u64) -> Option<u64> {
        self.game_count.spec_get(now_ms)
    }

    pub closed spec fn spec_target_count(&self, now_ms: u64) -> Option<u64> {
        self.target_count.spec_get(now_ms)
    }

    pub fn new() -> (r: Stats)
        ensures
            r.wf(),
            r.tracking_window() == Seq::<u64>::empty(),
            r.update_window() == Seq::<u64>::empty(),
            forall|now: u64| (#[trigger] r.spec_game_count(now)) is None,
            forall|now: u64| (#[trigger] r.spec_target_count(now)) is None,
    {
        Stats {
            tracking_cycle: sma_new(),
            update_cycle: sma_new(),
            game_count: CountMemo::empty(),
            target_count: CountMemo::empty(),
        }
    }

    /// Records one tracking cycle's duration, in nanoseconds.
    pub fn add_tracking_cycle(&mut self, cycle_nanos: u64)
        requires
            old(self).wf(),
            cycle_nanos <= u64::MAX / 10,
        ensures
            final(self).wf(),
            final(self).tracking_window() == (if old(self).tracking_window().len() < 10 {
                old(self).tracking_window().push(cycle_nanos)
            } else {
                old(self).tracking_window().drop_first().push(cycle_nanos)
            }),
            final(self).update_window() == old(self).update_window(),
    {
        sma_add_sample(&mut self.tracking_cycle, cycle_nanos);
        proof {
            let w = sma_window(self.tracking_cycle);
            let pre = old(self).tracking_window();
            assert forall|i: int| 0 <= i < w.len() implies (#[trigger] w[i]) <= u64::MAX / 10 by {
                if pre.len() < 10 {
                    if i < pre.len() {
                        assert(w[i] == pre[i]);
                    }
                } else {
                    if i < w.len() - 1 {
                        assert(w[i] == pre.drop_first()[i]);
                        assert(pre.drop_first()[i] == pre[i + 1]);
                    }
                }
            }
        }
    }

    /// Records one update cycle's duration, in nanoseconds.
    pub fn add_update_cycle(&mut self, cycle_nanos: u64)
        requires
            old(self).wf(),
            cycle_nanos <= u64::MAX / 10,
        ensures
            final(self).wf(),
            final(self).update_window() == (if old(self).update_window().len() < 10 {
                old(self).update_window().push(cycle_nanos)
            } else {
                old(self).update_window().drop_first().push(cycle_nanos)
            }),
            final(self).tracking_window() == old(self).tracking_window(),
    {
        sma_add_sample(&mut self.update_cycle, cycle_nanos);
        proof {
            let w = sma_window(self.update_cycle);
            let pre = old(self).update_window();
            assert forall|i: int| 0 <= i < w.len() implies (#[trigger] w[i]) <= u64::MAX / 10 by {
                if pre.len() < 10 {
                    if i < pre.len() {
                        assert(w[i] == pre[i]);
                    }
                } else {
                    if i < w.len() - 1 {
                        assert(w[i] == pre.drop_first()[i]);
                        assert(pre.drop_first()[i] == pre[i + 1]);
                    }
                }
            }
        }
    }

    /// The average tracking-cycle duration over the window, in nanoseconds.
    pub fn secs_per_tracking_cycle(&self) -> (r: u64)
        requires
            self.wf(),
        ensures
            r == (if self.tracking_window().len() == 0 {
                0int
            } else {
                window_sum(self.tracking_window()) / self.tracking_window().len() as int
            }),
    {
        proof {
            lemma_window_sum_bound(self.tracking_window(), u64::MAX / 10);
        }
        sma_get_average(&self.tracking_cycle)
    }

    /// The average update-cycle duration over the window, in nanoseconds.
    pub fn secs_per_update_cycle(&self) -> (r: u64)
        requires
            self.wf(),
        ensures
            r == (if self.update_window().len() == 0 {
                0int
            } else {
                window_sum(self.update_window()) / self.update_window().len() as int
            }),
    {
        proof {
            lemma_window_sum_bound(self.update_window(), u64::MAX / 10);
        }
        sma_get_average(&self.update_cycle)
    }

    /// The memoized global game count, while it is fresh.
    pub fn cached_game_count(&self, now_ms: u64) -> (r: Option<u64>)
        requires
            self.wf(),
        ensures
            r == self.spec_game_count(now_ms),
    {
        self.game_count.get(now_ms)
    }

    /// Memoizes a freshly fetched global game count for sixty seconds.
    pub fn record_game_count(&mut self, count: u64, now_ms: u64)
        requires
            old(self).wf(),
            now_ms <= u64::MAX - 60000,
        ensures
            final(self).wf(),
            forall|t: u64|
                t < now_ms + 60000 ==> (#[trigger] final(self).spec_game_count(t)) == Some(count),
            forall|t: u64|
                t >= now_ms + 60000 ==> (#[trigger] final(self).spec_game_count(t)) is None,
            final(self).tracking_window() == old(self).tracking_window(),
            final(self).update_window() == old(self).update_window(),
    {
        self.game_count.put(count, now_ms);
    }

    /// The memoized global target count, while it is fresh.
    pub fn cached_target_count(&self, now_ms: u64) -> (r: Option<u64>)
        requires
            self.wf(),
        ensures
            r == self.spec_target_count(now_ms),
    {
        self.target_count.get(now_ms)
    }

    /// Memoizes a freshly fetched global target count for sixty seconds.
    pub fn record_target_count(&mut self, count: u64, now_ms: u64)
        requires
            old(self).wf(),
            now_ms <= u64::MAX - 60000,
        ensures
            final(self).wf(),
            forall|t: u64|
                t < now_ms + 60000 ==> (#[trigger] final(self).spec_target_count(t)) == Some(
                    count,
                ),
            forall|t: u64|
                t >= now_ms + 60000 ==> (#[trigger] final(self).spec_target_count(t)) is None,
            final(self).tracking_window() == old(self).tracking_window(),
            final(self).update_window() == old(self).update_window(),
    {
        self.target_count.put(count, now_ms);
    }
}

} // verus!
