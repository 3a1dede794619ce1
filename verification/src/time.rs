//! Clocks, intervals, and the TESLA security condition.
//!
//! TESLA's security rests on knowing that a message arrived **before** its
//! authenticating key could have been public. This module holds that check
//! and the interval arithmetic it needs; the sources of a good time bound
//! (GNSS, peer exchange, beacon floors) are inputs, not part of it.

use vstd::prelude::*;

verus! {

/// A bound on when something happened, in milliseconds on a shared timeline.
///
/// Never a point: `earliest` and `latest` are the receiver's honest interval;
/// the width is its uncertainty.
#[derive(Debug, Clone, Copy, PartialEq, Eq, Structural)]
pub struct TimeBound {
    /// Earliest possible instant.
    pub earliest_ms: u64,
    /// Latest possible instant.
    pub latest_ms: u64,
}

/// `a - b`, or 0 when that would be negative.
pub open spec fn sat_sub(a: u64, b: u64) -> u64 {
    if a >= b { (a - b) as u64 } else { 0 }
}

/// `a + b`, or `u64::MAX` when that would not fit.
pub open spec fn sat_add(a: u64, b: u64) -> u64 {
    if a + b <= u64::MAX { (a + b) as u64 } else { u64::MAX }
}

/// The intersection of two bounds, or `None` when they are disjoint.
pub open spec fn intersect_spec(a: TimeBound, b: TimeBound) -> Option<TimeBound> {
    let earliest = if a.earliest_ms >= b.earliest_ms { a.earliest_ms } else { b.earliest_ms };
    let latest = if a.latest_ms <= b.latest_ms { a.latest_ms } else { b.latest_ms };
    if earliest <= latest {
        Some(TimeBound { earliest_ms: earliest, latest_ms: latest })
    } else {
        None
    }
}

impl TimeBound {
    /// A bound of `center ± uncertainty`, clamped to the representable range.
    pub fn new(center_ms: u64, uncertainty_ms: u64) -> (b: Self)
        ensures
            b.earliest_ms == sat_sub(center_ms, uncertainty_ms),
            b.latest_ms == sat_add(center_ms, uncertainty_ms),
    {
        Self {
            earliest_ms: center_ms.saturating_sub(uncertainty_ms),
            latest_ms: center_ms.saturating_add(uncertainty_ms),
        }
    }

    /// A bound with no uncertainty at all.
    ///
    /// Only honest in tests and on a node with a live GNSS fix.
    pub fn exact(t_ms: u64) -> (b: Self)
        ensures
            b.earliest_ms == t_ms,
            b.latest_ms == t_ms,
    {
        Self { earliest_ms: t_ms, latest_ms: t_ms }
    }

    /// Width of the bound — the caller's uncertainty.
    pub fn width_ms(&self) -> (w: u64)
        ensures
            w == sat_sub(self.latest_ms, self.earliest_ms),
    {
        self.latest_ms.saturating_sub(self.earliest_ms)
    }

    /// Intersect two bounds, keeping the tighter constraint from each side.
    ///
    /// Intersection, not averaging: a lying peer can only widen the result or
    /// be ignored, never drag it. `None` when the bounds are disjoint.
    pub fn intersect(&self, other: &Self) -> (res: Option<Self>)
        ensures
            res == intersect_spec(*self, *other),
    {
        let earliest = if self.earliest_ms >= other.earliest_ms {
            self.earliest_ms
        } else {
            other.earliest_ms
        };
        let latest = if self.latest_ms <= other.latest_ms {
            self.latest_ms
        } else {
            other.latest_ms
        };
        if earliest <= latest {
            Some(Self { earliest_ms: earliest, latest_ms: latest })
        } else {
            None
        }
    }
}

/// Intersection is symmetric, and its result lies within both bounds and is
/// no wider than either.
pub proof fn lemma_intersect_tightens(a: TimeBound, b: TimeBound)
    ensures
        intersect_spec(a, b) == intersect_spec(b, a),
        intersect_spec(a, b) matches Some(c) ==> {
            &&& a.earliest_ms <= c.earliest_ms && c.latest_ms <= a.latest_ms
            &&& b.earliest_ms <= c.earliest_ms && c.latest_ms <= b.latest_ms
            &&& sat_sub(c.latest_ms, c.earliest_ms) <= sat_sub(a.latest_ms, a.earliest_ms)
            &&& sat_sub(c.latest_ms, c.earliest_ms) <= sat_sub(b.latest_ms, b.earliest_ms)
        },
        intersect_spec(a, b) is None <==> (a.latest_ms < b.earliest_ms || b.latest_ms < a.earliest_ms
            || a.earliest_ms > a.latest_ms || b.earliest_ms > b.latest_ms),
{
}

/// The interval and disclosure schedule a sender publishes and receivers follow.
#[derive(Debug, Clone, Copy, PartialEq, Eq, Structural)]
pub struct Schedule {
    /// Timeline origin — interval 0 starts here.
    pub epoch_ms: u64,
    /// Length of one interval.
    pub interval_ms: u32,
    /// How many intervals a key is held before disclosure.
    pub disclosure_delay: u32,
}

/// Which interval contains `t_ms`: times before the epoch clamp to 0, and
/// intervals beyond `u32::MAX` clamp to it.
pub open spec fn interval_at_spec(s: Schedule, t_ms: u64) -> u32 {
    let q = sat_sub(t_ms, s.epoch_ms) as int / s.interval_ms as int;
    if q <= u32::MAX { q as u32 } else { u32::MAX }
}

/// When interval `i` begins, as a mathematical integer.
pub open spec fn interval_start_spec(s: Schedule, interval: int) -> int {
    s.epoch_ms + interval * s.interval_ms
}

/// The earliest instant at which the sender may disclose `K[interval]`.
pub open spec fn disclosure_spec(s: Schedule, interval: int) -> int {
    interval_start_spec(s, interval + s.disclosure_delay)
}

/// The TESLA security condition: the latest possible arrival is strictly
/// before the sender could disclose the interval's key.
pub open spec fn security_condition_spec(s: Schedule, interval: u32, arrival: TimeBound) -> bool {
    arrival.latest_ms < disclosure_spec(s, interval as int)
}

impl Schedule {
    /// A schedule with 30-second intervals and a 2-interval delay.
    pub fn default_at(epoch_ms: u64) -> (s: Self)
        ensures
            s == (Schedule { epoch_ms, interval_ms: 30_000, disclosure_delay: 2 }),
    {
        Self { epoch_ms, interval_ms: 30_000, disclosure_delay: 2 }
    }

    /// Which interval contains `t_ms`. Times before the epoch clamp to 0.
    pub fn interval_at(&self, t_ms: u64) -> (i: u32)
        requires
            self.interval_ms > 0,
        ensures
            i == interval_at_spec(*self, t_ms),
    {
        let elapsed = t_ms.saturating_sub(self.epoch_ms);
        let q = elapsed / (self.interval_ms as u64);
        if q <= u32::MAX as u64 {
            q as u32
        } else {
            u32::MAX
        }
    }

    /// When interval `i` begins.
    pub fn interval_start_ms(&self, interval: u32) -> (t: u64)
        requires
            interval_start_spec(*self, interval as int) <= u64::MAX,
        ensures
            t == interval_start_spec(*self, interval as int),
    {
        proof {
            assert(0 <= interval as int * self.interval_ms as int) by (nonlinear_arith);
        }
        self.epoch_ms + interval as u64 * self.interval_ms as u64
    }

    /// The earliest instant at which the sender may disclose `K[interval]`.
    pub fn disclosure_ms(&self, interval: u32) -> (t: u64)
        requires
            interval + self.disclosure_delay <= u32::MAX,
            disclosure_spec(*self, interval as int) <= u64::MAX,
        ensures
            t == disclosure_spec(*self, interval as int),
    {
        self.interval_start_ms(interval + self.disclosure_delay)
    }
}

/// The TESLA security condition.
///
/// Accept a frame claiming `interval` only if it certainly arrived before the
/// sender could have disclosed that interval's key. Uncertainty counts against
/// the receiver: the *latest* possible arrival must still beat disclosure.
/// Evaluated over wide integers, so no claimed interval can overflow it.
pub fn security_condition(schedule: &Schedule, interval: u32, arrival: &TimeBound) -> (ok: bool)
    ensures
        ok == security_condition_spec(*schedule, interval, *arrival),
{
    let target: u128 = interval as u128 + schedule.disclosure_delay as u128;
    proof {
        assert(target * schedule.interval_ms as int <= 0x2_0000_0000 * 0x1_0000_0000)
            by (nonlinear_arith)
            requires
                target <= 0x2_0000_0000,
                schedule.interval_ms < 0x1_0000_0000,
        ;
        assert(0 <= target * schedule.interval_ms as int) by (nonlinear_arith);
    }
    let disclose: u128 = schedule.epoch_ms as u128 + target * schedule.interval_ms as u128;
    (arrival.latest_ms as u128) < disclose
}

/// Holding keys longer never turns an acceptable arrival into a refused one:
/// a wider disclosure delay tolerates at least as much uncertainty.
pub proof fn lemma_wider_delay_tolerates_more(s: Schedule, wider: u32, interval: u32, arrival: TimeBound)
    requires
        s.disclosure_delay <= wider,
        security_condition_spec(s, interval, arrival),
    ensures
        security_condition_spec(Schedule { disclosure_delay: wider, ..s }, interval, arrival),
{
    let t = Schedule { disclosure_delay: wider, ..s };
    assert((interval + s.disclosure_delay) * s.interval_ms <= (interval + wider) * s.interval_ms)
        by (nonlinear_arith)
        requires
            s.disclosure_delay <= wider,
    ;
}

/// Widening the receiver's uncertainty never turns a refused arrival into an
/// accepted one.
pub proof fn lemma_more_uncertainty_never_helps(s: Schedule, interval: u32, a: TimeBound, b: TimeBound)
    requires
        a.latest_ms <= b.latest_ms,
        security_condition_spec(s, interval, b),
    ensures
        security_condition_spec(s, interval, a),
{
}

/// The start of interval `i` lies in interval `i`.
pub proof fn lemma_interval_of_its_start(s: Schedule, i: u32)
    requires
        s.interval_ms > 0,
        interval_start_spec(s, i as int) <= u64::MAX,
    ensures
        interval_at_spec(s, interval_start_spec(s, i as int) as u64) == i,
{
    let t = interval_start_spec(s, i as int) as u64;
    assert(0 <= i as int * s.interval_ms as int) by (nonlinear_arith);
    assert(sat_sub(t, s.epoch_ms) == i as int * s.interval_ms as int);
    assert((i as int * s.interval_ms as int) / s.interval_ms as int == i as int) by (nonlinear_arith)
        requires
            s.interval_ms > 0,
    ;
}

} // verus!
