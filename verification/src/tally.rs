//! Running totals of a simulated exchange over a lossy channel.
//!
//! Each beacon is sent; the channel either drops it or hands it to the
//! receiver, whose outcome either refuses it or accepts it and possibly
//! releases buffered frames. The tally counts all four. Counters saturate
//! rather than wrap.

use vstd::prelude::*;
use crate::session::Outcome;

verus! {

/// `a + b`, capped at `u64::MAX`.
pub open spec fn sat_add(a: u64, b: u64) -> u64 {
    if a + b > u64::MAX { u64::MAX } else { (a + b) as u64 }
}

/// Counts of beacons sent, dropped by the channel, refused by the receiver,
/// and buffered frames verified and merged.
#[derive(Debug, Clone, Copy, PartialEq, Eq, Structural)]
pub struct Tally {
    pub sent: u64,
    pub dropped: u64,
    pub merged: u64,
    pub refused: u64,
}

/// The tally after one more beacon: `None` when the channel dropped it, else
/// what the receiver made of it.
pub open spec fn record_spec(t: Tally, outcome: Option<Outcome>) -> Tally {
    let t2 = Tally { sent: sat_add(t.sent, 1), ..t };
    match outcome {
        None => Tally { dropped: sat_add(t.dropped, 1), ..t2 },
        Some(Outcome::Rejected(_)) => Tally { refused: sat_add(t.refused, 1), ..t2 },
        Some(Outcome::Accepted { merged, .. }) => Tally { merged: sat_add(t.merged, merged as u64), ..t2 },
    }
}

impl Tally {
    /// Nothing sent yet.
    pub fn new() -> (t: Self)
        ensures
            t == (Tally { sent: 0, dropped: 0, merged: 0, refused: 0 }),
    {
        Tally { sent: 0, dropped: 0, merged: 0, refused: 0 }
    }

    /// Count one beacon and what became of it.
    pub fn record(&mut self, outcome: Option<Outcome>)
        ensures
            *final(self) == record_spec(*old(self), outcome),
    {
        self.sent = self.sent.saturating_add(1);
        match outcome {
            None => {
                self.dropped = self.dropped.saturating_add(1);
            },
            Some(Outcome::Rejected(_)) => {
                self.refused = self.refused.saturating_add(1);
            },
            Some(Outcome::Accepted { merged, .. }) => {
                self.merged = self.merged.saturating_add(merged as u64);
            },
        }
    }
}

} // verus!
