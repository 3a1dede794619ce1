//! A deterministic lossy channel for simulations.
//!
//! Loss comes from a 64-bit linear congruential generator rather than a real
//! random source, so a run reproduces exactly from its seed: which matters
//! more than statistical realism when explaining why a particular frame was
//! dropped. Loss is independent per frame.

use vstd::prelude::*;

verus! {

/// Multiplier of the channel's linear congruential generator.
pub const LCG_MULTIPLIER: u64 = 6364136223846793005;

/// Increment of the channel's linear congruential generator.
pub const LCG_INCREMENT: u64 = 1442695040888963407;

/// One step of the generator: `state * multiplier + increment`, modulo 2^64.
pub open spec fn lcg_next(state: u64) -> u64 {
    ((state as int * LCG_MULTIPLIER as int + LCG_INCREMENT as int) % 0x1_0000_0000_0000_0000int) as u64
}

/// Whether a frame gets through when the generator has just produced
/// `state`: the top 31 bits, taken modulo 100, are at least the loss
/// percentage.
pub open spec fn delivered(state: u64, loss_pct: u32) -> bool {
    (state >> 33u64) % 100 >= loss_pct as u64
}

/// Deterministic packet loss. Same seed, same pattern, every run.
pub struct Channel {
    state: u64,
    loss_pct: u32,
}

impl View for Channel {
    /// The generator state and the loss percentage.
    type V = (u64, u32);

    closed spec fn view(&self) -> (u64, u32) {
        (self.state, self.loss_pct)
    }
}

impl Channel {
    /// A channel seeded with `seed` that drops `loss_pct` percent of frames.
    pub fn new(seed: u64, loss_pct: u32) -> (c: Self)
        ensures
            c@ == (seed, loss_pct),
    {
        Channel { state: seed, loss_pct }
    }

    /// Advance the generator and say whether this frame gets through.
    pub fn delivers(&mut self) -> (ok: bool)
        ensures
            final(self)@ == (lcg_next(old(self)@.0), old(self)@.1),
            ok == delivered(lcg_next(old(self)@.0), old(self)@.1),
    {
        let next = self.state.wrapping_mul(LCG_MULTIPLIER).wrapping_add(LCG_INCREMENT);
        proof {
            let m: int = 0x1_0000_0000_0000_0000int;
            let p: int = self.state as int * LCG_MULTIPLIER as int;
            vstd::arithmetic::div_mod::lemma_add_mod_noop(p, LCG_INCREMENT as int, m);
            vstd::arithmetic::div_mod::lemma_small_mod(LCG_INCREMENT as nat, m as nat);
            vstd::arithmetic::div_mod::lemma_mod_twice(p % m + LCG_INCREMENT as int, m);
            assert(next == lcg_next(self.state));
        }
        self.state = next;
        (self.state >> 33u64) % 100 >= self.loss_pct as u64
    }
}

/// The channel is a pure function of its state: two channels in the same
/// state step to the same state and make the same call on the frame.
pub proof fn lemma_channel_deterministic(a: (u64, u32), b: (u64, u32))
    requires
        a == b,
    ensures
        lcg_next(a.0) == lcg_next(b.0),
        delivered(lcg_next(a.0), a.1) == delivered(lcg_next(b.0), b.1),
{
}

/// A channel with no loss delivers every frame, and one with 100% or more
/// loss delivers none.
pub proof fn lemma_channel_extremes(state: u64, loss_pct: u32)
    ensures
        loss_pct == 0 ==> delivered(state, loss_pct),
        loss_pct >= 100 ==> !delivered(state, loss_pct),
{
}

} // verus!
