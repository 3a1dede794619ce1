//! Signet: an authenticity layer for off-grid mesh networks.
//!
//! Modules:
//! - [`airtime`] — frame counts for the airtime model
//! - [`bytes`]   — big-endian integer encoding shared by every wire format
//! - [`wire`]    — the 13-byte frame header
//! - [`time`]    — time bounds, schedules and the TESLA security condition
//! - [`store`]   — the author-owned last-write-wins fact store
//! - [`hash`]    — SHA-256 and HMAC-SHA256, from the `sha2` and `hmac` crates
//! - [`chain`]   — TESLA hash chains: keys, disclosure, MACs
//! - [`cert`]    — operational certificate encoding
//! - [`frag`]    — erasure-coded fragmentation (Reed–Solomon from `reed-solomon-erasure`)
//! - [`reassembly`] — reassembly of one object among fragments of others
//! - [`session`] — the composed TESLA send and receive path
//! - [`crypto`]  — FN-DSA-512 keys, signatures and certificate issue/verify
//! - [`channel`] — a deterministic lossy channel for simulations
//! - [`tally`]   — running totals of a simulated exchange
//! - [`rs`]      — Reed–Solomon erasure coding, from `reed-solomon-erasure`

pub mod airtime;
pub mod bytes;
pub mod cert;
pub mod chain;
pub mod channel;
pub mod crypto;
pub mod frag;
pub mod hash;
pub mod reassembly;
pub mod rs;
pub mod session;
pub mod store;
pub mod tally;
pub mod time;
pub mod wire;

pub use cert::{Alg, Cert, Role};
pub use chain::{Chain, ChainKey, Mac};
pub use session::{Outcome, Receiver, Reject, Sender};
pub use store::{AuthorId, Fact, Store};
pub use time::{Schedule, TimeBound};
pub use wire::{Class, Header, HEADER_LEN, VERSION};

use vstd::prelude::*;

verus! {

/// Errors produced when decoding untrusted bytes off the air.
///
/// Everything that crosses the radio boundary is hostile until proven
/// otherwise, so decode failures are values, never panics.
#[derive(Debug, Clone, Copy, PartialEq, Eq)]
pub enum Error {
    /// Buffer was shorter than the structure it claimed to hold.
    Truncated {
        /// Bytes required.
        need: usize,
        /// Bytes available.
        got: usize,
    },
    /// Protocol version is not one this build understands.
    UnknownVersion(u8),
    /// Message class byte does not map to a known class.
    UnknownClass(u8),
    /// Requested interval lies outside the generated chain.
    IntervalOutOfRange {
        /// Interval that was asked for.
        interval: u32,
        /// Highest interval this chain can serve.
        max: u32,
    },
    /// Signature suite identifier is not one this build understands.
    UnknownAlg(u8),
    /// Structure decoded correctly but bytes remained.
    TrailingBytes(usize),
    /// Fragment header is self-inconsistent, or contradicts one already seen.
    BadFragment,
    /// Object exceeds the 64 KiB the fragment header can describe.
    ObjectTooLarge(usize),
}

} // verus!
