//! Frame counts for the airtime model.
//!
//! A message is a frame header, a body header, its payload and its
//! authentication trailer; on a link that carries `mtu` bytes per frame it
//! needs that many bytes divided by `mtu`, rounded up, frames before any
//! erasure-coding redundancy. The time-on-air and delivery-probability parts
//! of the model are real-valued and live with the command line.

use vstd::prelude::*;
use crate::session::BODY_LEN;
use crate::wire::HEADER_LEN;

verus! {

/// Bytes on air for one message: frame header, body header, payload and
/// trailer.
pub open spec fn message_bytes(payload: int, trailer: int) -> int {
    HEADER_LEN + BODY_LEN + payload + trailer
}

/// Frames one message needs: its bytes divided by the MTU, rounded up.
pub open spec fn data_frames_spec(payload: int, trailer: int, mtu: int) -> int {
    let total = message_bytes(payload, trailer);
    total / mtu + if total % mtu != 0 { 1int } else { 0int }
}

/// Bytes on air for one message with this payload and trailer.
pub fn message_len(payload: usize, trailer: usize) -> (n: usize)
    requires
        message_bytes(payload as int, trailer as int) <= usize::MAX,
    ensures
        n == message_bytes(payload as int, trailer as int),
{
    HEADER_LEN + BODY_LEN + payload + trailer
}

/// Frames one message needs on a link carrying `mtu` bytes per frame.
pub fn data_frames(payload: usize, trailer: usize, mtu: usize) -> (n: usize)
    requires
        mtu > 0,
        message_bytes(payload as int, trailer as int) <= usize::MAX,
    ensures
        n == data_frames_spec(payload as int, trailer as int, mtu as int),
{
    let total = message_len(payload, trailer);
    let q = total / mtu;
    if total % mtu != 0 {
        assert(q < usize::MAX) by (nonlinear_arith)
            requires
                mtu >= 2,
                q == total / mtu,
                total <= usize::MAX,
        ;
        q + 1
    } else {
        q
    }
}

/// A message fits in one frame exactly when its bytes fit the MTU, and it
/// always needs at least one.
pub proof fn lemma_single_frame(payload: nat, trailer: nat, mtu: nat)
    requires
        mtu > 0,
    ensures
        data_frames_spec(payload as int, trailer as int, mtu as int) >= 1,
        data_frames_spec(payload as int, trailer as int, mtu as int) == 1 <==> message_bytes(
            payload as int,
            trailer as int,
        ) <= mtu,
{
    let total = message_bytes(payload as int, trailer as int);
    let q = total / mtu as int;
    let r = total % mtu as int;
    assert(total == q * mtu + r) by (nonlinear_arith)
        requires
            mtu > 0,
            q == total / mtu as int,
            r == total % mtu as int,
    ;
    assert(0 <= r < mtu);
    assert(total >= 20);
    if q == 0 {
        assert(q * mtu == 0) by (nonlinear_arith)
            requires
                q == 0,
        ;
    } else if q == 1 {
        assert(q * mtu == mtu) by (nonlinear_arith)
            requires
                q == 1,
        ;
    } else {
        assert(q * mtu >= 2 * mtu) by (nonlinear_arith)
            requires
                q >= 2,
                mtu > 0,
        ;
    }
}

} // verus!
