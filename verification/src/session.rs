//! The TESLA send and receive path.
//!
//! This is where the pieces compose: [`crate::wire`] frames carrying
//! [`crate::chain`] authentication, gated by [`crate::time`]'s security
//! condition, merged into [`crate::store`].
//!
//! ```text
//! [13B wire header][1B flags][4B seq][2B kind][payload][16B MAC][32B disclosure?]
//! ```
//!
//! The MAC covers everything before it — header included, so a relay cannot
//! rewrite the sender fingerprint or the interval and still verify. The
//! disclosure rides on the first frame of each interval; its presence is
//! signalled by a flag bit inside the MAC'd region, never inferred from the
//! frame length.

use vstd::prelude::*;
use crate::bytes::{eq8, lemma_be16_roundtrip, lemma_be32_roundtrip, be16, be32, read_be16, read_be32, push_all, to_vec, u16_to_be, u32_to_be, u16_from_be,
    u32_from_be};
use crate::chain::{self, Chain, ChainKey, Mac, KEY_LEN, MAC_LEN, mac_spec, mac_key_spec, disclosure_ok,
    key_from_anchor_spec};
use crate::store::{AuthorId, FactKind, Store, merge_spec, merge_applies};
use crate::time::{security_condition, security_condition_spec, interval_at_spec, Schedule, TimeBound};
use crate::wire::{Class, Header, HEADER_LEN, header_bytes, decode_header_spec, lemma_header_roundtrip};
use crate::Error;

verus! {

/// Body header: 1-byte flags, 4-byte sequence number, 2-byte fact kind.
pub const BODY_LEN: usize = 7;

/// Flag bit: a 32-byte key disclosure follows the MAC.
pub const FLAG_DISCLOSURE: u8 = 1;

/// Trailer length when only a MAC is carried.
pub const TRAILER_MAC: usize = 16;

/// Trailer length when a key disclosure is attached.
pub const TRAILER_MAC_DISCLOSURE: usize = 48;

/// Frames buffered per peer while awaiting a disclosure; the oldest is
/// dropped beyond this, because unbounded buffering is a memory-exhaustion
/// attack from anyone with a transmitter.
pub const MAX_PENDING: usize = 64;

/// Why a frame was refused.
#[derive(Debug, Clone, Copy, PartialEq, Eq, Structural)]
pub enum Reject {
    /// Not a TESLA-class frame; this path does not handle it.
    WrongClass,
    /// No pinned cert for this sender fingerprint.
    UnknownSender,
    /// Failed the security condition — its key could already be public.
    TooLate,
    /// Attached disclosure did not chain to the anchor, or did not advance it.
    BadDisclosure,
}

/// What happened to a received frame.
#[derive(Debug, Clone, Copy, PartialEq, Eq, Structural)]
pub enum Outcome {
    /// Refused before anything was buffered.
    Rejected(Reject),
    /// Taken in. A frame can buffer itself and release earlier frames at once.
    Accepted {
        /// Whether any frame is still awaiting its key.
        buffered: bool,
        /// Buffered frames verified and merged by this frame's disclosure.
        merged: usize,
        /// Buffered frames whose MAC failed — forgeries, dropped.
        failed_mac: usize,
    },
}

// ---------------------------------------------------------------------------
// Sending
// ---------------------------------------------------------------------------

/// Sending side of a TESLA session.
pub struct Sender {
    id: AuthorId,
    chain: Chain,
    schedule: Schedule,
    seq: u32,
    disclosed_in: Option<u32>,
}

/// The state of a sender: identity, chain keys, schedule, last sequence
/// number used, and the interval whose disclosure was last attached.
pub struct SenderModel {
    pub id: AuthorId,
    pub chain: Seq<Seq<u8>>,
    pub schedule: Schedule,
    pub seq: u32,
    pub disclosed_in: Option<u32>,
}

impl View for Sender {
    type V = SenderModel;

    closed spec fn view(&self) -> SenderModel {
        SenderModel {
            id: self.id,
            chain: self.chain@,
            schedule: self.schedule,
            seq: self.seq,
            disclosed_in: self.disclosed_in,
        }
    }
}

/// The interval whose key a beacon sent in `interval` discloses, if any:
/// once per interval, only when `interval - delay` exists and is not 0 (the
/// commitment, already public).
pub open spec fn disclosure_target(s: SenderModel, interval: u32) -> Option<u32> {
    if s.disclosed_in != Some(interval) && interval >= s.schedule.disclosure_delay && interval
        - s.schedule.disclosure_delay > 0 {
        Some((interval - s.schedule.disclosure_delay) as u32)
    } else {
        None
    }
}

/// The next sequence number: one more, wrapping at `u32::MAX`.
pub open spec fn next_seq(seq: u32) -> u32 {
    if seq == u32::MAX { 0 } else { (seq + 1) as u32 }
}

/// The MAC'd part of a TESLA frame: header, flags, sequence, kind, payload.
pub open spec fn authed_bytes(sender: AuthorId, interval: u32, disclose: bool, seq: u32, kind: FactKind, payload: Seq<u8>) -> Seq<u8> {
    header_bytes(Header { class: Class::Tesla, sender, interval }) + seq![
        if disclose { FLAG_DISCLOSURE } else { 0u8 },
    ] + be32(seq) + be16(kind) + payload
}

/// What sending a beacon does: the sender's next state and the frame, or
/// the error when the interval lies beyond the chain (the sequence number
/// has then still advanced).
pub open spec fn beacon_spec(s: SenderModel, kind: FactKind, payload: Seq<u8>, now_ms: u64) -> (SenderModel, Result<Seq<u8>, Error>) {
    let interval = interval_at_spec(s.schedule, now_ms);
    let seq = next_seq(s.seq);
    let target = disclosure_target(s, interval);
    let advanced = SenderModel { seq, ..s };
    if interval >= s.chain.len() {
        (advanced, Err(Error::IntervalOutOfRange { interval, max: (s.chain.len() - 1) as u32 }))
    } else {
        let authed = authed_bytes(s.id, interval, target is Some, seq, kind, payload);
        let tagged = authed + mac_spec(mac_key_spec(s.chain[interval as int]), authed);
        match target {
            None => (advanced, Ok(tagged)),
            Some(t) => (SenderModel { disclosed_in: Some(interval), ..advanced }, Ok(tagged + s.chain[t as int])),
        }
    }
}

/// What a receiver reads out of a frame: the TESLA header of `sender` and
/// `interval`, the trailer split into `tag` and `disclosure` by the flag
/// byte, the MAC'd bytes in front of the trailer, and from those the
/// author, sequence number, kind and payload.
pub open spec fn frame_reads_as(
    frame: Seq<u8>,
    sender: AuthorId,
    interval: u32,
    seq: u32,
    kind: FactKind,
    payload: Seq<u8>,
    tag: Seq<u8>,
    disclosure: Option<Seq<u8>>,
) -> bool {
    let authed = authed_bytes(sender, interval, disclosure is Some, seq, kind, payload);
    &&& decode_header_spec(frame) == Ok::<Header, Error>(Header { class: Class::Tesla, sender, interval })
    &&& split_trailer_spec(frame.skip(HEADER_LEN as int)) == Ok::<(Seq<u8>, Option<Seq<u8>>), Error>((tag, disclosure))
    &&& frame.take(frame.len() - trailer_len_spec(disclosure is Some)) == authed
    &&& parse_body_spec(authed) == Some((sender, seq, kind, payload))
}

/// The key a beacon sent in `interval` attaches, if any.
pub open spec fn beacon_disclosure(s: SenderModel, interval: u32) -> Option<Seq<u8>> {
    match disclosure_target(s, interval) {
        Some(t) => Some(s.chain[t as int]),
        None => None,
    }
}

/// What a receiver reads out of the frame `beacon` sends: the sender's
/// header for the current interval, the next sequence number, the kind and
/// payload, the MAC under the interval's key, and the attached key if any.
pub open spec fn beacon_reads_as(s: SenderModel, kind: FactKind, payload: Seq<u8>, now_ms: u64, frame: Seq<u8>) -> bool {
    let interval = interval_at_spec(s.schedule, now_ms);
    let seq = next_seq(s.seq);
    let disclosure = beacon_disclosure(s, interval);
    let authed = authed_bytes(s.id, interval, disclosure is Some, seq, kind, payload);
    frame_reads_as(frame, s.id, interval, seq, kind, payload, mac_spec(mac_key_spec(s.chain[interval as int]), authed), disclosure)
}

proof fn lemma_header_prefix(h: Header, rest: Seq<u8>)
    ensures
        decode_header_spec(header_bytes(h) + rest) == Ok::<Header, Error>(h),
        (header_bytes(h) + rest).skip(HEADER_LEN as int) == rest,
{
    lemma_header_roundtrip(h);
    let b = header_bytes(h);
    let f = b + rest;
    assert(f[0] == b[0]);
    assert(f.subrange(1, 9) =~= b.subrange(1, 9));
    assert(f[9] == b[9] && f[10] == b[10] && f[11] == b[11] && f[12] == b[12]);
    assert(f.skip(HEADER_LEN as int) =~= rest);
}

/// A frame built from a header, a body, a 16-byte tag and an optional
/// 32-byte key reads back as exactly those parts.
pub proof fn lemma_frame_reads_back(
    sender: AuthorId,
    interval: u32,
    seq: u32,
    kind: FactKind,
    payload: Seq<u8>,
    tag: Seq<u8>,
    disclosure: Option<Seq<u8>>,
)
    requires
        tag.len() == MAC_LEN,
        disclosure matches Some(k) ==> k.len() == KEY_LEN,
    ensures
        ({
            let authed = authed_bytes(sender, interval, disclosure is Some, seq, kind, payload);
            let frame = authed + tag + match disclosure {
                Some(k) => k,
                None => Seq::empty(),
            };
            frame_reads_as(frame, sender, interval, seq, kind, payload, tag, disclosure)
        }),
{
    let h = Header { class: Class::Tesla, sender, interval };
    let flag: u8 = if disclosure is Some { FLAG_DISCLOSURE } else { 0u8 };
    let body = seq![flag] + be32(seq) + be16(kind) + payload;
    let authed = authed_bytes(sender, interval, disclosure is Some, seq, kind, payload);
    assert(authed =~= header_bytes(h) + body);
    let d = match disclosure {
        Some(k) => k,
        None => Seq::empty(),
    };
    let frame = authed + tag + d;
    assert(frame =~= header_bytes(h) + (body + tag + d));
    lemma_header_prefix(h, body + tag + d);
    lemma_header_prefix(h, body);
    let fb = body + tag + d;
    assert((1u8 & 1u8) != 0u8 && (0u8 & 1u8) == 0u8) by (bit_vector);
    assert(fb[0] == flag);
    let tl = trailer_len_spec(disclosure is Some);
    let cut = fb.len() - tl;
    assert(cut == body.len());
    assert(fb.subrange(cut, cut + MAC_LEN) =~= tag);
    if disclosure is Some {
        assert(fb.subrange(cut + MAC_LEN, fb.len() as int) =~= d);
    }
    assert(frame.take(frame.len() - tl) =~= authed);
    lemma_be32_roundtrip(seq);
    lemma_be16_roundtrip(kind);
    assert(body[1] == be32(seq)[0] && body[2] == be32(seq)[1] && body[3] == be32(seq)[2] && body[4] == be32(seq)[3]);
    assert(body[5] == be16(kind)[0] && body[6] == be16(kind)[1]);
    assert(body.skip(BODY_LEN as int) =~= payload);
}

impl Sender {
    /// Build a sender from its identity, key chain, and schedule.
    pub fn new(id: AuthorId, chain: Chain, schedule: Schedule) -> (s: Self)
        ensures
            s@ == (SenderModel { id, chain: chain@, schedule, seq: 0, disclosed_in: None }),
    {
        Self { id, chain, schedule, seq: 0, disclosed_in: None }
    }

    /// The commitment peers must pin before they can verify anything.
    pub fn commitment(&self) -> (k: ChainKey)
        ensures
            k@ == self@.chain[0],
    {
        self.chain.commitment()
    }

    /// Sequence number most recently used.
    pub fn seq(&self) -> (s: u32)
        ensures
            s == self@.seq,
    {
        self.seq
    }

    /// Build an authenticated beacon frame.
    ///
    /// Sequence numbers advance per message and are what let a receiver drop
    /// replays and out-of-order deliveries.
    pub fn beacon(&mut self, kind: FactKind, payload: &[u8], now_ms: u64) -> (res: Result<Vec<u8>, Error>)
        requires
            old(self)@.schedule.interval_ms > 0,
        ensures
            final(self)@ == beacon_spec(old(self)@, kind, payload@, now_ms).0,
            match res {
                Ok(f) => beacon_spec(old(self)@, kind, payload@, now_ms).1 == Ok::<Seq<u8>, Error>(f@),
                Err(e) => beacon_spec(old(self)@, kind, payload@, now_ms).1 == Err::<Seq<u8>, Error>(e),
            },
            res matches Ok(f) ==> beacon_reads_as(old(self)@, kind, payload@, now_ms, f@),
    {
        let interval = self.schedule.interval_at(now_ms);
        self.seq = if self.seq == u32::MAX { 0 } else { self.seq + 1 };

        let delay = self.schedule.disclosure_delay;
        let disclose: Option<u32> = if self.disclosed_in != Some(interval) && interval >= delay && interval
            - delay > 0 {
            Some(interval - delay)
        } else {
            None
        };
        let ghost target = disclosure_target(old(self)@, interval);
        assert(disclose == target);

        let mut frame: Vec<u8> = Vec::new();
        let header = Header::new(Class::Tesla, self.id, interval).encode();
        push_all(&mut frame, &header);
        frame.push(if disclose.is_some() { FLAG_DISCLOSURE } else { 0 });
        push_all(&mut frame, &u32_to_be(self.seq));
        push_all(&mut frame, &u16_to_be(kind));
        push_all(&mut frame, payload);
        assert(frame@ =~= authed_bytes(self.id, interval, disclose is Some, self.seq, kind, payload@));

        let mk = match self.chain.mac_key(interval) {
            Ok(k) => k,
            Err(e) => return Err(e),
        };
        let tag = chain::mac(&mk, frame.as_slice());
        let ghost authed = frame@;
        push_all(&mut frame, &tag);

        match disclose {
            Some(t) => {
                let k = match self.chain.key(t) {
                    Ok(k) => k,
                    Err(e) => return Err(e),
                };
                push_all(&mut frame, &k);
                self.disclosed_in = Some(interval);
                proof {
                    lemma_frame_reads_back(old(self)@.id, interval, self.seq, kind, payload@, tag@, Some(k@));
                }
            },
            None => {
                proof {
                    lemma_frame_reads_back(old(self)@.id, interval, self.seq, kind, payload@, tag@, None);
                    assert(frame@ =~= authed + tag@ + Seq::<u8>::empty());
                }
            },
        }
        Ok(frame)
    }
}

// ---------------------------------------------------------------------------
// Receiving
// ---------------------------------------------------------------------------

struct Pending {
    interval: u32,
    /// The exact bytes the MAC covers.
    authed: Vec<u8>,
    tag: Mac,
    /// When the frame arrived, as the receiver bounded it.
    arrival: Ghost<TimeBound>,
}

struct Peer {
    anchor: ChainKey,
    anchor_interval: u32,
    pending: Vec<Pending>,
}

/// A buffered frame: its interval, the bytes its MAC covers, its tag, and
/// the receiver's bound on when it arrived.
pub struct PendingModel {
    pub interval: u32,
    pub authed: Seq<u8>,
    pub tag: Seq<u8>,
    pub arrival: TimeBound,
}

/// A pinned peer: the latest verified chain key and its interval, and the
/// frames buffered awaiting their keys, oldest first.
pub struct PeerModel {
    pub anchor: Seq<u8>,
    pub anchor_interval: u32,
    pub pending: Seq<PendingModel>,
}

spec fn pending_model(p: Pending) -> PendingModel {
    PendingModel { interval: p.interval, authed: p.authed@, tag: p.tag@, arrival: p.arrival@ }
}

spec fn peer_model(p: Peer) -> PeerModel {
    PeerModel {
        anchor: p.anchor@,
        anchor_interval: p.anchor_interval,
        pending: Seq::new(p.pending@.len(), |i: int| pending_model(p.pending@[i])),
    }
}

/// The state of a receiver: its schedule, its pinned peers, and its store.
pub struct ReceiverModel {
    pub schedule: Schedule,
    pub peers: Map<AuthorId, PeerModel>,
    pub store: Map<(AuthorId, FactKind), (u64, Seq<u8>)>,
}

/// Receiving side: verifies frames and merges them into a [`Store`].
///
/// The pinned peers are held in a `Vec` of pairs whose author ids never
/// repeat (stated as the type's invariant) rather than in a `BTreeMap`:
/// receiving updates a peer in place, which on a `BTreeMap` takes
/// `get_mut`, a call vstd gives no contract, and vstd orders no array key
/// such as an [`AuthorId`].
pub struct Receiver {
    schedule: Schedule,
    peers: Vec<(AuthorId, Peer)>,
    store: Store,
}

spec fn ids_unique(s: Seq<(AuthorId, Peer)>) -> bool {
    forall|i: int, j: int| 0 <= i < j < s.len() ==> s[i].0 != s[j].0
}

spec fn has_id(s: Seq<(AuthorId, Peer)>, a: AuthorId) -> bool {
    exists|i: int| 0 <= i < s.len() && s[i].0 == a
}

spec fn index_of(s: Seq<(AuthorId, Peer)>, a: AuthorId) -> int {
    choose|i: int| 0 <= i < s.len() && s[i].0 == a
}

spec fn peers_map(s: Seq<(AuthorId, Peer)>) -> Map<AuthorId, PeerModel> {
    Map::new(|a: AuthorId| has_id(s, a), |a: AuthorId| peer_model(s[index_of(s, a)].1))
}

proof fn lemma_peers_get(s: Seq<(AuthorId, Peer)>, i: int)
    requires
        ids_unique(s),
        0 <= i < s.len(),
    ensures
        peers_map(s).contains_key(s[i].0),
        peers_map(s)[s[i].0] == peer_model(s[i].1),
{
    assert(has_id(s, s[i].0));
    let j = index_of(s, s[i].0);
    if j != i {
        if j < i {
            assert(s[j].0 != s[i].0);
        } else {
            assert(s[i].0 != s[j].0);
        }
    }
}

proof fn lemma_peers_update(s: Seq<(AuthorId, Peer)>, i: int, p: Peer)
    requires
        ids_unique(s),
        0 <= i < s.len(),
    ensures
        ids_unique(s.update(i, (s[i].0, p))),
        peers_map(s.update(i, (s[i].0, p))) == peers_map(s).insert(s[i].0, peer_model(p)),
{
    let t = s.update(i, (s[i].0, p));
    assert(ids_unique(t)) by {
        assert forall|a: int, b: int| 0 <= a < b < t.len() implies t[a].0 != t[b].0 by {
            assert(s[a].0 != s[b].0);
        }
    }
    let m = peers_map(s).insert(s[i].0, peer_model(p));
    assert forall|a: AuthorId| #[trigger] peers_map(t).contains_key(a) == m.contains_key(a) by {
        if has_id(s, a) {
            let j = index_of(s, a);
            assert(t[j].0 == a);
        }
        if has_id(t, a) {
            let j = index_of(t, a);
            assert(s[j].0 == a);
        }
    }
    assert forall|a: AuthorId| #[trigger] peers_map(t).contains_key(a) implies peers_map(t)[a] == m[a] by {
        let j = index_of(t, a);
        if a == s[i].0 {
            lemma_peers_get(t, i);
        } else {
            lemma_peers_get(t, j);
            lemma_peers_get(s, j);
            assert(j != i);
        }
    }
    assert(peers_map(t) =~= m);
}

proof fn lemma_peers_push(s: Seq<(AuthorId, Peer)>, id: AuthorId, p: Peer)
    requires
        ids_unique(s),
        !has_id(s, id),
    ensures
        ids_unique(s.push((id, p))),
        peers_map(s.push((id, p))) == peers_map(s).insert(id, peer_model(p)),
{
    let t = s.push((id, p));
    assert(ids_unique(t)) by {
        assert forall|a: int, b: int| 0 <= a < b < t.len() implies t[a].0 != t[b].0 by {
            if b < s.len() {
                assert(s[a].0 != s[b].0);
            } else {
                assert(t[a] == s[a]);
            }
        }
    }
    let m = peers_map(s).insert(id, peer_model(p));
    assert forall|a: AuthorId| #[trigger] peers_map(t).contains_key(a) == m.contains_key(a) by {
        if has_id(s, a) {
            let j = index_of(s, a);
            assert(t[j].0 == a);
        }
        if has_id(t, a) && a != id {
            let j = index_of(t, a);
            assert(s[j].0 == a);
        }
        if a == id {
            assert(t[s.len() as int].0 == a);
        }
    }
    assert forall|a: AuthorId| #[trigger] peers_map(t).contains_key(a) implies peers_map(t)[a] == m[a] by {
        if a == id {
            lemma_peers_get(t, s.len() as int);
        } else {
            let j = index_of(s, a);
            lemma_peers_get(s, j);
            assert(t[j] == s[j]);
            lemma_peers_get(t, j);
        }
    }
    assert(peers_map(t) =~= m);
}

/// Every pinned peer buffers at most [`MAX_PENDING`] frames.
pub open spec fn buffers_bounded(r: ReceiverModel) -> bool {
    forall|id: AuthorId| #[trigger] r.peers.contains_key(id) ==> r.peers[id].pending.len() <= MAX_PENDING
}

proof fn lemma_peers_bounded(s: Seq<(AuthorId, Peer)>)
    requires
        ids_unique(s),
        forall|i: int| 0 <= i < s.len() ==> (#[trigger] s[i]).1.pending@.len() <= MAX_PENDING,
    ensures
        forall|id: AuthorId| #[trigger] peers_map(s).contains_key(id) ==> peers_map(s)[id].pending.len()
            <= MAX_PENDING,
{
    assert forall|id: AuthorId| #[trigger] peers_map(s).contains_key(id) implies peers_map(s)[id].pending.len()
        <= MAX_PENDING by {
        let j = index_of(s, id);
        lemma_peers_get(s, j);
    }
}

impl View for Receiver {
    type V = ReceiverModel;

    closed spec fn view(&self) -> ReceiverModel {
        ReceiverModel { schedule: self.schedule, peers: peers_map(self.peers@), store: self.store@ }
    }
}

/// Length of the trailer given whether a disclosure is attached.
pub open spec fn trailer_len_spec(has_disclosure: bool) -> int {
    if has_disclosure { TRAILER_MAC_DISCLOSURE as int } else { TRAILER_MAC as int }
}

/// Splitting the trailer off a frame body using the flag byte: the tag, and
/// the disclosed key when the flag announces one.
pub open spec fn split_trailer_spec(body: Seq<u8>) -> Result<(Seq<u8>, Option<Seq<u8>>), Error> {
    if body.len() == 0 {
        Err(Error::Truncated { need: 23, got: 0 })
    } else {
        let has = body[0] & FLAG_DISCLOSURE != 0;
        let need = BODY_LEN + trailer_len_spec(has);
        if body.len() < need {
            Err(Error::Truncated { need: need as usize, got: body.len() as usize })
        } else {
            let cut = body.len() - trailer_len_spec(has);
            Ok(
                (
                    body.subrange(cut, cut + MAC_LEN),
                    if has { Some(body.subrange(cut + MAC_LEN, body.len() as int)) } else { None },
                ),
            )
        }
    }
}

/// Author, sequence number, kind and payload of the MAC'd bytes of a frame.
pub open spec fn parse_body_spec(authed: Seq<u8>) -> Option<(AuthorId, u32, FactKind, Seq<u8>)> {
    match decode_header_spec(authed) {
        Err(_) => None,
        Ok(h) => {
            let body = authed.skip(HEADER_LEN as int);
            if body.len() < BODY_LEN {
                None
            } else {
                Some((h.sender, read_be32(body, 1), read_be16(body, 5), body.skip(BODY_LEN as int)))
            }
        },
    }
}

/// The state threaded through draining a peer's buffer.
pub struct DrainState {
    pub kept: Seq<PendingModel>,
    pub store: Map<(AuthorId, FactKind), (u64, Seq<u8>)>,
    pub merged: nat,
    pub failed: nat,
}

/// One buffered frame against the anchor `(anchor, anchor_interval)`: kept
/// if its key is still in the future; otherwise dropped, counted as failed
/// when its MAC does not verify or its body does not parse, and merged into
/// the store when it does (counted when the merge applies).
pub open spec fn drain_step(st: DrainState, p: PendingModel, anchor: Seq<u8>, anchor_interval: u32) -> DrainState {
    match key_from_anchor_spec(anchor, anchor_interval, p.interval) {
        None => DrainState { kept: st.kept.push(p), ..st },
        Some(k) => if p.tag != mac_spec(mac_key_spec(k), p.authed) {
            DrainState { failed: st.failed + 1, ..st }
        } else {
            match parse_body_spec(p.authed) {
                None => DrainState { failed: st.failed + 1, ..st },
                Some((author, seq, kind, payload)) => DrainState {
                    store: merge_spec(st.store, (author, kind), seq as u64, payload),
                    merged: if merge_applies(st.store, (author, kind), seq as u64) {
                        st.merged + 1
                    } else {
                        st.merged
                    },
                    ..st
                },
            }
        },
    }
}

/// Draining the first `n` buffered frames, in order.
pub open spec fn drain_spec(
    pending: Seq<PendingModel>,
    n: nat,
    anchor: Seq<u8>,
    anchor_interval: u32,
    store: Map<(AuthorId, FactKind), (u64, Seq<u8>)>,
) -> DrainState
    decreases n,
{
    if n == 0 {
        DrainState { kept: Seq::empty(), store, merged: 0, failed: 0 }
    } else {
        drain_step(
            drain_spec(pending, (n - 1) as nat, anchor, anchor_interval, store),
            pending[n - 1],
            anchor,
            anchor_interval,
        )
    }
}

/// The buffer after appending a frame, dropping the oldest when full.
pub open spec fn buffered_spec(pending: Seq<PendingModel>, p: PendingModel) -> Seq<PendingModel> {
    if pending.len() >= MAX_PENDING {
        pending.drop_first().push(p)
    } else {
        pending.push(p)
    }
}

/// What receiving `frame` at `arrival` does: the receiver's next state and
/// the result, in the normative order — decode the header, look up the
/// sender, dispatch on class, split the trailer, check the security
/// condition, validate any disclosure, buffer, then (given a valid
/// disclosure) re-anchor and drain the buffer into the store.
pub open spec fn recv_spec(r: ReceiverModel, frame: Seq<u8>, arrival: TimeBound) -> (ReceiverModel, Result<Outcome, Error>) {
    match decode_header_spec(frame) {
        Err(e) => (r, Err(e)),
        Ok(h) => if !r.peers.contains_key(h.sender) {
            (r, Ok(Outcome::Rejected(Reject::UnknownSender)))
        } else if h.class != Class::Tesla {
            (r, Ok(Outcome::Rejected(Reject::WrongClass)))
        } else {
            match split_trailer_spec(frame.skip(HEADER_LEN as int)) {
                Err(e) => (r, Err(e)),
                Ok((_, _)) if !security_condition_spec(r.schedule, h.interval, arrival) => (
                    r,
                    Ok(Outcome::Rejected(Reject::TooLate)),
                ),
                Ok((tag, disclosure)) => {
                    let peer = r.peers[h.sender];
                    let authed = frame.take(frame.len() - trailer_len_spec(disclosure is Some));
                    let p = PendingModel { interval: h.interval, authed, tag, arrival };
                    let pending = buffered_spec(peer.pending, p);
                    match disclosure {
                        None => (
                            ReceiverModel {
                                peers: r.peers.insert(h.sender, PeerModel { pending, ..peer }),
                                ..r
                            },
                            Ok(Outcome::Accepted { buffered: true, merged: 0, failed_mac: 0 }),
                        ),
                        Some(key) => if h.interval < r.schedule.disclosure_delay || !disclosure_ok(
                            peer.anchor,
                            peer.anchor_interval,
                            (h.interval - r.schedule.disclosure_delay) as u32,
                            key,
                        ) {
                            (r, Ok(Outcome::Rejected(Reject::BadDisclosure)))
                        } else {
                            let target = (h.interval - r.schedule.disclosure_delay) as u32;
                            let d = drain_spec(pending, pending.len(), key, target, r.store);
                            (
                                ReceiverModel {
                                    peers: r.peers.insert(
                                        h.sender,
                                        PeerModel { anchor: key, anchor_interval: target, pending: d.kept },
                                    ),
                                    store: d.store,
                                    ..r
                                },
                                Ok(
                                    Outcome::Accepted {
                                        buffered: d.kept.len() > 0,
                                        merged: d.merged as usize,
                                        failed_mac: d.failed as usize,
                                    },
                                ),
                            )
                        },
                    }
                },
            }
        },
    }
}

spec fn peers_frames_ok(schedule: Schedule, s: Seq<(AuthorId, Peer)>) -> bool {
    forall|i: int, k: int|
        #![trigger s[i].1.pending@[k]]
        0 <= i < s.len() && 0 <= k < s[i].1.pending@.len() ==> pending_ok_for(
            schedule,
            s[i].0,
            pending_model(s[i].1.pending@[k]),
        )
}

proof fn lemma_peers_frames_model(
    schedule: Schedule,
    s: Seq<(AuthorId, Peer)>,
    store: Map<(AuthorId, FactKind), (u64, Seq<u8>)>,
)
    requires
        ids_unique(s),
    ensures
        peers_frames_ok(schedule, s) <==> buffered_frames_ok(ReceiverModel { schedule, peers: peers_map(s), store }),
{
    let r = ReceiverModel { schedule, peers: peers_map(s), store };
    if peers_frames_ok(schedule, s) {
        assert forall|id: AuthorId, k: int|
            #![trigger r.peers[id].pending[k]]
            r.peers.contains_key(id) && 0 <= k < r.peers[id].pending.len() implies pending_ok_for(
            r.schedule,
            id,
            r.peers[id].pending[k],
        ) by {
            let i = index_of(s, id);
            lemma_peers_get(s, i);
            assert(r.peers[id].pending[k] == pending_model(s[i].1.pending@[k]));
        }
    }
    if buffered_frames_ok(r) {
        assert forall|i: int, k: int|
            #![trigger s[i].1.pending@[k]]
            0 <= i < s.len() && 0 <= k < s[i].1.pending@.len() implies pending_ok_for(
            schedule,
            s[i].0,
            pending_model(s[i].1.pending@[k]),
        ) by {
            lemma_peers_get(s, i);
            assert(r.peers[s[i].0].pending[k] == pending_model(s[i].1.pending@[k]));
        }
    }
}

impl Receiver {
    /// Peer ids are unique, every buffer is bounded, and every buffered
    /// frame was taken in on time and carries its peer's header.
    #[verifier::type_invariant]
    spec fn inv(&self) -> bool {
        &&& ids_unique(self.peers@)
        &&& forall|i: int| 0 <= i < self.peers@.len() ==> (#[trigger] self.peers@[i]).1.pending@.len()
            <= MAX_PENDING
        &&& peers_frames_ok(self.schedule, self.peers@)
    }

    /// A receiver with no peers pinned. It rejects everything until one is.
    pub fn new(schedule: Schedule) -> (r: Self)
        ensures
            r@.schedule == schedule,
            r@.peers == Map::<AuthorId, PeerModel>::empty(),
            r@.store == Map::<(AuthorId, FactKind), (u64, Seq<u8>)>::empty(),
            buffers_bounded(r@),
            buffered_frames_ok(r@),
    {
        let r = Self { schedule, peers: Vec::new(), store: Store::new() };
        assert(peers_map(r.peers@) =~= Map::<AuthorId, PeerModel>::empty());
        r
    }

    fn find_peer(&self, id: &AuthorId) -> (res: Option<usize>)
        ensures
            match res {
                Some(i) => i < self.peers@.len() && self.peers@[i as int].0 == *id,
                None => !has_id(self.peers@, *id),
            },
    {
        let mut i: usize = 0;
        while i < self.peers.len()
            invariant
                i <= self.peers@.len(),
                forall|j: int| 0 <= j < i ==> (#[trigger] self.peers@[j]).0 != *id,
            decreases self.peers@.len() - i,
        {
            if eq8(&self.peers[i].0, id) {
                return Some(i);
            }
            i = i + 1;
        }
        None
    }

    /// Pin a peer's TESLA commitment, taken from a cert verified out of band.
    ///
    /// Nothing from an unpinned sender is ever accepted. Pinning a peer that
    /// is already pinned starts it afresh at its commitment.
    pub fn add_peer(&mut self, id: AuthorId, tesla_root: ChainKey)
        ensures
            final(self)@ == (ReceiverModel {
                peers: old(self)@.peers.insert(
                    id,
                    PeerModel { anchor: tesla_root@, anchor_interval: 0, pending: Seq::empty() },
                ),
                ..old(self)@
            }),
            buffers_bounded(final(self)@),
            buffered_frames_ok(final(self)@),
    {
        proof {
            use_type_invariant(&*self);
        }
        let peer = Peer { anchor: tesla_root, anchor_interval: 0, pending: Vec::new() };
        proof {
            assert(peer_model(peer).pending =~= Seq::<PendingModel>::empty());
        }
        let mut peers: Vec<(AuthorId, Peer)> = Vec::new();
        std::mem::swap(&mut peers, &mut self.peers);
        let ghost old_peers = peers@;
        match self.find_peer_in(&peers, &id) {
            Some(i) => {
                proof {
                    lemma_peers_update(old_peers, i as int, peer);
                }
                peers.set(i, (id, peer));
                assert(peers@ == old_peers.update(i as int, (old_peers[i as int].0, peer)));
            },
            None => {
                proof {
                    lemma_peers_push(old_peers, id, peer);
                }
                peers.push((id, peer));
            },
        }
        proof {
            assert forall|i: int| 0 <= i < peers@.len() implies (#[trigger] peers@[i]).1.pending@.len()
                <= MAX_PENDING by {
                if i < old_peers.len() && peers@[i] == old_peers[i] {
                    assert(old_peers[i].1.pending@.len() <= MAX_PENDING);
                }
            }
        }
        proof {
            lemma_peers_bounded(peers@);
            assert forall|i: int, k: int|
                #![trigger peers@[i].1.pending@[k]]
                0 <= i < peers@.len() && 0 <= k < peers@[i].1.pending@.len() implies pending_ok_for(
                self.schedule,
                peers@[i].0,
                pending_model(peers@[i].1.pending@[k]),
            ) by {
                assert(peers@[i] == old_peers[i]);
                assert(pending_ok_for(self.schedule, old_peers[i].0, pending_model(old_peers[i].1.pending@[k])));
            }
        }
        self.peers = peers;
        proof {
            lemma_peers_frames_model(self.schedule, self.peers@, self.store@);
        }
    }

    fn find_peer_in(&self, peers: &Vec<(AuthorId, Peer)>, id: &AuthorId) -> (res: Option<usize>)
        ensures
            match res {
                Some(i) => i < peers@.len() && peers@[i as int].0 == *id,
                None => !has_id(peers@, *id),
            },
    {
        let mut i: usize = 0;
        while i < peers.len()
            invariant
                i <= peers@.len(),
                forall|j: int| 0 <= j < i ==> (#[trigger] peers@[j]).0 != *id,
            decreases peers@.len() - i,
        {
            if eq8(&peers[i].0, id) {
                return Some(i);
            }
            i = i + 1;
        }
        None
    }

    /// The merged view of everything verified so far.
    pub fn store(&self) -> (s: &Store)
        ensures
            s@ == self@.store,
    {
        &self.store
    }

    /// Frames currently buffered for a peer, awaiting disclosure.
    pub fn pending(&self, id: &AuthorId) -> (n: usize)
        ensures
            n == if self@.peers.contains_key(*id) { self@.peers[*id].pending.len() } else { 0 },
    {
        proof {
            use_type_invariant(self);
        }
        match self.find_peer(id) {
            Some(i) => {
                proof {
                    lemma_peers_get(self.peers@, i as int);
                }
                self.peers[i].1.pending.len()
            },
            None => 0,
        }
    }

    /// Process one received frame.
    ///
    /// `arrival` is the receiver's *bounded* estimate of when this frame
    /// arrived, on the sender's timeline. Supplying an over-confident bound
    /// silently disables the only thing making the MAC meaningful.
    pub fn recv(&mut self, frame: &[u8], arrival: TimeBound) -> (res: Result<Outcome, Error>)
        ensures
            final(self)@ == recv_spec(old(self)@, frame@, arrival).0,
            res == recv_spec(old(self)@, frame@, arrival).1,
            buffers_bounded(final(self)@),
            buffered_frames_ok(final(self)@),
    {
        proof {
            use_type_invariant(&*self);
            lemma_peers_bounded(self.peers@);
            lemma_peers_frames_model(self.schedule, self.peers@, self.store@);
        }
        let ghost r0 = self@;
        let (header, body) = match Header::decode(frame) {
            Ok(x) => x,
            Err(e) => return Err(e),
        };
        let idx = match self.find_peer(&header.sender) {
            Some(i) => i,
            None => return Ok(Outcome::Rejected(Reject::UnknownSender)),
        };
        proof {
            lemma_peers_get(self.peers@, idx as int);
        }
        if header.class != Class::Tesla {
            return Ok(Outcome::Rejected(Reject::WrongClass));
        }
        let (tag, disclosure) = match split_trailer(body) {
            Ok(x) => x,
            Err(e) => return Err(e),
        };
        if !security_condition(&self.schedule, header.interval, &arrival) {
            return Ok(Outcome::Rejected(Reject::TooLate));
        }
        let tl = trailer_len(disclosure.is_some());
        let authed = &frame[0..frame.len() - tl];
        assert(authed@ =~= frame@.take(frame@.len() - trailer_len_spec(disclosure is Some)));

        // Validate any disclosure before buffering, so a frame carrying a
        // forged key is dropped whole rather than half-accepted.
        let delay = self.schedule.disclosure_delay;
        let advance: Option<(u32, ChainKey)> = match disclosure {
            None => None,
            Some(key) => {
                if header.interval < delay {
                    return Ok(Outcome::Rejected(Reject::BadDisclosure));
                }
                let target = header.interval - delay;
                let peer = &self.peers[idx].1;
                if !chain::verify_disclosure(&peer.anchor, peer.anchor_interval, target, &key) {
                    return Ok(Outcome::Rejected(Reject::BadDisclosure));
                }
                Some((target, key))
            },
        };

        let mut peers: Vec<(AuthorId, Peer)> = Vec::new();
        std::mem::swap(&mut peers, &mut self.peers);
        let ghost old_peers = peers@;
        let (id, mut peer) = peers.remove(idx);
        let ghost old_peer = peer;
        let ghost peer_m = peer_model(peer);
        let p = Pending { interval: header.interval, authed: to_vec(authed), tag, arrival: Ghost(arrival) };
        if peer.pending.len() >= MAX_PENDING {
            peer.pending.remove(0);
        }
        peer.pending.push(p);
        proof {
            assert(peer_model(peer).pending =~= buffered_spec(peer_m.pending, pending_model(p)));
        }

        let outcome = match advance {
            None => Outcome::Accepted { buffered: true, merged: 0, failed_mac: 0 },
            Some((target, key)) => {
                peer.anchor = key;
                peer.anchor_interval = target;
                let mut store = Store::new();
                std::mem::swap(&mut store, &mut self.store);
                let (merged, failed_mac) = drain(&mut peer, &mut store);
                self.store = store;
                Outcome::Accepted { buffered: peer.pending.len() > 0, merged, failed_mac }
            },
        };
        let ghost new_peer = peer;
        peers.insert(idx, (id, peer));
        proof {
            assert(peers@ =~= old_peers.update(idx as int, (old_peers[idx as int].0, new_peer)));
            lemma_peers_update(old_peers, idx as int, new_peer);
            assert forall|i: int| 0 <= i < peers@.len() implies (#[trigger] peers@[i]).1.pending@.len()
                <= MAX_PENDING by {
                if i != idx {
                    assert(peers@[i] == old_peers[i]);
                }
            }
        }
        proof {
            lemma_peers_bounded(peers@);
            lemma_recv_keeps_buffered_frames_ok(r0, frame@, arrival);
            assert(recv_spec(r0, frame@, arrival).0 == (ReceiverModel {
                schedule: self.schedule,
                peers: peers_map(peers@),
                store: self.store@,
            }));
            lemma_peers_frames_model(self.schedule, peers@, self.store@);
        }
        self.peers = peers;
        Ok(outcome)
    }
}

/// Verify and merge every buffered frame whose key is now derivable.
fn drain(peer: &mut Peer, store: &mut Store) -> (counts: (usize, usize))
    requires
        old(peer).pending@.len() <= MAX_PENDING,
    ensures
        ({
            let d = drain_spec(
                peer_model(*old(peer)).pending,
                old(peer).pending@.len() as nat,
                old(peer).anchor@,
                old(peer).anchor_interval,
                old(store)@,
            );
            &&& peer_model(*final(peer)).pending == d.kept
            &&& final(peer).anchor == old(peer).anchor
            &&& final(peer).anchor_interval == old(peer).anchor_interval
            &&& final(store)@ == d.store
            &&& counts.0 == d.merged
            &&& counts.1 == d.failed
        }),
        final(peer).pending@.len() <= old(peer).pending@.len(),
{
    let anchor = peer.anchor;
    let anchor_interval = peer.anchor_interval;
    let ghost pm = peer_model(*peer).pending;
    let ghost store0 = store@;
    let mut queue: Vec<Pending> = Vec::new();
    std::mem::swap(&mut queue, &mut peer.pending);
    let ghost all = queue@;
    let n = queue.len();
    let mut kept: Vec<Pending> = Vec::new();
    let mut merged: usize = 0;
    let mut failed: usize = 0;
    let mut i: usize = 0;
    while i < n
        invariant
            n == all.len(),
            n <= MAX_PENDING,
            i <= n,
            queue@ == all.skip(i as int),
            pm == Seq::new(all.len(), |j: int| pending_model(all[j])),
            ({
                let d = drain_spec(pm, i as nat, anchor@, anchor_interval, store0);
                &&& Seq::new(kept@.len(), |j: int| pending_model(kept@[j])) == d.kept
                &&& store@ == d.store
                &&& merged == d.merged
                &&& failed == d.failed
            }),
            kept@.len() + merged + failed <= i,
        decreases n - i,
    {
        let p = queue.remove(0);
        proof {
            assert(p == all[i as int]);
            assert(pm[i as int] == pending_model(p));
        }
        let ghost kept_before = Seq::new(kept@.len(), |j: int| pending_model(kept@[j]));
        match chain::key_from_anchor(&anchor, anchor_interval, p.interval) {
            None => {
                kept.push(p);
                proof {
                    assert(Seq::new(kept@.len(), |j: int| pending_model(kept@[j])) =~= kept_before.push(
                        pending_model(p),
                    ));
                }
            },
            Some(key) => {
                let mk = chain::derive_mac_key(&key);
                if !chain::verify_mac(&mk, p.authed.as_slice(), &p.tag) {
                    failed = failed + 1;
                } else {
                    match parse_body(p.authed.as_slice()) {
                        Some((author, seq, kind, payload)) => {
                            if store.merge(author, kind, seq as u64, payload) {
                                merged = merged + 1;
                            }
                        },
                        None => {
                            failed = failed + 1;
                        },
                    }
                }
            },
        }
        i = i + 1;
        proof {
            assert(queue@ =~= all.skip(i as int));
        }
    }
    peer.pending = kept;
    (merged, failed)
}

fn trailer_len(has_disclosure: bool) -> (n: usize)
    ensures
        n == trailer_len_spec(has_disclosure),
{
    if has_disclosure {
        TRAILER_MAC_DISCLOSURE
    } else {
        TRAILER_MAC
    }
}

/// Split the trailer off a frame body using the flag byte.
fn split_trailer(body: &[u8]) -> (res: Result<(Mac, Option<ChainKey>), Error>)
    ensures
        match res {
            Ok((tag, d)) => split_trailer_spec(body@) == Ok::<(Seq<u8>, Option<Seq<u8>>), Error>(
                (
                    tag@,
                    match d {
                        Some(k) => Some(k@),
                        None => None,
                    },
                ),
            ),
            Err(e) => split_trailer_spec(body@) == Err::<(Seq<u8>, Option<Seq<u8>>), Error>(e),
        },
{
    if body.len() == 0 {
        return Err(Error::Truncated { need: 23, got: 0 });
    }
    let has_disclosure = body[0] & FLAG_DISCLOSURE != 0;
    let need = BODY_LEN + trailer_len(has_disclosure);
    if body.len() < need {
        return Err(Error::Truncated { need, got: body.len() });
    }
    let cut = body.len() - trailer_len(has_disclosure);
    let mut tag: [u8; 16] = [0u8; 16];
    let mut i: usize = 0;
    while i < 16
        invariant
            i <= 16,
            cut + 16 <= body@.len(),
            body@.len() == body.len(),
            forall|j: int| 0 <= j < i ==> tag@[j] == body@[cut + j],
        decreases 16 - i,
    {
        tag[i] = body[cut + i];
        i = i + 1;
    }
    assert(tag@ =~= body@.subrange(cut as int, cut + MAC_LEN));
    if has_disclosure {
        let mut key: [u8; 32] = [0u8; 32];
        let mut j: usize = 0;
        while j < 32
            invariant
                j <= 32,
                cut + 48 == body@.len(),
                body@.len() == body.len(),
                forall|x: int| 0 <= x < j ==> key@[x] == body@[cut + 16 + x],
            decreases 32 - j,
        {
            key[j] = body[cut + 16 + j];
            j = j + 1;
        }
        assert(key@ =~= body@.subrange(cut + MAC_LEN, body@.len() as int));
        Ok((tag, Some(key)))
    } else {
        Ok((tag, None))
    }
}

/// Pull author, sequence, kind and payload out of the MAC'd bytes.
fn parse_body(authed: &[u8]) -> (res: Option<(AuthorId, u32, FactKind, &[u8])>)
    ensures
        match res {
            Some((a, s, k, p)) => parse_body_spec(authed@) == Some((a, s, k, p@)),
            None => parse_body_spec(authed@) is None,
        },
{
    let (header, body) = match Header::decode(authed) {
        Ok(x) => x,
        Err(_) => return None,
    };
    if body.len() < BODY_LEN {
        return None;
    }
    let seq = u32_from_be(body[1], body[2], body[3], body[4]);
    let kind = u16_from_be(body[5], body[6]);
    Some((header.sender, seq, kind, &body[BODY_LEN..body.len()]))
}

// ---------------------------------------------------------------------------
// Laws
// ---------------------------------------------------------------------------

/// A refused frame changes nothing: when `recv` errors or rejects, the
/// receiver's peers, buffers and store are exactly as they were.
pub proof fn lemma_refusal_changes_nothing(r: ReceiverModel, frame: Seq<u8>, arrival: TimeBound)
    ensures
        ({
            let (r2, res) = recv_spec(r, frame, arrival);
            (res is Err || res matches Ok(Outcome::Rejected(_))) ==> r2 == r
        }),
{
}

/// A stale disclosure is refused: a frame that would otherwise be taken in
/// (it decodes, its sender is pinned, it is TESLA class, its trailer splits
/// and it meets the security condition) but whose disclosed key is for an
/// interval that is not later than the peer's anchor interval, or for no
/// interval at all, is rejected as `BadDisclosure`, and the receiver is left
/// exactly as it was. This includes a repeat of the very disclosure that
/// set the current anchor.
pub proof fn lemma_stale_disclosure_refused(r: ReceiverModel, frame: Seq<u8>, arrival: TimeBound)
    requires
        decode_header_spec(frame) matches Ok(h) && r.peers.contains_key(h.sender) && h.class == Class::Tesla
            && security_condition_spec(r.schedule, h.interval, arrival) && (h.interval
            < r.schedule.disclosure_delay || h.interval - r.schedule.disclosure_delay
            <= r.peers[h.sender].anchor_interval),
        split_trailer_spec(frame.skip(HEADER_LEN as int)) matches Ok((_, Some(_))),
    ensures
        recv_spec(r, frame, arrival) == (r, Ok::<Outcome, Error>(Outcome::Rejected(Reject::BadDisclosure))),
{
}

/// Receiving the same disclosing frame twice: once a frame that carries a
/// disclosure has been accepted, the same frame delivered again, at any
/// arrival time, is refused (as `TooLate` or as `BadDisclosure`) and changes
/// nothing, so a mesh that repeats a frame cannot buffer it twice.
pub proof fn lemma_replayed_disclosure_refused(r: ReceiverModel, frame: Seq<u8>, first: TimeBound, again: TimeBound)
    requires
        decode_header_spec(frame) is Ok,
        split_trailer_spec(frame.skip(HEADER_LEN as int)) matches Ok((_, Some(_))),
        recv_spec(r, frame, first).1 matches Ok(Outcome::Accepted { .. }),
    ensures
        ({
            let r2 = recv_spec(r, frame, first).0;
            let (r3, res) = recv_spec(r2, frame, again);
            &&& r3 == r2
            &&& res == Ok::<Outcome, Error>(Outcome::Rejected(Reject::TooLate)) || res == Ok::<Outcome, Error>(
                Outcome::Rejected(Reject::BadDisclosure),
            )
        }),
{
    let h = decode_header_spec(frame)->Ok_0;
    let r2 = recv_spec(r, frame, first).0;
    assert(r2.peers.contains_key(h.sender));
    assert(r2.peers[h.sender].anchor_interval == (h.interval - r.schedule.disclosure_delay) as u32);
    if security_condition_spec(r2.schedule, h.interval, again) {
        lemma_stale_disclosure_refused(r2, frame, again);
    }
}

/// Whether draining the `n`-th buffered frame changed the store.
pub open spec fn step_changes_store(
    pending: Seq<PendingModel>,
    n: nat,
    anchor: Seq<u8>,
    anchor_interval: u32,
    store: Map<(AuthorId, FactKind), (u64, Seq<u8>)>,
) -> bool {
    n > 0 && drain_spec(pending, n, anchor, anchor_interval, store).store != drain_spec(
        pending,
        (n - 1) as nat,
        anchor,
        anchor_interval,
        store,
    ).store
}

/// How many of the first `n` draining steps changed the store.
pub open spec fn store_changes(
    pending: Seq<PendingModel>,
    n: nat,
    anchor: Seq<u8>,
    anchor_interval: u32,
    store: Map<(AuthorId, FactKind), (u64, Seq<u8>)>,
) -> nat
    decreases n,
{
    if n == 0 {
        0
    } else {
        store_changes(pending, (n - 1) as nat, anchor, anchor_interval, store) + if step_changes_store(
            pending,
            n,
            anchor,
            anchor_interval,
            store,
        ) {
            1nat
        } else {
            0nat
        }
    }
}

/// A verified frame's merge changes the store exactly when it applies.
proof fn lemma_merge_changes_store(
    m: Map<(AuthorId, FactKind), (u64, Seq<u8>)>,
    key: (AuthorId, FactKind),
    seq: u64,
    payload: Seq<u8>,
)
    ensures
        merge_applies(m, key, seq) <==> merge_spec(m, key, seq, payload) != m,
{
    let m2 = merge_spec(m, key, seq, payload);
    if merge_applies(m, key, seq) {
        assert(m2.contains_key(key) && m2[key].0 == seq);
        if m.contains_key(key) {
            assert(m[key].0 < seq);
        }
    }
}

/// The merge count counts applied merges and nothing else: a draining step
/// (and the step for a frame whose MAC verified) adds one to `merged`
/// exactly when it changes the store, that is when the store applies the
/// frame's merge, and leaves it unchanged otherwise, so a verified frame
/// that repeats a stored fact or carries an older sequence number is not
/// counted.
pub proof fn lemma_drain_counts_applied_merges(st: DrainState, p: PendingModel, anchor: Seq<u8>, anchor_interval: u32)
    ensures
        ({
            let n = drain_step(st, p, anchor, anchor_interval);
            &&& n.merged == st.merged + 1 || n.merged == st.merged
            &&& n.merged == st.merged + 1 <==> n.store != st.store
        }),
        ({
            let n = verified_step(st, p);
            &&& n.merged == st.merged + 1 || n.merged == st.merged
            &&& n.merged == st.merged + 1 <==> n.store != st.store
            &&& parse_body_spec(p.authed) matches Some((author, seq, kind, _)) ==> (n.merged == st.merged + 1
                <==> merge_applies(st.store, (author, kind), seq as u64))
        }),
{
    if let Some((author, seq, kind, payload)) = parse_body_spec(p.authed) {
        lemma_merge_changes_store(st.store, (author, kind), seq as u64, payload);
    }
}

/// Draining reports as merged exactly the number of buffered frames whose
/// merge changed the store.
pub proof fn lemma_drain_merged_counts_store_changes(
    pending: Seq<PendingModel>,
    n: nat,
    anchor: Seq<u8>,
    anchor_interval: u32,
    store: Map<(AuthorId, FactKind), (u64, Seq<u8>)>,
)
    requires
        n <= pending.len(),
    ensures
        drain_spec(pending, n, anchor, anchor_interval, store).merged == store_changes(
            pending,
            n,
            anchor,
            anchor_interval,
            store,
        ),
    decreases n,
{
    if n > 0 {
        lemma_drain_merged_counts_store_changes(pending, (n - 1) as nat, anchor, anchor_interval, store);
        lemma_drain_counts_applied_merges(
            drain_spec(pending, (n - 1) as nat, anchor, anchor_interval, store),
            pending[n - 1],
            anchor,
            anchor_interval,
        );
    }
}

proof fn lemma_drain_kept_len(pending: Seq<PendingModel>, n: nat, anchor: Seq<u8>, ai: u32, store: Map<(AuthorId, FactKind), (u64, Seq<u8>)>)
    ensures
        drain_spec(pending, n, anchor, ai, store).kept.len() + drain_spec(pending, n, anchor, ai, store).merged
            + drain_spec(pending, n, anchor, ai, store).failed <= n,
    decreases n,
{
    if n > 0 {
        lemma_drain_kept_len(pending, (n - 1) as nat, anchor, ai, store);
    }
}

proof fn lemma_drain_unmerged_store(pending: Seq<PendingModel>, n: nat, anchor: Seq<u8>, ai: u32, store: Map<(AuthorId, FactKind), (u64, Seq<u8>)>)
    ensures
        drain_spec(pending, n, anchor, ai, store).merged == 0 ==> drain_spec(pending, n, anchor, ai, store).store
            == store,
    decreases n,
{
    if n > 0 {
        lemma_drain_unmerged_store(pending, (n - 1) as nat, anchor, ai, store);
    }
}

/// Receiving never pins a peer and never forgets one: the set of pinned
/// senders is exactly what `add_peer` made it.
pub proof fn lemma_recv_keeps_peers(r: ReceiverModel, frame: Seq<u8>, arrival: TimeBound)
    ensures
        recv_spec(r, frame, arrival).0.peers.dom() == r.peers.dom(),
        recv_spec(r, frame, arrival).0.schedule == r.schedule,
{
    let r2 = recv_spec(r, frame, arrival).0;
    assert(r2.peers.dom() =~= r.peers.dom());
}

/// Every peer's buffer stays within [`MAX_PENDING`] frames, whatever
/// arrives.
pub proof fn lemma_recv_keeps_buffers_bounded(r: ReceiverModel, frame: Seq<u8>, arrival: TimeBound)
    requires
        buffers_bounded(r),
    ensures
        buffers_bounded(recv_spec(r, frame, arrival).0),
{
    if let Ok(h) = decode_header_spec(frame) {
        if h.class == Class::Tesla && r.peers.contains_key(h.sender) {
            if let Ok((tag, disclosure)) = split_trailer_spec(frame.skip(HEADER_LEN as int)) {
                let peer = r.peers[h.sender];
                let authed = frame.take(frame.len() - trailer_len_spec(disclosure is Some));
                let p = PendingModel { interval: h.interval, authed, tag, arrival };
                let pending = buffered_spec(peer.pending, p);
                assert(pending.len() <= MAX_PENDING);
                if disclosure is Some && h.interval >= r.schedule.disclosure_delay {
                    let target = (h.interval - r.schedule.disclosure_delay) as u32;
                    lemma_drain_kept_len(pending, pending.len(), disclosure->0, target, r.store);
                }
            }
        }
    }
}

/// A peer's anchor only moves forward, and only to a key that hashes
/// forward onto the anchor it replaces: replaying an old disclosure can
/// never re-anchor a receiver backwards.
pub proof fn lemma_anchor_only_advances(r: ReceiverModel, frame: Seq<u8>, arrival: TimeBound, id: AuthorId)
    requires
        r.peers.contains_key(id),
    ensures
        ({
            let p2 = recv_spec(r, frame, arrival).0.peers[id];
            let p = r.peers[id];
            ||| (p2.anchor == p.anchor && p2.anchor_interval == p.anchor_interval)
            ||| disclosure_ok(p.anchor, p.anchor_interval, p2.anchor_interval, p2.anchor)
        }),
{
}

/// The store changes only when a frame reports verified merges: an
/// accepted frame with nothing merged, like any refused one, leaves it
/// untouched.
pub proof fn lemma_store_changes_only_by_merges(r: ReceiverModel, frame: Seq<u8>, arrival: TimeBound)
    requires
        buffers_bounded(r),
    ensures
        ({
            let (r2, res) = recv_spec(r, frame, arrival);
            !(res matches Ok(Outcome::Accepted { merged, .. }) && merged > 0) ==> r2.store == r.store
        }),
{
    if let Ok(h) = decode_header_spec(frame) {
        if h.class == Class::Tesla && r.peers.contains_key(h.sender) {
            if let Ok((tag, disclosure)) = split_trailer_spec(frame.skip(HEADER_LEN as int)) {
                let peer = r.peers[h.sender];
                let authed = frame.take(frame.len() - trailer_len_spec(disclosure is Some));
                let p = PendingModel { interval: h.interval, authed, tag, arrival };
                let pending = buffered_spec(peer.pending, p);
                if disclosure is Some && h.interval >= r.schedule.disclosure_delay {
                    let target = (h.interval - r.schedule.disclosure_delay) as u32;
                    lemma_drain_unmerged_store(pending, pending.len(), disclosure->0, target, r.store);
                    lemma_drain_kept_len(pending, pending.len(), disclosure->0, target, r.store);
                    assert(pending.len() <= peer.pending.len() + 1);
                }
            }
        }
    }
}

/// A beacon discloses at most once per interval, and never the commitment
/// `K[0]`: after one beacon, a second in the same interval carries no key.
pub proof fn lemma_one_disclosure_per_interval(s: SenderModel, kind: FactKind, payload: Seq<u8>, now_ms: u64)
    requires
        interval_at_spec(s.schedule, now_ms) < s.chain.len(),
    ensures
        disclosure_target(beacon_spec(s, kind, payload, now_ms).0, interval_at_spec(s.schedule, now_ms)) is None,
        forall|i: u32| #[trigger] disclosure_target(s, i) matches Some(t) ==> 0 < t <= i,
{
}

/// What draining does with a buffered frame whose MAC has verified: merge
/// it when its body parses (counting the merge when it applies), else count
/// it as failed.
pub open spec fn verified_step(st: DrainState, p: PendingModel) -> DrainState {
    match parse_body_spec(p.authed) {
        None => DrainState { failed: st.failed + 1, ..st },
        Some((author, seq, kind, payload)) => DrainState {
            store: merge_spec(st.store, (author, kind), seq as u64, payload),
            merged: if merge_applies(st.store, (author, kind), seq as u64) {
                st.merged + 1
            } else {
                st.merged
            },
            ..st
        },
    }
}

/// A buffered frame whose tag is the MAC of its bytes under `K[i]`, for its
/// interval `i`, is verified and merged once the peer is anchored at any
/// later key `K[t]` of the same chain; a frame whose tag is anything else is
/// counted as failed and merged nowhere.
pub proof fn lemma_genuine_frame_merges(st: DrainState, p: PendingModel, chain: Seq<Seq<u8>>, t: u32)
    requires
        crate::chain::is_hash_chain(chain),
        p.interval <= t < chain.len(),
    ensures
        p.tag == mac_spec(mac_key_spec(chain[p.interval as int]), p.authed) ==> drain_step(st, p, chain[t as int], t)
            == verified_step(st, p),
        p.tag != mac_spec(mac_key_spec(chain[p.interval as int]), p.authed) ==> drain_step(st, p, chain[t as int], t)
            == (DrainState { failed: st.failed + 1, ..st }),
{
    crate::chain::lemma_chain_walk(chain, p.interval as int, t as int);
}

/// A receiver that has pinned the sender buffers its beacon when the frame
/// arrives in time and carries no key: the frame's MAC'd bytes and tag join
/// the peer's buffer, and nothing else changes.
pub proof fn lemma_beacon_buffers(
    s: SenderModel,
    kind: FactKind,
    payload: Seq<u8>,
    now_ms: u64,
    frame: Seq<u8>,
    r: ReceiverModel,
    arrival: TimeBound,
)
    requires
        beacon_reads_as(s, kind, payload, now_ms, frame),
        r.peers.contains_key(s.id),
        security_condition_spec(r.schedule, interval_at_spec(s.schedule, now_ms), arrival),
        beacon_disclosure(s, interval_at_spec(s.schedule, now_ms)) is None,
    ensures
        ({
            let interval = interval_at_spec(s.schedule, now_ms);
            let authed = authed_bytes(s.id, interval, false, next_seq(s.seq), kind, payload);
            let tag = mac_spec(mac_key_spec(s.chain[interval as int]), authed);
            let peer = r.peers[s.id];
            let pending = buffered_spec(peer.pending, PendingModel { interval, authed, tag, arrival });
            let (r2, res) = recv_spec(r, frame, arrival);
            &&& r2.peers == r.peers.insert(s.id, PeerModel { pending, ..peer })
            &&& r2.store == r.store
            &&& res == Ok::<Outcome, Error>(Outcome::Accepted { buffered: true, merged: 0, failed_mac: 0 })
            &&& interval < s.chain.len() ==> pending_genuine(PendingModel { interval, authed, tag, arrival }, s.chain)
        }),
{
}

/// A beacon that carries a key releases the sender's buffered frames: a
/// receiver anchored at an earlier key of the same chain, with the same
/// disclosure delay, accepts the key, re-anchors at it, and drains its
/// buffer (this frame included) against it.
pub proof fn lemma_beacon_releases(
    s: SenderModel,
    kind: FactKind,
    payload: Seq<u8>,
    now_ms: u64,
    frame: Seq<u8>,
    r: ReceiverModel,
    arrival: TimeBound,
    a: u32,
)
    requires
        crate::chain::is_hash_chain(s.chain),
        interval_at_spec(s.schedule, now_ms) < s.chain.len(),
        beacon_reads_as(s, kind, payload, now_ms, frame),
        r.peers.contains_key(s.id),
        r.peers[s.id].anchor == s.chain[a as int],
        r.peers[s.id].anchor_interval == a,
        r.schedule.disclosure_delay == s.schedule.disclosure_delay,
        security_condition_spec(r.schedule, interval_at_spec(s.schedule, now_ms), arrival),
        disclosure_target(s, interval_at_spec(s.schedule, now_ms)) matches Some(t) && a < t,
    ensures
        ({
            let interval = interval_at_spec(s.schedule, now_ms);
            let t = disclosure_target(s, interval)->0;
            let authed = authed_bytes(s.id, interval, true, next_seq(s.seq), kind, payload);
            let tag = mac_spec(mac_key_spec(s.chain[interval as int]), authed);
            let pending = buffered_spec(r.peers[s.id].pending, PendingModel { interval, authed, tag, arrival });
            let d = drain_spec(pending, pending.len(), s.chain[t as int], t, r.store);
            let (r2, res) = recv_spec(r, frame, arrival);
            &&& r2.peers[s.id] == (PeerModel { anchor: s.chain[t as int], anchor_interval: t, pending: d.kept })
            &&& r2.store == d.store
            &&& res == Ok::<Outcome, Error>(
                Outcome::Accepted { buffered: d.kept.len() > 0, merged: d.merged as usize, failed_mac: d.failed as usize },
            )
        }),
{
    let interval = interval_at_spec(s.schedule, now_ms);
    let t = disclosure_target(s, interval)->0;
    crate::chain::lemma_chain_walk(s.chain, a as int, t as int);
}

/// A buffered frame is genuine for a chain: its interval lies in the chain,
/// its tag is the MAC of its bytes under that interval's key, and its bytes
/// parse.
pub open spec fn pending_genuine(p: PendingModel, chain: Seq<Seq<u8>>) -> bool {
    &&& p.interval < chain.len()
    &&& p.tag == mac_spec(mac_key_spec(chain[p.interval as int]), p.authed)
    &&& parse_body_spec(p.authed) is Some
}

/// Of the first `n` buffered frames, those whose interval is later than
/// `t`, in order.
pub open spec fn still_pending(pending: Seq<PendingModel>, n: nat, t: u32) -> Seq<PendingModel>
    decreases n,
{
    if n == 0 {
        Seq::empty()
    } else {
        let rest = still_pending(pending, (n - 1) as nat, t);
        if pending[n - 1].interval > t { rest.push(pending[n - 1]) } else { rest }
    }
}

/// The store entry of a frame's author and kind holds its sequence number
/// or a newer one.
pub open spec fn stored_at_least(store: Map<(AuthorId, FactKind), (u64, Seq<u8>)>, p: PendingModel) -> bool {
    let f = parse_body_spec(p.authed)->0;
    store.contains_key((f.0, f.2)) && store[(f.0, f.2)].0 >= f.1
}

proof fn lemma_merge_monotone(
    m: Map<(AuthorId, FactKind), (u64, Seq<u8>)>,
    key: (AuthorId, FactKind),
    seq: u64,
    payload: Seq<u8>,
)
    ensures
        merge_spec(m, key, seq, payload).contains_key(key),
        merge_spec(m, key, seq, payload)[key].0 >= seq,
        forall|k: (AuthorId, FactKind)| #[trigger] m.contains_key(k) ==> merge_spec(m, key, seq, payload).contains_key(k)
            && merge_spec(m, key, seq, payload)[k].0 >= m[k].0,
{
}

/// Draining genuine frames against a genuine anchor `K[t]` of their chain
/// fails none of them; every frame for an interval up to `t` is verified
/// and its fact is in the store at its sequence number or a newer one; the
/// frames for later intervals stay buffered, in order; and no fact already
/// stored is ever replaced by an older one.
pub proof fn lemma_genuine_frames_drain(
    pending: Seq<PendingModel>,
    n: nat,
    chain: Seq<Seq<u8>>,
    t: u32,
    store: Map<(AuthorId, FactKind), (u64, Seq<u8>)>,
)
    requires
        crate::chain::is_hash_chain(chain),
        t < chain.len(),
        n <= pending.len(),
        forall|k: int| 0 <= k < n ==> pending_genuine(#[trigger] pending[k], chain),
    ensures
        drain_spec(pending, n, chain[t as int], t, store).failed == 0,
        drain_spec(pending, n, chain[t as int], t, store).kept == still_pending(pending, n, t),
        forall|k: int| 0 <= k < n && (#[trigger] pending[k]).interval <= t ==> stored_at_least(
            drain_spec(pending, n, chain[t as int], t, store).store,
            pending[k],
        ),
        forall|key: (AuthorId, FactKind)| #[trigger] store.contains_key(key) ==> drain_spec(
            pending,
            n,
            chain[t as int],
            t,
            store,
        ).store.contains_key(key) && drain_spec(pending, n, chain[t as int], t, store).store[key].0 >= store[key].0,
    decreases n,
{
    if n > 0 {
        let m = (n - 1) as nat;
        lemma_genuine_frames_drain(pending, m, chain, t, store);
        let prev = drain_spec(pending, m, chain[t as int], t, store);
        let p = pending[m as int];
        if p.interval <= t {
            lemma_genuine_frame_merges(prev, p, chain, t);
            let f = parse_body_spec(p.authed)->0;
            lemma_merge_monotone(prev.store, (f.0, f.2), f.1 as u64, f.3);
        }
        let d = drain_spec(pending, n, chain[t as int], t, store);
        assert forall|k: int| 0 <= k < n && (#[trigger] pending[k]).interval <= t implies stored_at_least(d.store, pending[k]) by {
            if k < m {
                let f = parse_body_spec(pending[k].authed)->0;
                assert(stored_at_least(prev.store, pending[k]));
                assert(prev.store.contains_key((f.0, f.2)));
            }
        }
    }
}

proof fn lemma_drain_monotone(
    pending: Seq<PendingModel>,
    n: nat,
    anchor: Seq<u8>,
    ai: u32,
    store: Map<(AuthorId, FactKind), (u64, Seq<u8>)>,
)
    ensures
        forall|key: (AuthorId, FactKind)| #[trigger] store.contains_key(key) ==> drain_spec(
            pending,
            n,
            anchor,
            ai,
            store,
        ).store.contains_key(key) && drain_spec(pending, n, anchor, ai, store).store[key].0 >= store[key].0,
    decreases n,
{
    if n > 0 {
        let m = (n - 1) as nat;
        lemma_drain_monotone(pending, m, anchor, ai, store);
        let prev = drain_spec(pending, m, anchor, ai, store);
        let p = pending[m as int];
        if let Some(f) = parse_body_spec(p.authed) {
            lemma_merge_monotone(prev.store, (f.0, f.2), f.1 as u64, f.3);
        }
    }
}

/// The receiver's store only moves forward: whatever arrives, no fact is
/// removed, and none is replaced by one with a lower sequence number.
pub proof fn lemma_recv_store_only_advances(r: ReceiverModel, frame: Seq<u8>, arrival: TimeBound)
    ensures
        forall|key: (AuthorId, FactKind)| #[trigger] r.store.contains_key(key) ==> recv_spec(r, frame, arrival).0.store.contains_key(
            key,
        ) && recv_spec(r, frame, arrival).0.store[key].0 >= r.store[key].0,
{
    if let Ok(h) = decode_header_spec(frame) {
        if h.class == Class::Tesla && r.peers.contains_key(h.sender) {
            if let Ok((tag, disclosure)) = split_trailer_spec(frame.skip(HEADER_LEN as int)) {
                let peer = r.peers[h.sender];
                let authed = frame.take(frame.len() - trailer_len_spec(disclosure is Some));
                let p = PendingModel { interval: h.interval, authed, tag, arrival };
                let pending = buffered_spec(peer.pending, p);
                if disclosure is Some && h.interval >= r.schedule.disclosure_delay {
                    let target = (h.interval - r.schedule.disclosure_delay) as u32;
                    lemma_drain_monotone(pending, pending.len(), disclosure->0, target, r.store);
                }
            }
        }
    }
}

/// The sender's state after a run of beacons, each `(kind, payload, now_ms)`.
pub open spec fn beacons_spec(s: SenderModel, calls: Seq<(FactKind, Seq<u8>, u64)>) -> SenderModel
    decreases calls.len(),
{
    if calls.len() == 0 {
        s
    } else {
        let c = calls.last();
        beacon_spec(beacons_spec(s, calls.drop_last()), c.0, c.1, c.2).0
    }
}

/// The interval of the most recent beacon in the run that carried a
/// disclosure (succeeded and attached a key), if any did.
pub open spec fn last_disclosed(s: SenderModel, calls: Seq<(FactKind, Seq<u8>, u64)>) -> Option<u32>
    decreases calls.len(),
{
    if calls.len() == 0 {
        None
    } else {
        let prev = beacons_spec(s, calls.drop_last());
        let i = interval_at_spec(prev.schedule, calls.last().2);
        if i < prev.chain.len() && disclosure_target(prev, i) is Some {
            Some(i)
        } else {
            last_disclosed(s, calls.drop_last())
        }
    }
}

/// A fresh sender's disclosure decision follows its history: after any run
/// of beacons the chain and schedule are unchanged, and the next beacon in
/// interval `i` carries a key exactly when `i` is past the disclosure delay
/// (so never `K[0]`) and the most recent earlier beacon that carried a key
/// was not in interval `i`; the key is `K[i - delay]`.
pub proof fn lemma_disclosure_follows_history(s: SenderModel, calls: Seq<(FactKind, Seq<u8>, u64)>, now_ms: u64)
    requires
        s.disclosed_in is None,
    ensures
        beacons_spec(s, calls).chain == s.chain,
        beacons_spec(s, calls).schedule == s.schedule,
        beacons_spec(s, calls).id == s.id,
        beacons_spec(s, calls).disclosed_in == last_disclosed(s, calls),
        ({
            let i = interval_at_spec(s.schedule, now_ms);
            &&& disclosure_target(beacons_spec(s, calls), i) is Some <==> (i > s.schedule.disclosure_delay
                && last_disclosed(s, calls) != Some(i))
            &&& disclosure_target(beacons_spec(s, calls), i) is Some ==> beacon_disclosure(beacons_spec(s, calls), i)
                == Some(s.chain[i - s.schedule.disclosure_delay])
        }),
    decreases calls.len(),
{
    if calls.len() > 0 {
        lemma_disclosure_follows_history(s, calls.drop_last(), now_ms);
    }
}

/// A frame buffered for the peer `id` was timely when it arrived, and its
/// MAC'd bytes carry that peer's header.
pub open spec fn pending_ok_for(schedule: Schedule, id: AuthorId, p: PendingModel) -> bool {
    &&& security_condition_spec(schedule, p.interval, p.arrival)
    &&& decode_header_spec(p.authed) matches Ok(h) && h.sender == id
}

/// Every frame any peer has buffered is one the receiver took in on time,
/// from that peer.
pub open spec fn buffered_frames_ok(r: ReceiverModel) -> bool {
    forall|id: AuthorId, k: int|
        #![trigger r.peers[id].pending[k]]
        r.peers.contains_key(id) && 0 <= k < r.peers[id].pending.len() ==> pending_ok_for(
            r.schedule,
            id,
            r.peers[id].pending[k],
        )
}

/// A buffered frame verifies against an anchor: its key derives from the
/// anchor, its tag is the MAC under that key, and its bytes parse.
pub open spec fn verified_under(p: PendingModel, anchor: Seq<u8>, anchor_interval: u32) -> bool {
    &&& key_from_anchor_spec(anchor, anchor_interval, p.interval) matches Some(k) && p.tag == mac_spec(
        mac_key_spec(k),
        p.authed,
    )
    &&& parse_body_spec(p.authed) is Some
}

/// The store entry at `key` is the fact the buffered frame `p` carries.
pub open spec fn entry_from(store: Map<(AuthorId, FactKind), (u64, Seq<u8>)>, key: (AuthorId, FactKind), p: PendingModel) -> bool {
    let f = parse_body_spec(p.authed)->0;
    &&& parse_body_spec(p.authed) is Some
    &&& key == (f.0, f.2)
    &&& store.contains_key(key)
    &&& store[key] == (f.1 as u64, f.3)
}

proof fn lemma_decode_header_prefix(s: Seq<u8>, n: int)
    requires
        HEADER_LEN <= n <= s.len(),
    ensures
        decode_header_spec(s.take(n)) == decode_header_spec(s),
{
    let t = s.take(n);
    assert(t[0] == s[0]);
    assert(t.subrange(1, 9) =~= s.subrange(1, 9));
    assert(t[9] == s[9] && t[10] == s[10] && t[11] == s[11] && t[12] == s[12]);
}

proof fn lemma_drain_kept_from(
    pending: Seq<PendingModel>,
    n: nat,
    anchor: Seq<u8>,
    ai: u32,
    store: Map<(AuthorId, FactKind), (u64, Seq<u8>)>,
)
    requires
        n <= pending.len(),
    ensures
        forall|x: int| 0 <= x < drain_spec(pending, n, anchor, ai, store).kept.len() ==> exists|k: int|
            0 <= k < n && pending[k] == #[trigger] drain_spec(pending, n, anchor, ai, store).kept[x],
    decreases n,
{
    if n > 0 {
        let m = (n - 1) as nat;
        lemma_drain_kept_from(pending, m, anchor, ai, store);
        let prev = drain_spec(pending, m, anchor, ai, store);
        let d = drain_spec(pending, n, anchor, ai, store);
        assert forall|x: int| 0 <= x < d.kept.len() implies exists|k: int| 0 <= k < n && pending[k] == #[trigger] d.kept[x] by {
            if x < prev.kept.len() {
                assert(d.kept[x] == prev.kept[x]);
                let k = choose|k: int| 0 <= k < m && pending[k] == prev.kept[x];
                assert(pending[k] == d.kept[x]);
            } else {
                assert(d.kept[x] == pending[m as int]);
            }
        }
    }
}

proof fn lemma_drain_provenance(
    pending: Seq<PendingModel>,
    n: nat,
    anchor: Seq<u8>,
    ai: u32,
    store: Map<(AuthorId, FactKind), (u64, Seq<u8>)>,
    key: (AuthorId, FactKind),
) -> (k: int)
    requires
        n <= pending.len(),
        drain_spec(pending, n, anchor, ai, store).store.contains_key(key),
        !store.contains_key(key) || drain_spec(pending, n, anchor, ai, store).store[key] != store[key],
    ensures
        0 <= k < n,
        verified_under(pending[k], anchor, ai),
        entry_from(drain_spec(pending, n, anchor, ai, store).store, key, pending[k]),
    decreases n,
{
    let m = (n - 1) as nat;
    let prev = drain_spec(pending, m, anchor, ai, store);
    let d = drain_spec(pending, n, anchor, ai, store);
    let p = pending[m as int];
    if d.store == prev.store {
        lemma_drain_provenance(pending, m, anchor, ai, store, key)
    } else {
        let f = parse_body_spec(p.authed)->0;
        let key2 = (f.0, f.2);
        assert(d.store == prev.store.insert(key2, (f.1 as u64, f.3)));
        if key == key2 {
            m as int
        } else {
            lemma_drain_provenance(pending, m, anchor, ai, store, key)
        }
    }
}

proof fn lemma_buffered_spec_from(pending: Seq<PendingModel>, p: PendingModel)
    ensures
        forall|x: int| 0 <= x < buffered_spec(pending, p).len() ==> (#[trigger] buffered_spec(pending, p)[x] == p
            || pending.contains(buffered_spec(pending, p)[x])),
{
    let b = buffered_spec(pending, p);
    assert forall|x: int| 0 <= x < b.len() implies (#[trigger] b[x] == p || pending.contains(b[x])) by {
        if b[x] != p {
            if pending.len() >= MAX_PENDING {
                assert(b[x] == pending[x + 1]);
            } else {
                assert(b[x] == pending[x]);
            }
        }
    }
}

/// What the frame being received contributes to its peer's buffer, and
/// that it was timely and carries its sender's header whenever it is
/// buffered.
proof fn lemma_new_pending_ok(r: ReceiverModel, frame: Seq<u8>, arrival: TimeBound)
    requires
        decode_header_spec(frame) is Ok,
        split_trailer_spec(frame.skip(HEADER_LEN as int)) is Ok,
        security_condition_spec(r.schedule, decode_header_spec(frame)->Ok_0.interval, arrival),
    ensures
        ({
            let h = decode_header_spec(frame)->Ok_0;
            let (tag, disclosure) = split_trailer_spec(frame.skip(HEADER_LEN as int))->Ok_0;
            let authed = frame.take(frame.len() - trailer_len_spec(disclosure is Some));
            pending_ok_for(r.schedule, h.sender, PendingModel { interval: h.interval, authed, tag, arrival })
        }),
{
    let (tag, disclosure) = split_trailer_spec(frame.skip(HEADER_LEN as int))->Ok_0;
    lemma_decode_header_prefix(frame, frame.len() - trailer_len_spec(disclosure is Some));
}

/// Receiving keeps every buffer honest: each frame a peer holds was taken
/// in on time and carries that peer's header.
pub proof fn lemma_recv_keeps_buffered_frames_ok(r: ReceiverModel, frame: Seq<u8>, arrival: TimeBound)
    requires
        buffered_frames_ok(r),
    ensures
        buffered_frames_ok(recv_spec(r, frame, arrival).0),
{
    let r2 = recv_spec(r, frame, arrival).0;
    if let Ok(h) = decode_header_spec(frame) {
        if r.peers.contains_key(h.sender) && h.class == Class::Tesla {
            if let Ok((tag, disclosure)) = split_trailer_spec(frame.skip(HEADER_LEN as int)) {
                if security_condition_spec(r.schedule, h.interval, arrival) {
                    let peer = r.peers[h.sender];
                    let authed = frame.take(frame.len() - trailer_len_spec(disclosure is Some));
                    let p = PendingModel { interval: h.interval, authed, tag, arrival };
                    let pending = buffered_spec(peer.pending, p);
                    lemma_new_pending_ok(r, frame, arrival);
                    lemma_buffered_spec_from(peer.pending, p);
                    assert forall|x: int| 0 <= x < pending.len() implies pending_ok_for(r.schedule, h.sender, #[trigger] pending[x]) by {
                        if pending[x] != p {
                            let j = choose|j: int| 0 <= j < peer.pending.len() && peer.pending[j] == pending[x];
                            assert(pending_ok_for(r.schedule, h.sender, r.peers[h.sender].pending[j]));
                        }
                    }
                    if disclosure is Some && h.interval >= r.schedule.disclosure_delay {
                        let target = (h.interval - r.schedule.disclosure_delay) as u32;
                        lemma_drain_kept_from(pending, pending.len(), disclosure->0, target, r.store);
                    }
                    assert forall|id: AuthorId, x: int|
                        #![trigger r2.peers[id].pending[x]]
                        r2.peers.contains_key(id) && 0 <= x < r2.peers[id].pending.len() implies pending_ok_for(
                        r2.schedule,
                        id,
                        r2.peers[id].pending[x],
                    ) by {
                        if id != h.sender {
                            assert(r2.peers[id] == r.peers[id]);
                        } else if r2.peers[id].pending != peer.pending {
                            if r2.peers[id].pending != pending {
                                let d = drain_spec(pending, pending.len(), disclosure->0, (h.interval - r.schedule.disclosure_delay) as u32, r.store);
                                assert(r2.peers[id].pending == d.kept);
                                let j = choose|j: int| 0 <= j < pending.len() && pending[j] == #[trigger] d.kept[x];
                                assert(pending_ok_for(r.schedule, h.sender, pending[j]));
                            }
                        } else {
                            assert(pending_ok_for(r.schedule, id, r.peers[id].pending[x]));
                        }
                    }
                }
            }
        }
    }
}

/// Where every fact a receive merges comes from. If receiving a frame adds
/// or changes the store entry at `key`, then the frame's sender is a pinned
/// peer and `key` is one of that peer's keys; the frame carried a key that
/// chains onto the peer's previous anchor at a later interval, and the peer
/// is now anchored there; and the entry is exactly the fact of a frame
/// (this one, or one the peer had buffered) that was taken in on time,
/// belongs to an interval no later than the new anchor, and whose MAC
/// verifies under the key derived from it.
pub proof fn lemma_recv_provenance(r: ReceiverModel, frame: Seq<u8>, arrival: TimeBound, key: (AuthorId, FactKind)) -> (p: PendingModel)
    requires
        buffered_frames_ok(r),
        recv_spec(r, frame, arrival).0.store.contains_key(key),
        !r.store.contains_key(key) || recv_spec(r, frame, arrival).0.store[key] != r.store[key],
    ensures
        ({
            let r2 = recv_spec(r, frame, arrival).0;
            let h = decode_header_spec(frame)->Ok_0;
            let peer = r.peers[h.sender];
            let peer2 = r2.peers[h.sender];
            &&& decode_header_spec(frame) is Ok
            &&& r.peers.contains_key(h.sender)
            &&& key.0 == h.sender
            &&& disclosure_ok(peer.anchor, peer.anchor_interval, peer2.anchor_interval, peer2.anchor)
            &&& peer.pending.contains(p) || p.arrival == arrival
            &&& security_condition_spec(r.schedule, p.interval, p.arrival)
            &&& p.interval <= peer2.anchor_interval
            &&& verified_under(p, peer2.anchor, peer2.anchor_interval)
            &&& entry_from(r2.store, key, p)
        }),
{
    let r2 = recv_spec(r, frame, arrival).0;
    let h = decode_header_spec(frame)->Ok_0;
    let (tag, disclosure) = split_trailer_spec(frame.skip(HEADER_LEN as int))->Ok_0;
    let peer = r.peers[h.sender];
    let authed = frame.take(frame.len() - trailer_len_spec(disclosure is Some));
    let pnew = PendingModel { interval: h.interval, authed, tag, arrival };
    let pending = buffered_spec(peer.pending, pnew);
    let target = (h.interval - r.schedule.disclosure_delay) as u32;
    let k = lemma_drain_provenance(pending, pending.len(), disclosure->0, target, r.store, key);
    let p = pending[k];
    lemma_new_pending_ok(r, frame, arrival);
    lemma_buffered_spec_from(peer.pending, pnew);
    if p != pnew {
        let j = choose|j: int| 0 <= j < peer.pending.len() && peer.pending[j] == p;
        assert(pending_ok_for(r.schedule, h.sender, r.peers[h.sender].pending[j]));
    }
    p
}

} // verus!
