//! Erasure-coded fragmentation.
//!
//! A broadcast mesh has no reliable back-channel, so objects larger than a
//! frame (certs, `Signed` trailers) are erasure coded rather than
//! retransmitted: split into `k` data shards, send `n > k`, and **any `k`
//! that arrive reconstruct it**. At least one parity shard is always
//! produced.
//!
//! Each fragment is a 7-byte header and a shard:
//!
//! ```text
//! [2B object_id][1B index][1B data_shards][1B total_shards][2B object_len][shard]
//! ```
//!
//! Erasure coding is availability, not integrity: a wrongly reconstructed
//! object still fails its MAC or signature check.

use vstd::prelude::*;
use crate::bytes::{be16, read_be16, push_all, to_vec, u16_to_be, u16_from_be, lemma_be16_roundtrip};
use crate::rs::{rs_encode, rs_reconstruct, rs_parity_spec, rs_reconstructed_spec, rs_config_ok, rs_codeword,
    option_shards_view, present_uniform, count_present, uniform_shards, agrees_with_codeword};
use crate::Error;

verus! {

/// Bytes of fragment header preceding each shard.
pub const FRAG_HEADER_LEN: usize = 7;

/// Hard cap from the 1-byte shard index.
pub const MAX_SHARDS: usize = 255;

/// Concurrent partially-received objects a [`Reassembler`] will track; the
/// lowest object id is evicted beyond this.
pub const MAX_OBJECTS_IN_FLIGHT: usize = 8;

/// `ceil(a / b)`.
pub open spec fn ceil_div(a: int, b: int) -> int {
    a / b + if a % b != 0 { 1int } else { 0int }
}

/// Number of data shards for an object: one per `shard_len` bytes, at least one.
pub open spec fn data_shard_count(len: int, shard_len: int) -> int {
    let d = ceil_div(len, shard_len);
    if d >= 1 { d } else { 1 }
}

/// Number of parity shards: `redundancy_pct` percent of the data shards,
/// rounded up, at least one.
pub open spec fn parity_shard_count(data: int, redundancy_pct: int) -> int {
    let p = ceil_div(data * redundancy_pct, 100);
    if p >= 1 { p } else { 1 }
}

/// Data shard `i`: the object's bytes from `i * shard_len`, zero-padded to
/// `shard_len`.
pub open spec fn data_shard(object: Seq<u8>, shard_len: int, i: int) -> Seq<u8> {
    Seq::new(shard_len as nat, |j: int| if i * shard_len + j < object.len() { object[i * shard_len + j] } else { 0u8 })
}

/// All data shards of an object.
pub open spec fn data_shards(object: Seq<u8>, shard_len: int, d: int) -> Seq<Seq<u8>> {
    Seq::new(d as nat, |i: int| data_shard(object, shard_len, i))
}

/// The 7-byte fragment header.
pub open spec fn frag_header_bytes(object_id: u16, index: u8, data: u8, total: u8, object_len: u16) -> Seq<u8> {
    be16(object_id) + seq![index, data, total] + be16(object_len)
}

/// What splitting an object gives: an error for a zero shard length, an
/// object over 65535 bytes, or more than 255 shards; otherwise one fragment
/// per shard of the codeword, each behind its header.
pub open spec fn split_spec(object_id: u16, object: Seq<u8>, shard_len: int, redundancy_pct: int) -> Result<Seq<Seq<u8>>, Error> {
    if shard_len == 0 {
        Err(Error::BadFragment)
    } else if object.len() > 0xFFFF {
        Err(Error::ObjectTooLarge(object.len() as usize))
    } else {
        let d = data_shard_count(object.len() as int, shard_len);
        let p = parity_shard_count(d, redundancy_pct);
        if d + p > MAX_SHARDS {
            Err(Error::BadFragment)
        } else {
            let code = rs_codeword(data_shards(object, shard_len, d), p as nat);
            Ok(
                Seq::new(
                    (d + p) as nat,
                    |i: int| frag_header_bytes(object_id, i as u8, d as u8, (d + p) as u8, object.len() as u16)
                        + code[i],
                ),
            )
        }
    }
}

proof fn lemma_shard_starts(len: int, shard_len: int, i: int)
    requires
        shard_len > 0,
        0 <= len,
        0 <= i < data_shard_count(len, shard_len),
    ensures
        i == 0 || i * shard_len < len,
        0 <= i * shard_len,
{
    assert(0 <= i * shard_len) by (nonlinear_arith)
        requires
            0 <= i,
            shard_len > 0,
    ;
    if i > 0 {
        let q = len / shard_len;
        let r = len % shard_len;
        assert(len == q * shard_len + r) by (nonlinear_arith)
            requires
                shard_len > 0,
                q == len / shard_len,
                r == len % shard_len,
        ;
        assert(0 <= r < shard_len);
        if r != 0 {
            assert(i <= q);
            assert(i * shard_len <= q * shard_len) by (nonlinear_arith)
                requires
                    i <= q,
                    shard_len > 0,
            ;
        } else {
            assert(i < q);
            assert(i * shard_len < q * shard_len) by (nonlinear_arith)
                requires
                    i < q,
                    shard_len > 0,
            ;
        }
    }
}

/// Split an object into transmittable fragments.
///
/// `shard_len` is the usable payload per frame after both the Signet header
/// and [`FRAG_HEADER_LEN`]. `redundancy_pct` of 30 sends roughly 30% extra
/// shards; at least one parity shard is always produced.
pub fn split(object_id: u16, object: &[u8], shard_len: usize, redundancy_pct: u32) -> (res: Result<Vec<Vec<u8>>, Error>)
    ensures
        match res {
            Ok(frags) => split_spec(object_id, object@, shard_len as int, redundancy_pct as int) == Ok::<
                Seq<Seq<u8>>,
                Error,
            >(Seq::new(frags@.len(), |i: int| frags@[i]@)),
            Err(e) => split_spec(object_id, object@, shard_len as int, redundancy_pct as int) == Err::<
                Seq<Seq<u8>>,
                Error,
            >(e),
        },
        res matches Ok(frags) ==> forall|i: int| 0 <= i < frags@.len() ==> (#[trigger] frags@[i])@.len()
            == FRAG_HEADER_LEN + shard_len,
{
    if shard_len == 0 {
        return Err(Error::BadFragment);
    }
    if object.len() > 0xFFFF {
        return Err(Error::ObjectTooLarge(object.len()));
    }
    let len = object.len();
    let q = len / shard_len;
    let dq = if len % shard_len != 0 { q + 1 } else { q };
    let d: usize = if dq >= 1 { dq } else { 1 };
    assert(d == data_shard_count(len as int, shard_len as int));
    assert(d <= 0x10000) by {
        assert(q <= len);
    }
    proof {
        assert((d as int) * (redundancy_pct as int) <= 0x10000 * 0xFFFF_FFFF) by (nonlinear_arith)
            requires
                d <= 0x10000,
                redundancy_pct <= 0xFFFF_FFFF,
        ;
    }
    let prod: u64 = d as u64 * redundancy_pct as u64;
    let pq = prod / 100;
    let pc: u64 = if prod % 100 != 0 { pq + 1 } else { pq };
    let p64: u64 = if pc >= 1 { pc } else { 1 };
    assert(p64 == parity_shard_count(d as int, redundancy_pct as int));
    if d as u64 + p64 > MAX_SHARDS as u64 {
        return Err(Error::BadFragment);
    }
    let p = p64 as usize;
    let total = d + p;

    let ghost data = data_shards(object@, shard_len as int, d as int);
    let mut shards: Vec<Vec<u8>> = Vec::new();
    let mut i: usize = 0;
    while i < d
        invariant
            i <= d,
            d == data_shard_count(len as int, shard_len as int),
            d <= 255,
            len == object@.len(),
            len <= 0xFFFF,
            shard_len > 0,
            data == data_shards(object@, shard_len as int, d as int),
            shards@.len() == i,
            forall|j: int| 0 <= j < i ==> (#[trigger] shards@[j])@ == data[j],
        decreases d - i,
    {
        proof {
            lemma_shard_starts(len as int, shard_len as int, i as int);
        }
        let start: usize = if i == 0 { 0 } else { i * shard_len };
        assert(start == i * shard_len);
        let end: usize = if len - start < shard_len { len } else { start + shard_len };
        let mut shard: Vec<u8> = vec![0u8; shard_len];
        let mut j: usize = start;
        while j < end
            invariant
                start <= j <= end,
                end <= len,
                end - start <= shard_len,
                len == object@.len(),
                start == i * shard_len,
                shard@.len() == shard_len,
                forall|x: int| 0 <= x < j - start ==> #[trigger] shard@[x] == object@[start + x],
                forall|x: int| j - start <= x < shard_len ==> #[trigger] shard@[x] == 0u8,
            decreases end - j,
        {
            shard.set(j - start, object[j]);
            j = j + 1;
        }
        proof {
            assert(shard@ =~= data_shard(object@, shard_len as int, i as int)) by {
                assert forall|x: int| 0 <= x < shard_len implies #[trigger] shard@[x] == data_shard(
                    object@,
                    shard_len as int,
                    i as int,
                )[x] by {
                    if x < end - start {
                    } else {
                        assert(start + x >= len);
                    }
                }
            }
        }
        shards.push(shard);
        i = i + 1;
    }
    let mut k: usize = 0;
    while k < p
        invariant
            k <= p,
            total == d + p,
            shards@.len() == d + k,
            shard_len > 0,
            forall|j: int| 0 <= j < d ==> (#[trigger] shards@[j])@ == data[j],
            forall|j: int| 0 <= j < d + k ==> (#[trigger] shards@[j])@.len() == shard_len,
            data.len() == d,
            forall|j: int| 0 <= j < d ==> (#[trigger] data[j]).len() == shard_len,
        decreases p - k,
    {
        shards.push(vec![0u8; shard_len]);
        k = k + 1;
    }
    let ghost before = shards@;
    proof {
        assert(before[0]@ == data[0]);
        assert(Seq::new(d as nat, |j: int| before[j]@) =~= data);
    }
    let ok = rs_encode(d, p, &mut shards);
    if !ok {
        return Err(Error::BadFragment);
    }
    let ghost code = rs_codeword(data, p as nat);
    assert(forall|j: int| 0 <= j < total ==> (#[trigger] shards@[j])@.len() == shard_len);
    proof {
        assert forall|j: int| 0 <= j < total implies (#[trigger] shards@[j])@ == code[j] by {
            if j < d {
                assert(shards@[j] == before[j]);
                assert(code[j] == data[j]);
            } else {
                let k = j - d;
                assert(shards@[d + k]@ == rs_parity_spec(Seq::new(d as nat, |j: int| before[j]@), p as nat)[k]);
                assert(code[j] == rs_parity_spec(data, p as nat)[k]);
            }
        }
    }

    let mut out: Vec<Vec<u8>> = Vec::new();
    let idb = u16_to_be(object_id);
    let lenb = u16_to_be(len as u16);
    let mut x: usize = 0;
    while x < total
        invariant
            x <= total,
            total == d + p,
            total <= 255,
            shards@.len() == total,
            idb@ == be16(object_id),
            lenb@ == be16(len as u16),
            forall|j: int| 0 <= j < total ==> (#[trigger] shards@[j])@ == code[j],
            forall|j: int| 0 <= j < total ==> (#[trigger] shards@[j])@.len() == shard_len,
            out@.len() == x,
            forall|j: int| 0 <= j < x ==> (#[trigger] out@[j])@.len() == FRAG_HEADER_LEN + shard_len,
            forall|j: int| 0 <= j < x ==> (#[trigger] out@[j])@ == frag_header_bytes(
                object_id,
                j as u8,
                d as u8,
                total as u8,
                len as u16,
            ) + code[j],
        decreases total - x,
    {
        let mut f: Vec<u8> = Vec::new();
        push_all(&mut f, &idb);
        f.push(x as u8);
        f.push(d as u8);
        f.push(total as u8);
        push_all(&mut f, &lenb);
        push_all(&mut f, shards[x].as_slice());
        assert(f@ =~= frag_header_bytes(object_id, x as u8, d as u8, total as u8, len as u16) + code[x as int]);
        out.push(f);
        x = x + 1;
    }
    proof {
        let want = split_spec(object_id, object@, shard_len as int, redundancy_pct as int);
        assert(Seq::new(out@.len(), |i: int| out@[i]@) =~= Seq::new(
            (d + p) as nat,
            |i: int| frag_header_bytes(object_id, i as u8, d as u8, (d + p) as u8, object@.len() as u16) + code[i],
        ));
    }
    Ok(out)
}

/// A parsed fragment header.
pub struct FragHeader {
    pub object_id: u16,
    pub index: u8,
    pub data_shards: u8,
    pub total_shards: u8,
    pub object_len: u16,
}

/// What decoding a fragment gives: its header and its shard, or an error
/// for a fragment with no shard bytes or a self-inconsistent header.
pub open spec fn frag_decode_spec(buf: Seq<u8>) -> Result<(FragHeader, Seq<u8>), Error> {
    if buf.len() <= FRAG_HEADER_LEN {
        Err(Error::Truncated { need: (FRAG_HEADER_LEN + 1) as usize, got: buf.len() as usize })
    } else {
        let h = FragHeader {
            object_id: read_be16(buf, 0),
            index: buf[2],
            data_shards: buf[3],
            total_shards: buf[4],
            object_len: read_be16(buf, 5),
        };
        if h.data_shards == 0 || h.total_shards < h.data_shards || h.index >= h.total_shards || h.object_len
            == 0 {
            Err(Error::BadFragment)
        } else {
            Ok((h, buf.skip(FRAG_HEADER_LEN as int)))
        }
    }
}

impl FragHeader {
    /// Parse the header in front of a fragment's shard. Every field is
    /// attacker-controlled, so anything self-inconsistent is refused before
    /// it reaches the allocator or the decoder.
    fn decode(buf: &[u8]) -> (res: Result<(FragHeader, &[u8]), Error>)
        ensures
            match res {
                Ok((h, s)) => frag_decode_spec(buf@) == Ok::<(FragHeader, Seq<u8>), Error>((h, s@)),
                Err(e) => frag_decode_spec(buf@) == Err::<(FragHeader, Seq<u8>), Error>(e),
            },
    {
        if buf.len() <= FRAG_HEADER_LEN {
            return Err(Error::Truncated { need: FRAG_HEADER_LEN + 1, got: buf.len() });
        }
        let h = FragHeader {
            object_id: u16_from_be(buf[0], buf[1]),
            index: buf[2],
            data_shards: buf[3],
            total_shards: buf[4],
            object_len: u16_from_be(buf[5], buf[6]),
        };
        if h.data_shards == 0 || h.total_shards < h.data_shards || h.index >= h.total_shards || h.object_len == 0 {
            return Err(Error::BadFragment);
        }
        Ok((h, &buf[FRAG_HEADER_LEN..buf.len()]))
    }
}

struct Partial {
    data_shards: u8,
    total_shards: u8,
    object_len: u16,
    shard_len: usize,
    shards: Vec<Option<Vec<u8>>>,
    have: usize,
}

/// A partially received object: its header values, its shard length, the
/// shards held so far, and how many are held.
pub struct PartialModel {
    pub data_shards: u8,
    pub total_shards: u8,
    pub object_len: u16,
    pub shard_len: nat,
    pub shards: Seq<Option<Seq<u8>>>,
    pub have: nat,
}

spec fn partial_model(p: Partial) -> PartialModel {
    PartialModel {
        data_shards: p.data_shards,
        total_shards: p.total_shards,
        object_len: p.object_len,
        shard_len: p.shard_len as nat,
        shards: option_shards_view(p.shards@),
        have: p.have as nat,
    }
}

/// Collects fragments until an object can be reconstructed.
///
/// The objects in flight are held in a `Vec` in strictly ascending order of
/// object id (stated as the type's invariant, [`reassembler_ok`]) rather
/// than in a `BTreeMap`: a push stores a shard into a partial in place,
/// which on a `BTreeMap` takes `get_mut` or `entry`, calls vstd gives no
/// contract. The first element is the lowest id, the one evicted when the
/// reassembler is full.
pub struct Reassembler {
    objects: Vec<(u16, Partial)>,
}

/// The objects in flight, in ascending order of object id.
pub open spec fn ids_sorted(s: Seq<(u16, PartialModel)>) -> bool {
    forall|i: int, j: int| 0 <= i < j < s.len() ==> s[i].0 < s[j].0
}

/// `i` is the first position whose id is not below `id`.
pub open spec fn is_insert_pos(s: Seq<(u16, PartialModel)>, id: u16, i: int) -> bool {
    &&& 0 <= i <= s.len()
    &&& forall|j: int| 0 <= j < i ==> (#[trigger] s[j]).0 < id
    &&& i < s.len() ==> s[i].0 >= id
}

/// The first position whose id is not below `id`.
pub open spec fn insert_pos(s: Seq<(u16, PartialModel)>, id: u16) -> int {
    choose|i: int| is_insert_pos(s, id, i)
}

proof fn lemma_insert_pos_exists(s: Seq<(u16, PartialModel)>, id: u16)
    ensures
        exists|i: int| is_insert_pos(s, id, i),
    decreases s.len(),
{
    if s.len() == 0 {
        assert(is_insert_pos(s, id, 0));
    } else {
        let t = s.drop_last();
        lemma_insert_pos_exists(t, id);
        let i = choose|i: int| is_insert_pos(t, id, i);
        assert(forall|j: int| 0 <= j < t.len() ==> #[trigger] s[j] == t[j]);
        if i < t.len() {
            assert(is_insert_pos(s, id, i));
        } else if s.last().0 >= id {
            assert(is_insert_pos(s, id, s.len() - 1));
        } else {
            assert(is_insert_pos(s, id, s.len() as int));
        }
    }
}

/// There is exactly one first position not below `id`.
proof fn lemma_insert_pos(s: Seq<(u16, PartialModel)>, id: u16, i: int)
    requires
        is_insert_pos(s, id, i),
    ensures
        insert_pos(s, id) == i,
{
    lemma_insert_pos_exists(s, id);
    let c = insert_pos(s, id);
    assert(is_insert_pos(s, id, c));
    if c < i {
        assert(s[c].0 < id);
    } else if c > i {
        assert(s[i].0 < id);
    }
}

pub(crate) proof fn lemma_insert_pos_props(s: Seq<(u16, PartialModel)>, id: u16)
    ensures
        is_insert_pos(s, id, insert_pos(s, id)),
{
    lemma_insert_pos_exists(s, id);
}

/// The held shard count is the count of present shards, and every present
/// shard has the object's shard length.
pub open spec fn partial_ok(p: PartialModel) -> bool {
    &&& p.shards.len() == p.total_shards
    &&& p.have == count_present(p.shards)
    &&& p.shard_len > 0
    &&& p.data_shards > 0
    &&& p.data_shards <= p.total_shards
    &&& forall|i: int| 0 <= i < p.shards.len() && (#[trigger] p.shards[i]) is Some ==> p.shards[i]->0.len()
        == p.shard_len
}

/// Whether a fragment's header contradicts what is held for its object.
pub open spec fn contradicts(p: PartialModel, h: FragHeader, shard_len: nat) -> bool {
    p.data_shards != h.data_shards || p.total_shards != h.total_shards || p.object_len != h.object_len
        || p.shard_len != shard_len
}

/// A fresh partial for a fragment's header: no shards held yet.
pub open spec fn fresh_partial(h: FragHeader, shard_len: nat) -> PartialModel {
    PartialModel {
        data_shards: h.data_shards,
        total_shards: h.total_shards,
        object_len: h.object_len,
        shard_len,
        shards: Seq::new(h.total_shards as nat, |i: int| None),
        have: 0,
    }
}

/// The partial after storing a shard; a duplicate changes nothing.
pub open spec fn with_shard(p: PartialModel, index: u8, shard: Seq<u8>) -> PartialModel {
    if p.shards[index as int] is None {
        PartialModel { shards: p.shards.update(index as int, Some(shard)), have: p.have + 1, ..p }
    } else {
        p
    }
}

/// Concatenation of shards.
pub open spec fn flatten(s: Seq<Seq<u8>>) -> Seq<u8>
    decreases s.len(),
{
    if s.len() == 0 {
        Seq::empty()
    } else {
        flatten(s.drop_last()) + s.last()
    }
}

/// The object rebuilt from a complete partial: reconstruct, join the data
/// shards, and cut at the object length (when the join is that long).
pub open spec fn finish_spec(p: PartialModel) -> Result<Option<Seq<u8>>, Error> {
    let d = p.data_shards as nat;
    let par = (p.total_shards - p.data_shards) as nat;
    if !(rs_config_ok(d, par) && p.shards.len() == d + par && present_uniform(p.shards) && count_present(p.shards)
        >= d) {
        Err(Error::BadFragment)
    } else {
        let joined = flatten(rs_reconstructed_spec(p.shards, d, par).take(d as int));
        Ok(Some(if p.object_len <= joined.len() { joined.take(p.object_len as int) } else { joined }))
    }
}

/// `joined` cut at `len` bytes, when it is that long.
pub open spec fn cut(joined: Seq<u8>, len: u16) -> Seq<u8> {
    if len <= joined.len() { joined.take(len as int) } else { joined }
}

/// The shards held for `p` are genuine: every one of them is the matching
/// shard of the codeword of `data`, uniform data shards of the partial's
/// count, under a codec that can be built.
pub open spec fn genuine(p: PartialModel, data: Seq<Seq<u8>>) -> bool {
    let d = p.data_shards as nat;
    let par = (p.total_shards - p.data_shards) as nat;
    &&& data.len() == d
    &&& uniform_shards(data)
    &&& rs_config_ok(d, par)
    &&& agrees_with_codeword(p.shards, data, par)
}

/// Storing a shard into the entry at `i` and, once enough are held,
/// removing the entry and rebuilding the object.
pub open spec fn store_shard_spec(objs: Seq<(u16, PartialModel)>, i: int, h: FragHeader, shard: Seq<u8>) -> (Seq<(u16, PartialModel)>, Result<Option<Seq<u8>>, Error>) {
    let p = with_shard(objs[i].1, h.index, shard);
    if p.have < p.data_shards {
        (objs.update(i, (h.object_id, p)), Ok(None))
    } else {
        (objs.remove(i), finish_spec(p))
    }
}

/// What pushing a fragment does to the objects in flight, and its result.
/// The partial a push completes, if it completes one: the entry for the
/// fragment's object (a fresh one for a new object) with the shard stored,
/// once it holds as many shards as the object has data shards.
pub open spec fn push_completes(objs: Seq<(u16, PartialModel)>, payload: Seq<u8>) -> Option<PartialModel> {
    match frag_decode_spec(payload) {
        Err(_) => None,
        Ok((h, shard)) => {
            let i = insert_pos(objs, h.object_id);
            let found = i < objs.len() && objs[i].0 == h.object_id;
            if found && contradicts(objs[i].1, h, shard.len()) {
                None
            } else {
                let base = if found { objs[i].1 } else { fresh_partial(h, shard.len()) };
                let p = with_shard(base, h.index, shard);
                if p.have < p.data_shards { None } else { Some(p) }
            }
        },
    }
}

pub open spec fn push_spec(objs: Seq<(u16, PartialModel)>, payload: Seq<u8>) -> (Seq<(u16, PartialModel)>, Result<Option<Seq<u8>>, Error>) {
    match frag_decode_spec(payload) {
        Err(e) => (objs, Err(e)),
        Ok((h, shard)) => {
            let i = insert_pos(objs, h.object_id);
            if i < objs.len() && objs[i].0 == h.object_id {
                if contradicts(objs[i].1, h, shard.len()) {
                    (objs, Err(Error::BadFragment))
                } else {
                    store_shard_spec(objs, i, h, shard)
                }
            } else {
                let kept = if objs.len() >= MAX_OBJECTS_IN_FLIGHT { objs.drop_first() } else { objs };
                let j = insert_pos(kept, h.object_id);
                store_shard_spec(kept.insert(j, (h.object_id, fresh_partial(h, shard.len()))), j, h, shard)
            }
        },
    }
}

/// The objects in flight as the spec sees them.
spec fn objs_view(s: Seq<(u16, Partial)>) -> Seq<(u16, PartialModel)> {
    Seq::new(s.len(), |i: int| (s[i].0, partial_model(s[i].1)))
}

/// A well-formed set of objects in flight: ids ascend, there are at most
/// [`MAX_OBJECTS_IN_FLIGHT`], and each partial is consistent.
pub open spec fn reassembler_ok(s: Seq<(u16, PartialModel)>) -> bool {
    &&& ids_sorted(s)
    &&& s.len() <= MAX_OBJECTS_IN_FLIGHT
    &&& forall|i: int| 0 <= i < s.len() ==> partial_ok(#[trigger] s[i].1)
}

/// The view of what a push returns.
pub open spec fn object_result_view(r: Result<Option<Vec<u8>>, Error>) -> Result<Option<Seq<u8>>, Error> {
    match r {
        Ok(Some(v)) => Ok(Some(v@)),
        Ok(None) => Ok(None),
        Err(e) => Err(e),
    }
}

proof fn lemma_count_present_le(s: Seq<Option<Seq<u8>>>)
    ensures
        count_present(s) <= s.len(),
    decreases s.len(),
{
    if s.len() > 0 {
        lemma_count_present_le(s.drop_last());
    }
}

proof fn lemma_count_present_none(n: nat)
    ensures
        count_present(Seq::new(n, |i: int| None::<Seq<u8>>)) == 0,
    decreases n,
{
    if n > 0 {
        assert(Seq::new(n, |i: int| None::<Seq<u8>>).drop_last() =~= Seq::new((n - 1) as nat, |i: int| None::<Seq<u8>>));
        lemma_count_present_none((n - 1) as nat);
    }
}

proof fn lemma_count_present_fill(s: Seq<Option<Seq<u8>>>, i: int, v: Seq<u8>)
    requires
        0 <= i < s.len(),
        s[i] is None,
    ensures
        count_present(s.update(i, Some(v))) == count_present(s) + 1,
    decreases s.len(),
{
    let t = s.update(i, Some(v));
    if i == s.len() - 1 {
        assert(t.drop_last() =~= s.drop_last());
    } else {
        assert(t.drop_last() =~= s.drop_last().update(i, Some(v)));
        lemma_count_present_fill(s.drop_last(), i, v);
    }
}

/// A shard stored into a consistent partial keeps it consistent.
proof fn lemma_with_shard_ok(p: PartialModel, h: FragHeader, shard: Seq<u8>)
    requires
        partial_ok(p),
        h.index < p.total_shards,
        !contradicts(p, h, shard.len()),
    ensures
        partial_ok(with_shard(p, h.index, shard)),
        p.have <= p.total_shards,
{
    lemma_count_present_le(p.shards);
    if p.shards[h.index as int] is None {
        lemma_count_present_fill(p.shards, h.index as int, shard);
    }
}

/// The position of the first object whose id is not below `id`.
fn position(objs: &Vec<(u16, Partial)>, id: u16) -> (i: usize)
    ensures
        i == insert_pos(objs_view(objs@), id),
        i <= objs@.len(),
{
    let ghost v = objs_view(objs@);
    let mut i: usize = 0;
    while i < objs.len() && objs[i].0 < id
        invariant
            i <= objs@.len(),
            v == objs_view(objs@),
            forall|j: int| 0 <= j < i ==> (#[trigger] v[j]).0 < id,
        decreases objs@.len() - i,
    {
        i = i + 1;
    }
    proof {
        lemma_insert_pos(v, id, i as int);
    }
    i
}

/// Reconstruct a complete partial and join its data shards into the object.
fn finish(p: Partial) -> (res: Result<Option<Vec<u8>>, Error>)
    requires
        partial_ok(partial_model(p)),
        p.have >= p.data_shards,
    ensures
        object_result_view(res) == finish_spec(partial_model(p)),
        forall|data: Seq<Seq<u8>>| #[trigger] genuine(partial_model(p), data) ==> object_result_view(res) == Ok::<
            Option<Seq<u8>>,
            Error,
        >(Some(cut(flatten(data), p.object_len))),
{
    let d = p.data_shards as usize;
    let par = (p.total_shards - p.data_shards) as usize;
    let object_len = p.object_len as usize;
    let mut shards = p.shards;
    let ghost before = option_shards_view(shards@);
    proof {
        assert(present_uniform(before));
    }
    let ok = rs_reconstruct(d, par, &mut shards);
    if !ok {
        return Err(Error::BadFragment);
    }
    let ghost r = rs_reconstructed_spec(before, d as nat, par as nat);
    proof {
        assert forall|data: Seq<Seq<u8>>| #[trigger] genuine(partial_model(p), data) implies r.take(d as int) == data by {
            assert(r == rs_codeword(data, par as nat));
            assert(r.take(d as int) =~= data);
        }
    }
    let mut object: Vec<u8> = Vec::new();
    let mut k: usize = 0;
    while k < d
        invariant
            k <= d,
            d + par == shards@.len(),
            r.len() == shards@.len(),
            forall|i: int| 0 <= i < shards@.len() ==> (#[trigger] shards@[i]) is Some && shards@[i]->0@ == r[i],
            object@ == flatten(r.take(k as int)),
        decreases d - k,
    {
        match &shards[k] {
            Some(s) => {
                push_all(&mut object, s.as_slice());
            },
            None => {
                return Err(Error::BadFragment);
            },
        }
        proof {
            assert(r.take(k + 1).drop_last() =~= r.take(k as int));
        }
        k = k + 1;
    }
    if object_len <= object.len() {
        object.truncate(object_len);
    }
    Ok(Some(object))
}

/// Store a shard into the entry at `i`; once enough shards are held, take
/// the entry out and rebuild its object.
fn store_shard(objs: &mut Vec<(u16, Partial)>, i: usize, h: &FragHeader, shard: &[u8]) -> (res: Result<Option<Vec<u8>>, Error>)
    requires
        i < old(objs)@.len(),
        old(objs)@[i as int].0 == h.object_id,
        partial_ok(partial_model(old(objs)@[i as int].1)),
        h.index < h.total_shards,
        !contradicts(partial_model(old(objs)@[i as int].1), *h, shard@.len()),
    ensures
        objs_view(final(objs)@) == store_shard_spec(objs_view(old(objs)@), i as int, *h, shard@).0,
        object_result_view(res) == store_shard_spec(objs_view(old(objs)@), i as int, *h, shard@).1,
        ({
            let p = with_shard(objs_view(old(objs)@)[i as int].1, h.index, shard@);
            p.have >= p.data_shards ==> forall|data: Seq<Seq<u8>>| #[trigger] genuine(p, data)
                ==> object_result_view(res) == Ok::<Option<Seq<u8>>, Error>(Some(cut(flatten(data), p.object_len)))
        }),
{
    let ghost before = objs_view(objs@);
    let ghost pm = partial_model(objs@[i as int].1);
    proof {
        lemma_with_shard_ok(pm, *h, shard@);
    }
    let (id, mut p) = objs.remove(i);
    let idx = h.index as usize;
    if p.shards[idx].is_none() {
        let v = to_vec(shard);
        p.shards.set(idx, Some(v));
        p.have = p.have + 1;
        proof {
            assert(option_shards_view(p.shards@) =~= pm.shards.update(idx as int, Some(shard@)));
        }
    }
    assert(partial_model(p) == with_shard(pm, h.index, shard@));
    if p.have < p.data_shards as usize {
        objs.insert(i, (id, p));
        proof {
            assert(objs_view(objs@) =~= before.update(i as int, (h.object_id, with_shard(pm, h.index, shard@))));
        }
        Ok(None)
    } else {
        proof {
            assert(objs_view(objs@) =~= before.remove(i as int));
        }
        finish(p)
    }
}

/// `n` empty shard slots.
fn none_shards(n: usize) -> (v: Vec<Option<Vec<u8>>>)
    ensures
        option_shards_view(v@) == Seq::new(n as nat, |i: int| None::<Seq<u8>>),
{
    let mut v: Vec<Option<Vec<u8>>> = Vec::new();
    let mut k: usize = 0;
    while k < n
        invariant
            k <= n,
            v@.len() == k,
            forall|i: int| 0 <= i < k ==> (#[trigger] v@[i]) is None,
        decreases n - k,
    {
        v.push(None);
        k = k + 1;
    }
    assert(option_shards_view(v@) =~= Seq::new(n as nat, |i: int| None::<Seq<u8>>));
    v
}

/// What a successfully decoded fragment header guarantees.
proof fn lemma_decoded(payload: Seq<u8>)
    requires
        frag_decode_spec(payload) is Ok,
    ensures
        ({
            let (h, shard) = frag_decode_spec(payload)->Ok_0;
            &&& h.data_shards > 0
            &&& h.data_shards <= h.total_shards
            &&& h.index < h.total_shards
            &&& shard.len() > 0
        }),
{
}

/// Storing a shard keeps a well-formed set of objects well-formed.
proof fn lemma_store_ok(objs: Seq<(u16, PartialModel)>, i: int, h: FragHeader, shard: Seq<u8>)
    requires
        reassembler_ok(objs),
        0 <= i < objs.len(),
        objs[i].0 == h.object_id,
        h.index < h.total_shards,
        !contradicts(objs[i].1, h, shard.len()),
    ensures
        reassembler_ok(store_shard_spec(objs, i, h, shard).0),
{
    lemma_with_shard_ok(objs[i].1, h, shard);
    let p = with_shard(objs[i].1, h.index, shard);
    if p.have < p.data_shards {
        let t = objs.update(i, (h.object_id, p));
        assert(forall|a: int| 0 <= a < t.len() ==> (#[trigger] t[a]).0 == objs[a].0);
    } else {
        let t = objs.remove(i);
        assert(forall|a: int| 0 <= a < t.len() ==> (#[trigger] t[a]) == if a < i { objs[a] } else { objs[a + 1] });
    }
}

/// Every push keeps the objects in flight well-formed: ids ascending, each
/// partial consistent, and never more than [`MAX_OBJECTS_IN_FLIGHT`] of
/// them, whatever the payload.
pub proof fn lemma_push_keeps_bound(objs: Seq<(u16, PartialModel)>, payload: Seq<u8>)
    requires
        reassembler_ok(objs),
    ensures
        reassembler_ok(push_spec(objs, payload).0),
        push_spec(objs, payload).0.len() <= MAX_OBJECTS_IN_FLIGHT,
{
    if frag_decode_spec(payload) is Ok {
        lemma_decoded(payload);
        let (h, shard) = frag_decode_spec(payload)->Ok_0;
        let id = h.object_id;
        lemma_insert_pos_props(objs, id);
        let i = insert_pos(objs, id);
        if i < objs.len() && objs[i].0 == id {
            if !contradicts(objs[i].1, h, shard.len()) {
                lemma_store_ok(objs, i, h, shard);
            }
        } else {
            let kept = if objs.len() >= MAX_OBJECTS_IN_FLIGHT { objs.drop_first() } else { objs };
            assert(forall|a: int| 0 <= a < objs.len() ==> (#[trigger] objs[a]).0 != id) by {
                assert forall|a: int| 0 <= a < objs.len() implies (#[trigger] objs[a]).0 != id by {
                    if a >= i {
                        assert(objs[i].0 > id);
                    }
                }
            }
            assert(forall|a: int| 0 <= a < kept.len() ==> (#[trigger] kept[a]).0 != id);
            assert(reassembler_ok(kept));
            assert(kept.len() < MAX_OBJECTS_IN_FLIGHT);
            lemma_insert_pos_props(kept, id);
            let j = insert_pos(kept, id);
            let f = fresh_partial(h, shard.len());
            lemma_count_present_none(h.total_shards as nat);
            assert(partial_ok(f));
            let ins = kept.insert(j, (id, f));
            assert(forall|a: int| 0 <= a < ins.len() ==> (#[trigger] ins[a]) == if a < j { kept[a] } else if a == j { (id, f) } else { kept[a - 1] });
            assert(ids_sorted(ins)) by {
                assert forall|a: int, b: int| 0 <= a < b < ins.len() implies ins[a].0 < ins[b].0 by {
                    if a < j && b > j {
                        assert(kept[a].0 < id);
                        if j < kept.len() {
                            assert(kept[j].0 >= id);
                        }
                        assert(kept[b - 1].0 != id);
                        if b - 1 > j {
                            assert(kept[j].0 < kept[b - 1].0);
                        }
                    } else if a == j {
                        assert(kept[b - 1].0 != id);
                        assert(kept[j].0 >= id);
                        if b - 1 > j {
                            assert(kept[j].0 < kept[b - 1].0);
                        }
                    }
                }
            }
            assert(reassembler_ok(ins));
            lemma_store_ok(ins, j, h, shard);
        }
    }
}

/// The object's bytes padded with zeros to `n` bytes.
spec fn padded(object: Seq<u8>, n: int) -> Seq<u8> {
    Seq::new(n as nat, |k: int| if k < object.len() { object[k] } else { 0u8 })
}

proof fn lemma_flatten_data_shards(object: Seq<u8>, shard_len: int, m: int)
    requires
        shard_len > 0,
        m >= 0,
    ensures
        flatten(data_shards(object, shard_len, m)) == padded(object, m * shard_len),
    decreases m,
{
    let s = data_shards(object, shard_len, m);
    if m == 0 {
        assert(flatten(s) =~= padded(object, 0));
    } else {
        assert(s.drop_last() =~= data_shards(object, shard_len, m - 1));
        lemma_flatten_data_shards(object, shard_len, m - 1);
        let a = (m - 1) * shard_len;
        assert(a + shard_len == m * shard_len) by (nonlinear_arith)
            requires
                a == (m - 1) * shard_len,
        ;
        assert(0 <= a) by (nonlinear_arith)
            requires
                a == (m - 1) * shard_len,
                m >= 1,
                shard_len > 0,
        ;
        assert(flatten(s) =~= padded(object, m * shard_len));
    }
}

pub(crate) proof fn lemma_data_shards_cover(len: int, shard_len: int)
    requires
        shard_len > 0,
        len >= 0,
    ensures
        data_shard_count(len, shard_len) * shard_len >= len,
        data_shard_count(len, shard_len) >= 1,
{
    let q = len / shard_len;
    let r = len % shard_len;
    assert(len == q * shard_len + r) by (nonlinear_arith)
        requires
            shard_len > 0,
            q == len / shard_len,
            r == len % shard_len,
    ;
    let d = data_shard_count(len, shard_len);
    assert(0 <= r < shard_len);
    if r != 0 {
        assert(d == q + 1);
        assert(d * shard_len >= len) by (nonlinear_arith)
            requires
                d == q + 1,
                len == q * shard_len + r,
                r < shard_len,
        ;
    } else if q >= 1 {
        assert(d == q);
        assert(d * shard_len >= len) by (nonlinear_arith)
            requires
                d == q,
                len == q * shard_len + r,
                r == 0,
        ;
    } else {
        assert(d == 1);
        assert(d * shard_len >= len) by (nonlinear_arith)
            requires
                d == 1,
                q == 0,
                len == q * shard_len + r,
                r == 0,
                shard_len > 0,
        ;
    }
}

/// The data shards of an object all have the shard length, and joining
/// them and cutting at the object's length gives the object back.
pub proof fn lemma_data_shards_rebuild(object: Seq<u8>, shard_len: int)
    requires
        shard_len > 0,
        object.len() <= 0xFFFF,
    ensures
        ({
            let data = data_shards(object, shard_len, data_shard_count(object.len() as int, shard_len));
            &&& uniform_shards(data)
            &&& cut(flatten(data), object.len() as u16) == object
        }),
{
    let d = data_shard_count(object.len() as int, shard_len);
    lemma_data_shards_cover(object.len() as int, shard_len);
    lemma_flatten_data_shards(object, shard_len, d);
    let data = data_shards(object, shard_len, d);
    assert(data[0].len() == shard_len);
    assert(padded(object, d * shard_len).take(object.len() as int) =~= object);
}

/// Each fragment `split` produces for a nonempty object decodes to its own
/// header (object id, index, data and total shard counts, object length)
/// and to shard `i` of the object's codeword.
pub proof fn lemma_split_fragment_decodes(
    object_id: u16,
    object: Seq<u8>,
    shard_len: int,
    redundancy_pct: int,
    frags: Seq<Seq<u8>>,
    i: int,
)
    requires
        split_spec(object_id, object, shard_len, redundancy_pct) == Ok::<Seq<Seq<u8>>, Error>(frags),
        object.len() > 0,
        0 <= i < frags.len(),
        frags[i].len() == FRAG_HEADER_LEN + shard_len,
    ensures
        ({
            let d = data_shard_count(object.len() as int, shard_len);
            let p = parity_shard_count(d, redundancy_pct);
            frag_decode_spec(frags[i]) == Ok::<(FragHeader, Seq<u8>), Error>(
                (
                    FragHeader {
                        object_id,
                        index: i as u8,
                        data_shards: d as u8,
                        total_shards: (d + p) as u8,
                        object_len: object.len() as u16,
                    },
                    rs_codeword(data_shards(object, shard_len, d), p as nat)[i],
                ),
            )
        }),
{
    let d = data_shard_count(object.len() as int, shard_len);
    let p = parity_shard_count(d, redundancy_pct);
    lemma_data_shards_cover(object.len() as int, shard_len);
    let code = rs_codeword(data_shards(object, shard_len, d), p as nat);
    let f = frags[i];
    let hb = frag_header_bytes(object_id, i as u8, d as u8, (d + p) as u8, object.len() as u16);
    assert(f == hb + code[i]);
    lemma_be16_roundtrip(object_id);
    lemma_be16_roundtrip(object.len() as u16);
    assert(f[0] == be16(object_id)[0] && f[1] == be16(object_id)[1]);
    assert(f[5] == be16(object.len() as u16)[0] && f[6] == be16(object.len() as u16)[1]);
    assert(f.skip(FRAG_HEADER_LEN as int) =~= code[i]);
}

/// Fragments of one `split` make a genuine partial: a partial with the
/// split's header values whose held shards are shards of the object's
/// codeword is genuine for the object's data shards, which rebuild the
/// object.
pub proof fn lemma_split_partial_genuine(
    object_id: u16,
    object: Seq<u8>,
    shard_len: int,
    redundancy_pct: int,
    p: PartialModel,
)
    requires
        shard_len > 0,
        split_spec(object_id, object, shard_len, redundancy_pct) is Ok,
        ({
            let d = data_shard_count(object.len() as int, shard_len);
            let par = parity_shard_count(d, redundancy_pct);
            &&& p.data_shards == d
            &&& p.total_shards == d + par
            &&& p.object_len == object.len()
            &&& agrees_with_codeword(p.shards, data_shards(object, shard_len, d), par as nat)
        }),
    ensures
        ({
            let data = data_shards(object, shard_len, data_shard_count(object.len() as int, shard_len));
            &&& genuine(p, data)
            &&& cut(flatten(data), p.object_len) == object
        }),
{
    lemma_data_shards_rebuild(object, shard_len);
}

/// A fresh partial holds no shard, so it agrees with every codeword of its
/// size; storing the codeword's own shard keeps a partial in agreement.
pub proof fn lemma_genuine_shard_keeps_agreement(
    p: PartialModel,
    h: FragHeader,
    shard: Seq<u8>,
    data: Seq<Seq<u8>>,
    parity: nat,
)
    requires
        h.total_shards == data.len() + parity,
        h.index < h.total_shards,
        p.shards.len() == h.total_shards,
        agrees_with_codeword(p.shards, data, parity),
        shard == rs_codeword(data, parity)[h.index as int],
    ensures
        agrees_with_codeword(fresh_partial(h, shard.len()).shards, data, parity),
        agrees_with_codeword(with_shard(p, h.index, shard).shards, data, parity),
{
}

/// Every entry for object `id` carries the header values of this split of
/// `object` and holds only shards of the object's codeword.
pub open spec fn entry_from_split(
    objs: Seq<(u16, PartialModel)>,
    id: u16,
    object: Seq<u8>,
    shard_len: int,
    redundancy_pct: int,
) -> bool {
    let d = data_shard_count(object.len() as int, shard_len);
    let par = parity_shard_count(d, redundancy_pct);
    forall|k: int| #![trigger objs[k]] 0 <= k < objs.len() && objs[k].0 == id ==> {
        &&& objs[k].1.data_shards == d
        &&& objs[k].1.total_shards == d + par
        &&& objs[k].1.object_len == object.len()
        &&& objs[k].1.shard_len == shard_len
        &&& agrees_with_codeword(objs[k].1.shards, data_shards(object, shard_len, d), par as nat)
    }
}

/// Fragments of one `split` reassemble into the object, whatever subset
/// arrives, in whatever order, with duplicates: pushing any of them keeps
/// the entry for the object consistent with the split, and the push that
/// completes the entry completes a genuine partial whose data shards,
/// joined and cut, are the object (so by [`Reassembler::push`], that push
/// returns exactly the object). Empty objects are left out: their zero
/// length is refused by every receiver.
pub proof fn lemma_split_fragments_reassemble(
    object_id: u16,
    object: Seq<u8>,
    shard_len: int,
    redundancy_pct: int,
    frags: Seq<Seq<u8>>,
    i: int,
    objs: Seq<(u16, PartialModel)>,
)
    requires
        shard_len > 0,
        object.len() > 0,
        split_spec(object_id, object, shard_len, redundancy_pct) == Ok::<Seq<Seq<u8>>, Error>(frags),
        forall|j: int| 0 <= j < frags.len() ==> (#[trigger] frags[j]).len() == FRAG_HEADER_LEN + shard_len,
        0 <= i < frags.len(),
        reassembler_ok(objs),
        entry_from_split(objs, object_id, object, shard_len, redundancy_pct),
    ensures
        entry_from_split(push_spec(objs, frags[i]).0, object_id, object, shard_len, redundancy_pct),
        push_completes(objs, frags[i]) matches Some(p) ==> {
            let data = data_shards(object, shard_len, data_shard_count(object.len() as int, shard_len));
            &&& genuine(p, data)
            &&& cut(flatten(data), p.object_len) == object
        },
{
    let d = data_shard_count(object.len() as int, shard_len);
    let par = parity_shard_count(d, redundancy_pct);
    let data = data_shards(object, shard_len, d);
    let code = rs_codeword(data, par as nat);
    lemma_data_shards_cover(object.len() as int, shard_len);
    lemma_split_fragment_decodes(object_id, object, shard_len, redundancy_pct, frags, i);
    let h = FragHeader {
        object_id,
        index: i as u8,
        data_shards: d as u8,
        total_shards: (d + par) as u8,
        object_len: object.len() as u16,
    };
    let shard = code[i];
    let hb = frag_header_bytes(object_id, i as u8, d as u8, (d + par) as u8, object.len() as u16);
    assert(frags[i] == hb + code[i]);
    assert(shard.len() == shard_len);
    assert(frag_decode_spec(frags[i]) == Ok::<(FragHeader, Seq<u8>), Error>((h, shard)));
    assert(d + par <= 255);
    lemma_insert_pos_props(objs, object_id);
    let pos = insert_pos(objs, object_id);
    if pos < objs.len() && objs[pos].0 == object_id {
        let p0 = objs[pos].1;
        assert(!contradicts(p0, h, shard.len()));
        lemma_genuine_shard_keeps_agreement(p0, h, shard, data, par as nat);
        let p = with_shard(p0, h.index, shard);
        assert(forall|k: int| 0 <= k < objs.len() && k != pos ==> (#[trigger] objs[k]).0 != object_id) by {
            assert forall|k: int| 0 <= k < objs.len() && k != pos implies (#[trigger] objs[k]).0 != object_id by {
                if k < pos {
                    assert(objs[k].0 < objs[pos].0);
                } else {
                    assert(objs[pos].0 < objs[k].0);
                }
            }
        }
        if p.have < p.data_shards {
            let t = objs.update(pos, (object_id, p));
            assert(forall|k: int| 0 <= k < t.len() && k != pos ==> #[trigger] t[k] == objs[k]);
        } else {
            let t = objs.remove(pos);
            assert(forall|k: int| 0 <= k < t.len() ==> #[trigger] t[k] == if k < pos { objs[k] } else { objs[k + 1] });
            lemma_split_partial_genuine(object_id, object, shard_len, redundancy_pct, p);
        }
    } else {
        let kept = if objs.len() >= MAX_OBJECTS_IN_FLIGHT { objs.drop_first() } else { objs };
        assert(forall|a: int| 0 <= a < objs.len() ==> (#[trigger] objs[a]).0 != object_id) by {
            assert forall|a: int| 0 <= a < objs.len() implies (#[trigger] objs[a]).0 != object_id by {
                if a >= pos {
                    assert(objs[pos].0 > object_id);
                }
            }
        }
        assert(forall|a: int| 0 <= a < kept.len() ==> (#[trigger] kept[a]).0 != object_id);
        lemma_insert_pos_props(kept, object_id);
        let j = insert_pos(kept, object_id);
        let f = fresh_partial(h, shard.len());
        assert(agrees_with_codeword(f.shards, data, par as nat));
        lemma_genuine_shard_keeps_agreement(f, h, shard, data, par as nat);
        let ins = kept.insert(j, (object_id, f));
        assert(forall|a: int| 0 <= a < ins.len() ==> (#[trigger] ins[a]) == if a < j { kept[a] } else if a == j { (object_id, f) } else { kept[a - 1] });
        let p = with_shard(f, h.index, shard);
        if p.have < p.data_shards {
            let t = ins.update(j, (object_id, p));
            assert(forall|k: int| 0 <= k < t.len() && k != j ==> #[trigger] t[k] == ins[k]);
        } else {
            let t = ins.remove(j);
            assert(forall|k: int| 0 <= k < t.len() ==> #[trigger] t[k] == if k < j { ins[k] } else { ins[k + 1] });
            lemma_split_partial_genuine(object_id, object, shard_len, redundancy_pct, p);
        }
    }
}

/// The objects in flight after pushing each payload in turn.
pub open spec fn push_all_spec(objs: Seq<(u16, PartialModel)>, payloads: Seq<Seq<u8>>) -> Seq<(u16, PartialModel)>
    decreases payloads.len(),
{
    if payloads.len() == 0 {
        objs
    } else {
        push_spec(push_all_spec(objs, payloads.drop_last()), payloads.last()).0
    }
}

/// Progress of reassembling one object from the fragments at the chosen
/// indices `order`, after the first `k` of them: the objects in flight are
/// well formed and consistent with the split; there is no entry for the
/// object before any arrived, and afterwards one entry holding exactly `k`
/// shards, all at indices chosen so far.
pub open spec fn reassembly_progress(
    st: Seq<(u16, PartialModel)>,
    id: u16,
    object: Seq<u8>,
    shard_len: int,
    redundancy_pct: int,
    order: Seq<int>,
    k: int,
) -> bool {
    &&& reassembler_ok(st)
    &&& entry_from_split(st, id, object, shard_len, redundancy_pct)
    &&& k == 0 ==> forall|a: int| 0 <= a < st.len() ==> (#[trigger] st[a]).0 != id
    &&& k > 0 ==> exists|pos: int|
        #![trigger st[pos]]
        0 <= pos < st.len() && st[pos].0 == id && st[pos].1.have == k && forall|x: int|
            0 <= x < st[pos].1.shards.len() && (#[trigger] st[pos].1.shards[x]) is Some ==> order.take(k).contains(x)
}

/// The fragments `split` produced for an object, at distinct indices.
pub open spec fn distinct_indices(order: Seq<int>, n: int) -> bool {
    &&& forall|a: int, b: int| 0 <= a < b < order.len() ==> order[a] != order[b]
    &&& forall|a: int| 0 <= a < order.len() ==> 0 <= #[trigger] order[a] < n
}

proof fn lemma_insert_pos_of_held(s: Seq<(u16, PartialModel)>, id: u16, pos: int)
    requires
        ids_sorted(s),
        0 <= pos < s.len(),
        s[pos].0 == id,
    ensures
        insert_pos(s, id) == pos,
{
    assert forall|j: int| 0 <= j < pos implies (#[trigger] s[j]).0 < id by {
        assert(s[j].0 < s[pos].0);
    }
    lemma_insert_pos(s, id, pos);
}

pub(crate) proof fn lemma_reassembly_step(
    object_id: u16,
    object: Seq<u8>,
    shard_len: int,
    redundancy_pct: int,
    frags: Seq<Seq<u8>>,
    order: Seq<int>,
    k: int,
    st: Seq<(u16, PartialModel)>,
)
    requires
        shard_len > 0,
        object.len() > 0,
        split_spec(object_id, object, shard_len, redundancy_pct) == Ok::<Seq<Seq<u8>>, Error>(frags),
        forall|j: int| 0 <= j < frags.len() ==> (#[trigger] frags[j]).len() == FRAG_HEADER_LEN + shard_len,
        order.len() == data_shard_count(object.len() as int, shard_len),
        distinct_indices(order, frags.len() as int),
        0 <= k < order.len(),
        reassembly_progress(st, object_id, object, shard_len, redundancy_pct, order, k),
    ensures
        k + 1 < order.len() ==> push_spec(st, frags[order[k]]).1 == Ok::<Option<Seq<u8>>, Error>(None),
        k + 1 < order.len() ==> reassembly_progress(
            push_spec(st, frags[order[k]]).0,
            object_id,
            object,
            shard_len,
            redundancy_pct,
            order,
            k + 1,
        ),
        k + 1 == order.len() ==> push_completes(st, frags[order[k]]) is Some,
        k + 1 == order.len() ==> reassembler_ok(push_spec(st, frags[order[k]]).0),
        k + 1 == order.len() ==> forall|a: int|
            0 <= a < push_spec(st, frags[order[k]]).0.len() ==> (#[trigger] push_spec(st, frags[order[k]]).0[a]).0
                != object_id,
{
    let d = data_shard_count(object.len() as int, shard_len);
    let par = parity_shard_count(d, redundancy_pct);
    let data = data_shards(object, shard_len, d);
    let code = rs_codeword(data, par as nat);
    let i = order[k];
    let payload = frags[i];
    lemma_data_shards_cover(object.len() as int, shard_len);
    lemma_split_fragment_decodes(object_id, object, shard_len, redundancy_pct, frags, i);
    lemma_split_fragments_reassemble(object_id, object, shard_len, redundancy_pct, frags, i, st);
    lemma_push_keeps_bound(st, payload);
    let h = FragHeader {
        object_id,
        index: i as u8,
        data_shards: d as u8,
        total_shards: (d + par) as u8,
        object_len: object.len() as u16,
    };
    let shard = code[i];
    let hb = frag_header_bytes(object_id, i as u8, d as u8, (d + par) as u8, object.len() as u16);
    assert(payload == hb + code[i]);
    assert(shard.len() == shard_len);
    assert(frag_decode_spec(payload) == Ok::<(FragHeader, Seq<u8>), Error>((h, shard)));
    assert(d + par <= 255);
    assert(h.index as int == i);
    let (st2, res) = push_spec(st, payload);
    if k == 0 {
        lemma_insert_pos_props(st, object_id);
        let pos = insert_pos(st, object_id);
        let kept = if st.len() >= MAX_OBJECTS_IN_FLIGHT { st.drop_first() } else { st };
        assert(forall|a: int| 0 <= a < kept.len() ==> (#[trigger] kept[a]).0 != object_id);
        lemma_insert_pos_props(kept, object_id);
        let j = insert_pos(kept, object_id);
        let f = fresh_partial(h, shard.len());
        let ins = kept.insert(j, (object_id, f));
        assert(ins[j] == (object_id, f));
        let p = with_shard(f, h.index, shard);
        assert(p.have == 1);
        assert(forall|a: int| 0 <= a < ins.len() ==> (#[trigger] ins[a]) == if a < j { kept[a] } else if a == j { (object_id, f) } else { kept[a - 1] });
        if k + 1 < order.len() {
            assert(st2 == ins.update(j, (object_id, p)));
            assert(st2[j] == (object_id, p));
            assert forall|x: int| 0 <= x < st2[j].1.shards.len() && (#[trigger] st2[j].1.shards[x]) is Some implies order.take(
                k + 1,
            ).contains(x) by {
                assert(x == i);
                assert(order.take(k + 1)[0] == i);
            }
        } else {
            let t = ins.remove(j);
            assert(st2 == t);
            assert(forall|a: int| 0 <= a < t.len() ==> #[trigger] t[a] == if a < j { ins[a] } else { ins[a + 1] });
        }
    } else {
        let pos = choose|pos: int|
            #![trigger st[pos]]
            0 <= pos < st.len() && st[pos].0 == object_id && st[pos].1.have == k && forall|x: int|
                0 <= x < st[pos].1.shards.len() && (#[trigger] st[pos].1.shards[x]) is Some ==> order.take(k).contains(x);
        lemma_insert_pos_of_held(st, object_id, pos);
        let p0 = st[pos].1;
        assert(!contradicts(p0, h, shard.len()));
        assert(p0.shards[i] is None) by {
            if p0.shards[i] is Some {
                assert(order.take(k).contains(i));
                let j = choose|j: int| 0 <= j < order.take(k).len() && order.take(k)[j] == i;
                assert(order[j] == order[k]);
            }
        }
        let p = with_shard(p0, h.index, shard);
        assert(p.have == k + 1);
        assert(forall|a: int| 0 <= a < st.len() && a != pos ==> (#[trigger] st[a]).0 != object_id) by {
            assert forall|a: int| 0 <= a < st.len() && a != pos implies (#[trigger] st[a]).0 != object_id by {
                if a < pos {
                    assert(st[a].0 < st[pos].0);
                } else {
                    assert(st[pos].0 < st[a].0);
                }
            }
        }
        if k + 1 < order.len() {
            assert(st2 == st.update(pos, (object_id, p)));
            assert(st2[pos] == (object_id, p));
            assert forall|x: int| 0 <= x < st2[pos].1.shards.len() && (#[trigger] st2[pos].1.shards[x]) is Some implies order.take(
                k + 1,
            ).contains(x) by {
                if x == i {
                    assert(order.take(k + 1)[k] == i);
                } else {
                    assert(p0.shards[x] is Some);
                    assert(order.take(k).contains(x));
                    let j = choose|j: int| 0 <= j < order.take(k).len() && order.take(k)[j] == x;
                    assert(order.take(k + 1)[j] == x);
                }
            }
        } else {
            let t = st.remove(pos);
            assert(st2 == t);
            assert(forall|a: int| 0 <= a < t.len() ==> #[trigger] t[a] == if a < pos { st[a] } else { st[a + 1] });
        }
    }
}

proof fn lemma_reassembly_progress(
    object_id: u16,
    object: Seq<u8>,
    shard_len: int,
    redundancy_pct: int,
    frags: Seq<Seq<u8>>,
    order: Seq<int>,
    objs: Seq<(u16, PartialModel)>,
    k: int,
)
    requires
        shard_len > 0,
        object.len() > 0,
        split_spec(object_id, object, shard_len, redundancy_pct) == Ok::<Seq<Seq<u8>>, Error>(frags),
        forall|j: int| 0 <= j < frags.len() ==> (#[trigger] frags[j]).len() == FRAG_HEADER_LEN + shard_len,
        order.len() == data_shard_count(object.len() as int, shard_len),
        distinct_indices(order, frags.len() as int),
        reassembler_ok(objs),
        forall|a: int| 0 <= a < objs.len() ==> (#[trigger] objs[a]).0 != object_id,
        0 <= k < order.len(),
    ensures
        reassembly_progress(
            push_all_spec(objs, Seq::new(order.len(), |j: int| frags[order[j]]).take(k)),
            object_id,
            object,
            shard_len,
            redundancy_pct,
            order,
            k,
        ),
    decreases k,
{
    let ps = Seq::new(order.len(), |j: int| frags[order[j]]);
    if k == 0 {
        assert(ps.take(0) =~= Seq::<Seq<u8>>::empty());
    } else {
        lemma_reassembly_progress(object_id, object, shard_len, redundancy_pct, frags, order, objs, k - 1);
        let st = push_all_spec(objs, ps.take(k - 1));
        lemma_reassembly_step(object_id, object, shard_len, redundancy_pct, frags, order, k - 1, st);
        assert(ps.take(k).drop_last() =~= ps.take(k - 1));
        assert(ps.take(k).last() == frags[order[k - 1]]);
    }
}

/// Any `d` distinct fragments of one `split`, `d` being its data shard
/// count, pushed in any order into a reassembler that holds nothing for the
/// object (and with nothing else pushed meanwhile): the first `d - 1`
/// pushes return nothing yet, the `d`-th completes a genuine partial whose
/// data, joined and cut, is exactly the object (so by [`Reassembler::push`]
/// it returns the object), and the object then leaves the reassembler.
/// [`crate::reassembly::lemma_any_k_fragments_reassemble_interleaved`]
/// states the same with pushes for other objects in between.
pub proof fn lemma_any_k_fragments_reassemble(
    object_id: u16,
    object: Seq<u8>,
    shard_len: int,
    redundancy_pct: int,
    frags: Seq<Seq<u8>>,
    order: Seq<int>,
    objs: Seq<(u16, PartialModel)>,
)
    requires
        shard_len > 0,
        object.len() > 0,
        split_spec(object_id, object, shard_len, redundancy_pct) == Ok::<Seq<Seq<u8>>, Error>(frags),
        forall|j: int| 0 <= j < frags.len() ==> (#[trigger] frags[j]).len() == FRAG_HEADER_LEN + shard_len,
        order.len() == data_shard_count(object.len() as int, shard_len),
        distinct_indices(order, frags.len() as int),
        reassembler_ok(objs),
        forall|a: int| 0 <= a < objs.len() ==> (#[trigger] objs[a]).0 != object_id,
    ensures
        ({
            let d = order.len() as int;
            let ps = Seq::new(order.len(), |j: int| frags[order[j]]);
            let data = data_shards(object, shard_len, d);
            &&& forall|k: int| 0 <= k < d - 1 ==> #[trigger] push_spec(push_all_spec(objs, ps.take(k)), ps[k]).1
                == Ok::<Option<Seq<u8>>, Error>(None)
            &&& push_completes(push_all_spec(objs, ps.take(d - 1)), ps[d - 1]) matches Some(p) && genuine(p, data)
                && cut(flatten(data), p.object_len) == object
            &&& forall|a: int| 0 <= a < push_all_spec(objs, ps).len() ==> (#[trigger] push_all_spec(objs, ps)[a]).0
                != object_id
        }),
{
    let d = order.len() as int;
    let ps = Seq::new(order.len(), |j: int| frags[order[j]]);
    lemma_data_shards_cover(object.len() as int, shard_len);
    assert forall|k: int| 0 <= k < d - 1 implies #[trigger] push_spec(push_all_spec(objs, ps.take(k)), ps[k]).1
        == Ok::<Option<Seq<u8>>, Error>(None) by {
        lemma_reassembly_progress(object_id, object, shard_len, redundancy_pct, frags, order, objs, k);
        lemma_reassembly_step(object_id, object, shard_len, redundancy_pct, frags, order, k, push_all_spec(objs, ps.take(k)));
    }
    lemma_reassembly_progress(object_id, object, shard_len, redundancy_pct, frags, order, objs, d - 1);
    let st = push_all_spec(objs, ps.take(d - 1));
    lemma_reassembly_step(object_id, object, shard_len, redundancy_pct, frags, order, d - 1, st);
    lemma_split_fragments_reassemble(object_id, object, shard_len, redundancy_pct, frags, order[d - 1], st);
    assert(ps.take(d) =~= ps);
    assert(ps.drop_last() =~= ps.take(d - 1));
}

/// A fragment whose header disagrees with the partial held for its object
/// id, in the data shard count, the total shard count, the object length or
/// the shard length, is refused with `BadFragment`, and the objects in
/// flight stay exactly as they were.
pub proof fn lemma_push_refuses_contradicting_header(objs: Seq<(u16, PartialModel)>, payload: Seq<u8>, a: int)
    requires
        ids_sorted(objs),
        0 <= a < objs.len(),
        frag_decode_spec(payload) matches Ok((h, shard)) && objs[a].0 == h.object_id && (objs[a].1.data_shards
            != h.data_shards || objs[a].1.total_shards != h.total_shards || objs[a].1.object_len != h.object_len
            || objs[a].1.shard_len != shard.len()),
    ensures
        push_spec(objs, payload) == (objs, Err::<Option<Seq<u8>>, Error>(Error::BadFragment)),
{
    let (h, shard) = frag_decode_spec(payload)->Ok_0;
    lemma_insert_pos_of_held(objs, h.object_id, a);
}

/// After a push that succeeds, the partial held for the fragment's object
/// id, if the object is still in flight, carries exactly the fragment's
/// header values: its data and total shard counts, its object length and
/// its shard length. So every shard held for an object came from a
/// fragment that agreed with it on all of them.
pub proof fn lemma_push_keeps_headers(objs: Seq<(u16, PartialModel)>, payload: Seq<u8>)
    requires
        reassembler_ok(objs),
        frag_decode_spec(payload) is Ok,
        push_spec(objs, payload).1 is Ok,
    ensures
        ({
            let (h, shard) = frag_decode_spec(payload)->Ok_0;
            let t = push_spec(objs, payload).0;
            forall|k: int| #![trigger t[k]] 0 <= k < t.len() && t[k].0 == h.object_id ==> {
                &&& t[k].1.data_shards == h.data_shards
                &&& t[k].1.total_shards == h.total_shards
                &&& t[k].1.object_len == h.object_len
                &&& t[k].1.shard_len == shard.len()
            }
        }),
{
    let (h, shard) = frag_decode_spec(payload)->Ok_0;
    let id = h.object_id;
    lemma_decoded(payload);
    lemma_push_keeps_bound(objs, payload);
    let t = push_spec(objs, payload).0;
    lemma_insert_pos_props(objs, id);
    let i = insert_pos(objs, id);
    if i < objs.len() && objs[i].0 == id {
        assert(!contradicts(objs[i].1, h, shard.len()));
        let p = with_shard(objs[i].1, h.index, shard);
        if p.have < p.data_shards {
            assert(t == objs.update(i, (id, p)));
            assert forall|k: int| #![trigger t[k]] 0 <= k < t.len() && t[k].0 == id implies k == i by {
                if k != i {
                    assert(t[k] == objs[k]);
                    if k < i {
                        assert(objs[k].0 < objs[i].0);
                    } else {
                        assert(objs[i].0 < objs[k].0);
                    }
                }
            }
        } else {
            assert(t == objs.remove(i));
            assert forall|k: int| #![trigger t[k]] 0 <= k < t.len() implies t[k].0 != id by {
                if k < i {
                    assert(t[k] == objs[k]);
                    assert(objs[k].0 < objs[i].0);
                } else {
                    assert(t[k] == objs[k + 1]);
                    assert(objs[i].0 < objs[k + 1].0);
                }
            }
        }
    } else {
        let kept = if objs.len() >= MAX_OBJECTS_IN_FLIGHT { objs.drop_first() } else { objs };
        assert(forall|a: int| 0 <= a < objs.len() ==> (#[trigger] objs[a]).0 != id) by {
            assert forall|a: int| 0 <= a < objs.len() implies (#[trigger] objs[a]).0 != id by {
                if a >= i {
                    assert(objs[i].0 > id);
                }
            }
        }
        assert(forall|a: int| 0 <= a < kept.len() ==> (#[trigger] kept[a]).0 != id);
        lemma_insert_pos_props(kept, id);
        let j = insert_pos(kept, id);
        let f = fresh_partial(h, shard.len());
        let ins = kept.insert(j, (id, f));
        assert(forall|a: int| 0 <= a < ins.len() ==> (#[trigger] ins[a]) == if a < j { kept[a] } else if a == j { (id, f) } else { kept[a - 1] });
        let p = with_shard(f, h.index, shard);
        if p.have < p.data_shards {
            assert(t == ins.update(j, (id, p)));
            assert forall|k: int| #![trigger t[k]] 0 <= k < t.len() && t[k].0 == id implies k == j by {
                if k != j {
                    assert(t[k] == ins[k]);
                }
            }
        } else {
            assert(t == ins.remove(j));
            assert forall|k: int| #![trigger t[k]] 0 <= k < t.len() implies t[k].0 != id by {
                if k < j {
                    assert(t[k] == ins[k]);
                } else {
                    assert(t[k] == ins[k + 1]);
                }
            }
        }
    }
}

impl View for Reassembler {
    type V = Seq<(u16, PartialModel)>;

    closed spec fn view(&self) -> Seq<(u16, PartialModel)> {
        objs_view(self.objects@)
    }
}

impl Reassembler {
    #[verifier::type_invariant]
    spec fn inv(&self) -> bool {
        reassembler_ok(self@)
    }

    /// An empty reassembler.
    pub fn new() -> (r: Self)
        ensures
            r@ == Seq::<(u16, PartialModel)>::empty(),
            reassembler_ok(r@),
    {
        let r = Self { objects: Vec::new() };
        assert(r@ =~= Seq::<(u16, PartialModel)>::empty());
        r
    }

    /// Feed one fragment payload.
    ///
    /// Returns the object once enough shards have arrived, `None` while
    /// still waiting. A fragment whose header contradicts one already seen
    /// for the same object id is rejected rather than allowed to corrupt the
    /// set; a fragment for a new object when [`MAX_OBJECTS_IN_FLIGHT`] are
    /// held first evicts the lowest object id.
    pub fn push(&mut self, payload: &[u8]) -> (res: Result<Option<Vec<u8>>, Error>)
        ensures
            final(self)@ == push_spec(old(self)@, payload@).0,
            object_result_view(res) == push_spec(old(self)@, payload@).1,
            push_completes(old(self)@, payload@) matches Some(p) ==> forall|data: Seq<Seq<u8>>| #[trigger] genuine(p, data)
                ==> object_result_view(res) == Ok::<Option<Seq<u8>>, Error>(Some(cut(flatten(data), p.object_len))),
            reassembler_ok(final(self)@),
    {
        proof {
            use_type_invariant(&*self);
        }
        let ghost s0 = self@;
        let (h, shard) = match FragHeader::decode(payload) {
            Ok(x) => x,
            Err(e) => {
                return Err(e);
            },
        };
        proof {
            lemma_decoded(payload@);
            lemma_push_keeps_bound(s0, payload@);
        }
        let mut objs: Vec<(u16, Partial)> = Vec::new();
        std::mem::swap(&mut objs, &mut self.objects);
        let i = position(&objs, h.object_id);
        let res;
        if i < objs.len() && objs[i].0 == h.object_id {
            let p = &objs[i].1;
            if p.data_shards != h.data_shards || p.total_shards != h.total_shards || p.object_len != h.object_len
                || p.shard_len != shard.len() {
                self.objects = objs;
                return Err(Error::BadFragment);
            }
            res = store_shard(&mut objs, i, &h, shard);
        } else {
            if objs.len() >= MAX_OBJECTS_IN_FLIGHT {
                objs.remove(0);
                proof {
                    assert(objs_view(objs@) =~= s0.drop_first());
                }
            }
            let j = position(&objs, h.object_id);
            let fresh = Partial {
                data_shards: h.data_shards,
                total_shards: h.total_shards,
                object_len: h.object_len,
                shard_len: shard.len(),
                shards: none_shards(h.total_shards as usize),
                have: 0,
            };
            let ghost kept = objs_view(objs@);
            proof {
                lemma_count_present_none(h.total_shards as nat);
            }
            objs.insert(j, (h.object_id, fresh));
            proof {
                assert(objs_view(objs@) =~= kept.insert(j as int, (h.object_id, fresh_partial(h, shard@.len()))));
            }
            res = store_shard(&mut objs, j, &h, shard);
        }
        self.objects = objs;
        res
    }

    /// Number of objects currently partially received.
    pub fn in_flight(&self) -> (n: usize)
        ensures
            n == self@.len(),
            n <= MAX_OBJECTS_IN_FLIGHT,
    {
        proof {
            use_type_invariant(self);
        }
        self.objects.len()
    }
}

} // verus!
