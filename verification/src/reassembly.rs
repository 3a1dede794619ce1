//! Reassembly of one object while fragments of other objects arrive in
//! between.
//!
//! A [`Reassembler`](crate::frag::Reassembler) tracks up to
//! [`MAX_OBJECTS_IN_FLIGHT`] objects at once. A push for another object
//! leaves the partial of an object alone unless it evicts it, so any `d`
//! fragments of one object, interleaved with fragments of others, still
//! rebuild it.

use vstd::prelude::*;
use crate::frag::{
    PartialModel, MAX_OBJECTS_IN_FLIGHT, FRAG_HEADER_LEN, frag_decode_spec, push_spec, push_all_spec, push_completes,
    insert_pos, contradicts, with_shard, fresh_partial, reassembler_ok, reassembly_progress, distinct_indices,
    split_spec, data_shard_count, data_shards, genuine, cut, flatten, lemma_insert_pos_props, lemma_push_keeps_bound,
    lemma_reassembly_step, lemma_data_shards_cover, lemma_split_fragments_reassemble,
};
use crate::Error;

verus! {

/// Pushing `payload` leaves the entry for object `id` alone: the payload is
/// no fragment of that object, and if it opens a new object while
/// [`MAX_OBJECTS_IN_FLIGHT`] are held, the object it evicts (the lowest id)
/// is another one.
pub open spec fn spares_entry(st: Seq<(u16, PartialModel)>, payload: Seq<u8>, id: u16) -> bool {
    match frag_decode_spec(payload) {
        Err(_) => true,
        Ok((h, _)) => {
            &&& h.object_id != id
            &&& (st.len() < MAX_OBJECTS_IN_FLIGHT || st[0].0 != id || exists|a: int|
                0 <= a < st.len() && (#[trigger] st[a]).0 == h.object_id)
        },
    }
}

/// The partials `s` holds for object `id`.
spec fn entries(s: Seq<(u16, PartialModel)>, id: u16) -> Set<PartialModel> {
    Set::new(|p: PartialModel| exists|a: int| 0 <= a < s.len() && #[trigger] s[a] == (id, p))
}

proof fn lemma_entries_update(s: Seq<(u16, PartialModel)>, i: int, v: (u16, PartialModel), id: u16)
    requires
        0 <= i < s.len(),
        s[i].0 != id,
        v.0 != id,
    ensures
        entries(s.update(i, v), id) == entries(s, id),
{
    let t = s.update(i, v);
    assert forall|p: PartialModel| entries(t, id).contains(p) implies entries(s, id).contains(p) by {
        let a = choose|a: int| 0 <= a < t.len() && #[trigger] t[a] == (id, p);
        assert(s[a] == (id, p));
    }
    assert forall|p: PartialModel| entries(s, id).contains(p) implies entries(t, id).contains(p) by {
        let b = choose|b: int| 0 <= b < s.len() && #[trigger] s[b] == (id, p);
        assert(t[b] == (id, p));
    }
    assert(entries(t, id) =~= entries(s, id));
}

proof fn lemma_entries_remove(s: Seq<(u16, PartialModel)>, i: int, id: u16)
    requires
        0 <= i < s.len(),
        s[i].0 != id,
    ensures
        entries(s.remove(i), id) == entries(s, id),
{
    let t = s.remove(i);
    assert forall|p: PartialModel| entries(t, id).contains(p) implies entries(s, id).contains(p) by {
        let a = choose|a: int| 0 <= a < t.len() && #[trigger] t[a] == (id, p);
        if a < i {
            assert(s[a] == (id, p));
        } else {
            assert(s[a + 1] == (id, p));
        }
    }
    assert forall|p: PartialModel| entries(s, id).contains(p) implies entries(t, id).contains(p) by {
        let b = choose|b: int| 0 <= b < s.len() && #[trigger] s[b] == (id, p);
        if b < i {
            assert(t[b] == (id, p));
        } else {
            assert(t[b - 1] == (id, p));
        }
    }
    assert(entries(t, id) =~= entries(s, id));
}

proof fn lemma_entries_insert(s: Seq<(u16, PartialModel)>, j: int, v: (u16, PartialModel), id: u16)
    requires
        0 <= j <= s.len(),
        v.0 != id,
    ensures
        entries(s.insert(j, v), id) == entries(s, id),
{
    let t = s.insert(j, v);
    assert forall|p: PartialModel| entries(t, id).contains(p) implies entries(s, id).contains(p) by {
        let a = choose|a: int| 0 <= a < t.len() && #[trigger] t[a] == (id, p);
        if a < j {
            assert(s[a] == (id, p));
        } else {
            assert(a != j);
            assert(s[a - 1] == (id, p));
        }
    }
    assert forall|p: PartialModel| entries(s, id).contains(p) implies entries(t, id).contains(p) by {
        let b = choose|b: int| 0 <= b < s.len() && #[trigger] s[b] == (id, p);
        if b < j {
            assert(t[b] == (id, p));
        } else {
            assert(t[b + 1] == (id, p));
        }
    }
    assert(entries(t, id) =~= entries(s, id));
}

/// A push that spares object `id` leaves its entry as it was.
proof fn lemma_spared_push_same_entries(st: Seq<(u16, PartialModel)>, payload: Seq<u8>, id: u16)
    requires
        reassembler_ok(st),
        spares_entry(st, payload, id),
    ensures
        entries(push_spec(st, payload).0, id) == entries(st, id),
{
    if frag_decode_spec(payload) is Ok {
        let (h, shard) = frag_decode_spec(payload)->Ok_0;
        let hid = h.object_id;
        lemma_insert_pos_props(st, hid);
        let i = insert_pos(st, hid);
        if i < st.len() && st[i].0 == hid {
            if !contradicts(st[i].1, h, shard.len()) {
                let p = with_shard(st[i].1, h.index, shard);
                if p.have < p.data_shards {
                    lemma_entries_update(st, i, (hid, p), id);
                } else {
                    lemma_entries_remove(st, i, id);
                }
            }
        } else {
            assert(forall|a: int| 0 <= a < st.len() ==> (#[trigger] st[a]).0 != hid) by {
                assert forall|a: int| 0 <= a < st.len() implies (#[trigger] st[a]).0 != hid by {
                    if a >= i {
                        assert(st[i].0 > hid);
                    }
                }
            }
            let kept = if st.len() >= MAX_OBJECTS_IN_FLIGHT { st.drop_first() } else { st };
            if st.len() >= MAX_OBJECTS_IN_FLIGHT {
                assert(st[0].0 != id);
                assert(kept =~= st.remove(0));
                lemma_entries_remove(st, 0, id);
            }
            lemma_insert_pos_props(kept, hid);
            let j = insert_pos(kept, hid);
            let f = fresh_partial(h, shard.len());
            let ins = kept.insert(j, (hid, f));
            lemma_entries_insert(kept, j, (hid, f), id);
            assert(ins[j] == (hid, f));
            let p = with_shard(f, h.index, shard);
            if p.have < p.data_shards {
                lemma_entries_update(ins, j, (hid, p), id);
            } else {
                lemma_entries_remove(ins, j, id);
            }
        }
    }
}

/// A push that spares object `id` keeps the progress made on it.
proof fn lemma_spared_push_keeps_progress(
    st: Seq<(u16, PartialModel)>,
    payload: Seq<u8>,
    object_id: u16,
    object: Seq<u8>,
    shard_len: int,
    redundancy_pct: int,
    order: Seq<int>,
    k: int,
)
    requires
        reassembly_progress(st, object_id, object, shard_len, redundancy_pct, order, k),
        spares_entry(st, payload, object_id),
    ensures
        reassembly_progress(push_spec(st, payload).0, object_id, object, shard_len, redundancy_pct, order, k),
{
    lemma_push_keeps_bound(st, payload);
    lemma_spared_push_same_entries(st, payload, object_id);
    let t = push_spec(st, payload).0;
    assert forall|a: int| 0 <= a < t.len() && (#[trigger] t[a]).0 == object_id implies exists|b: int|
        0 <= b < st.len() && #[trigger] st[b] == t[a] by {
        assert(t[a] == (object_id, t[a].1));
        assert(entries(t, object_id).contains(t[a].1));
        assert(entries(st, object_id).contains(t[a].1));
    }
    if k > 0 {
        let pos = choose|pos: int|
            #![trigger st[pos]]
            0 <= pos < st.len() && st[pos].0 == object_id && st[pos].1.have == k && forall|x: int|
                0 <= x < st[pos].1.shards.len() && (#[trigger] st[pos].1.shards[x]) is Some ==> order.take(k).contains(x);
        assert(st[pos] == (object_id, st[pos].1));
        assert(entries(st, object_id).contains(st[pos].1));
        assert(entries(t, object_id).contains(st[pos].1));
        let a = choose|a: int| 0 <= a < t.len() && #[trigger] t[a] == (object_id, st[pos].1);
        assert(t[a] == st[pos]);
    }
}

/// A run of pushes that each spare object `id` keeps the progress made on it.
proof fn lemma_spared_run_keeps_progress(
    objs: Seq<(u16, PartialModel)>,
    ps: Seq<Seq<u8>>,
    t0: int,
    t1: int,
    object_id: u16,
    object: Seq<u8>,
    shard_len: int,
    redundancy_pct: int,
    order: Seq<int>,
    k: int,
)
    requires
        0 <= t0 <= t1 <= ps.len(),
        reassembly_progress(push_all_spec(objs, ps.take(t0)), object_id, object, shard_len, redundancy_pct, order, k),
        forall|t: int| t0 <= t < t1 ==> spares_entry(push_all_spec(objs, #[trigger] ps.take(t)), ps[t], object_id),
    ensures
        reassembly_progress(push_all_spec(objs, ps.take(t1)), object_id, object, shard_len, redundancy_pct, order, k),
    decreases t1,
{
    if t1 > t0 {
        lemma_spared_run_keeps_progress(objs, ps, t0, t1 - 1, object_id, object, shard_len, redundancy_pct, order, k);
        let st = push_all_spec(objs, ps.take(t1 - 1));
        assert(spares_entry(st, ps[t1 - 1], object_id));
        lemma_spared_push_keeps_progress(st, ps[t1 - 1], object_id, object, shard_len, redundancy_pct, order, k);
        assert(ps.take(t1).drop_last() =~= ps.take(t1 - 1));
        assert(ps.take(t1).last() == ps[t1 - 1]);
    }
}

/// The pushes at the chosen positions `pos` carry the chosen fragments, in
/// the same order, and every push at any other position spares the object.
pub open spec fn interleaved(
    objs: Seq<(u16, PartialModel)>,
    ps: Seq<Seq<u8>>,
    pos: Seq<int>,
    frags: Seq<Seq<u8>>,
    order: Seq<int>,
    id: u16,
) -> bool {
    &&& pos.len() == order.len()
    &&& forall|a: int, b: int| 0 <= a < b < pos.len() ==> pos[a] < pos[b]
    &&& forall|a: int| 0 <= a < pos.len() ==> 0 <= #[trigger] pos[a] < ps.len()
    &&& forall|a: int| 0 <= a < pos.len() ==> ps[#[trigger] pos[a]] == frags[order[a]]
    &&& forall|t: int| 0 <= t < ps.len() && !pos.contains(t) ==> spares_entry(
        push_all_spec(objs, #[trigger] ps.take(t)),
        ps[t],
        id,
    )
}

proof fn lemma_interleaved_progress(
    object_id: u16,
    object: Seq<u8>,
    shard_len: int,
    redundancy_pct: int,
    frags: Seq<Seq<u8>>,
    order: Seq<int>,
    objs: Seq<(u16, PartialModel)>,
    ps: Seq<Seq<u8>>,
    pos: Seq<int>,
    k: int,
)
    requires
        shard_len > 0,
        object.len() > 0,
        split_spec(object_id, object, shard_len, redundancy_pct) == Ok::<Seq<Seq<u8>>, Error>(frags),
        forall|j: int| 0 <= j < frags.len() ==> (#[trigger] frags[j]).len() == FRAG_HEADER_LEN + shard_len,
        order.len() == data_shard_count(object.len() as int, shard_len),
        distinct_indices(order, frags.len() as int),
        reassembler_ok(objs),
        forall|a: int| 0 <= a < objs.len() ==> (#[trigger] objs[a]).0 != object_id,
        interleaved(objs, ps, pos, frags, order, object_id),
        0 <= k < order.len(),
    ensures
        reassembly_progress(
            push_all_spec(objs, ps.take(pos[k])),
            object_id,
            object,
            shard_len,
            redundancy_pct,
            order,
            k,
        ),
    decreases k,
{
    let t0 = if k == 0 { 0 } else { pos[k - 1] + 1 };
    if k == 0 {
        assert(ps.take(0) =~= Seq::<Seq<u8>>::empty());
    } else {
        lemma_interleaved_progress(object_id, object, shard_len, redundancy_pct, frags, order, objs, ps, pos, k - 1);
        let st = push_all_spec(objs, ps.take(pos[k - 1]));
        lemma_reassembly_step(object_id, object, shard_len, redundancy_pct, frags, order, k - 1, st);
        assert(ps.take(t0).drop_last() =~= ps.take(pos[k - 1]));
        assert(ps.take(t0).last() == frags[order[k - 1]]);
    }
    assert forall|t: int| t0 <= t < pos[k] implies spares_entry(push_all_spec(objs, #[trigger] ps.take(t)), ps[t], object_id) by {
        if pos.contains(t) {
            let m = choose|m: int| 0 <= m < pos.len() && pos[m] == t;
            if m < k {
                if k > 0 && m < k - 1 {
                    assert(pos[m] < pos[k - 1]);
                }
            } else if m > k {
                assert(pos[k] < pos[m]);
            }
        }
    }
    lemma_spared_run_keeps_progress(objs, ps, t0, pos[k], object_id, object, shard_len, redundancy_pct, order, k);
}

/// Any `d` distinct fragments of one `split`, `d` being its data shard
/// count, rebuild the object even when pushes for other objects come in
/// between: pushed in any order at positions `pos` of a run of pushes `ps`
/// into a reassembler that holds nothing for the object, where every other
/// push spares the object (it belongs to another object and evicts no
/// partial of this one), the pushes of the first `d - 1` fragments return
/// nothing yet, the push of the `d`-th completes a genuine partial whose
/// data, joined and cut, is exactly the object (so by [`Reassembler::push`]
/// it returns the object), and the object then leaves the reassembler.
pub proof fn lemma_any_k_fragments_reassemble_interleaved(
    object_id: u16,
    object: Seq<u8>,
    shard_len: int,
    redundancy_pct: int,
    frags: Seq<Seq<u8>>,
    order: Seq<int>,
    objs: Seq<(u16, PartialModel)>,
    ps: Seq<Seq<u8>>,
    pos: Seq<int>,
)
    requires
        shard_len > 0,
        object.len() > 0,
        split_spec(object_id, object, shard_len, redundancy_pct) == Ok::<Seq<Seq<u8>>, Error>(frags),
        forall|j: int| 0 <= j < frags.len() ==> (#[trigger] frags[j]).len() == FRAG_HEADER_LEN + shard_len,
        order.len() == data_shard_count(object.len() as int, shard_len),
        distinct_indices(order, frags.len() as int),
        reassembler_ok(objs),
        forall|a: int| 0 <= a < objs.len() ==> (#[trigger] objs[a]).0 != object_id,
        interleaved(objs, ps, pos, frags, order, object_id),
    ensures
        ({
            let d = order.len() as int;
            let data = data_shards(object, shard_len, d);
            &&& forall|k: int| 0 <= k < d - 1 ==> push_spec(push_all_spec(objs, ps.take(#[trigger] pos[k])), ps[pos[k]]).1
                == Ok::<Option<Seq<u8>>, Error>(None)
            &&& push_completes(push_all_spec(objs, ps.take(pos[d - 1])), ps[pos[d - 1]]) matches Some(p) && genuine(p, data)
                && cut(flatten(data), p.object_len) == object
            &&& forall|a: int| 0 <= a < push_all_spec(objs, ps.take(pos[d - 1] + 1)).len() ==> (#[trigger] push_all_spec(
                objs,
                ps.take(pos[d - 1] + 1),
            )[a]).0 != object_id
        }),
{
    let d = order.len() as int;
    lemma_data_shards_cover(object.len() as int, shard_len);
    assert forall|k: int| 0 <= k < d - 1 implies push_spec(push_all_spec(objs, ps.take(#[trigger] pos[k])), ps[pos[k]]).1
        == Ok::<Option<Seq<u8>>, Error>(None) by {
        lemma_interleaved_progress(object_id, object, shard_len, redundancy_pct, frags, order, objs, ps, pos, k);
        lemma_reassembly_step(object_id, object, shard_len, redundancy_pct, frags, order, k, push_all_spec(objs, ps.take(pos[k])));
    }
    lemma_interleaved_progress(object_id, object, shard_len, redundancy_pct, frags, order, objs, ps, pos, d - 1);
    let st = push_all_spec(objs, ps.take(pos[d - 1]));
    lemma_reassembly_step(object_id, object, shard_len, redundancy_pct, frags, order, d - 1, st);
    lemma_split_fragments_reassemble(object_id, object, shard_len, redundancy_pct, frags, order[d - 1], st);
    assert(ps.take(pos[d - 1] + 1).drop_last() =~= ps.take(pos[d - 1]));
    assert(ps.take(pos[d - 1] + 1).last() == frags[order[d - 1]]);
}

} // verus!
