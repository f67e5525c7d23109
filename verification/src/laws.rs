//! Laws of the chunking/reassembly protocol, stated over the mathematical
//! models of the encoder and the reassembly buffer and proved once for all
//! inputs: round-trip fidelity under arbitrary delivery orders and
//! duplication, idempotence of fragment delivery, monotonicity of
//! completeness, and bounds safety of out-of-range fragments.

use crate::collector::{
    spec_add_chunk, spec_assembled, spec_buffer_wf, spec_complete, spec_concat_slots,
    spec_keep, spec_slots_full, spec_sweep, EntryModel,
};
use crate::encoder::{
    concat_bytes, lemma_fragments_concat, spec_fragments, spec_num_fragments,
};
use vstd::prelude::*;

verus! {

/// An entry that is collecting exactly the fragments `frags` of one
/// message: right count, and every populated slot holds its own fragment.
pub open spec fn spec_partial_entry(e: EntryModel, total: u32, frags: Seq<Seq<u8>>) -> bool {
    &&& e.total == total
    &&& e.slots.len() == total as int
    &&& forall|i: int|
        0 <= i < total as int ==> ((#[trigger] e.slots[i]) is None || e.slots[i] == Some(
            frags[i],
        ))
}

/// Feeding a delivery schedule to the buffer: fragment `order[k]` of the
/// message arrives at time `times[k]`, in schedule order. A schedule may
/// duplicate and reorder fragments arbitrarily.
pub open spec fn spec_feed(
    m: Map<u64, EntryModel>,
    id: u64,
    total: u32,
    frags: Seq<Seq<u8>>,
    order: Seq<int>,
    times: Seq<u64>,
) -> Map<u64, EntryModel>
    decreases order.len(),
{
    if order.len() == 0 {
        m
    } else {
        spec_feed(
            spec_add_chunk(m, id, order[0] as u32, total, frags[order[0]], times[0]),
            id,
            total,
            frags,
            order.drop_first(),
            times.drop_first(),
        )
    }
}

/// What any delivery schedule does to the buffer: other messages are
/// untouched; the entry for `id` collects exactly the delivered fragments,
/// each in its own slot.
proof fn lemma_feed_slots(
    m: Map<u64, EntryModel>,
    id: u64,
    total: u32,
    frags: Seq<Seq<u8>>,
    order: Seq<int>,
    times: Seq<u64>,
)
    requires
        1 <= total,
        frags.len() == total as int,
        times.len() == order.len(),
        forall|k: int| 0 <= k < order.len() ==> 0 <= #[trigger] order[k] < total as int,
        m.dom().contains(id) ==> spec_partial_entry(m[id], total, frags),
    ensures
        ({
            let m2 = spec_feed(m, id, total, frags, order, times);
            &&& forall|x: u64|
                #![trigger m2.dom().contains(x)]
                #![trigger m.dom().contains(x)]
                x != id ==> (m2.dom().contains(x) == m.dom().contains(x)) && (m.dom().contains(
                    x,
                ) ==> m2[x] == m[x])
            &&& m2.dom().contains(id) == (m.dom().contains(id) || order.len() > 0)
            &&& (m2.dom().contains(id) ==> spec_partial_entry(m2[id], total, frags))
            &&& (m2.dom().contains(id) ==> forall|i: int|
                0 <= i < total as int && #[trigger] order.contains(i) ==> m2[id].slots[i]
                    == Some(frags[i]))
            &&& (m.dom().contains(id) ==> forall|i: int|
                0 <= i < total as int && (#[trigger] m[id].slots[i]) is Some
                    ==> m2[id].slots[i] == m[id].slots[i])
        }),
    decreases order.len(),
{
    if order.len() == 0 {
        // an empty schedule delivers nothing
    } else {
        let c0 = order[0];
        let t0 = times[0];
        let m1 = spec_add_chunk(m, id, c0 as u32, total, frags[c0], t0);
        // the first delivery creates or fills the entry and touches nothing else
        assert(m1.dom().contains(id));
        assert(spec_partial_entry(m1[id], total, frags));
        assert(m1[id].slots[c0] == Some(frags[c0]));
        assert(forall|i: int|
            0 <= i < total as int && i != c0 && m.dom().contains(id) ==> m1[id].slots[i]
                == m[id].slots[i]);
        lemma_feed_slots(m1, id, total, frags, order.drop_first(), times.drop_first());
        let m2 = spec_feed(m1, id, total, frags, order.drop_first(), times.drop_first());
        assert(m2 == spec_feed(m, id, total, frags, order, times));
        // a delivered index ends up populated with its own fragment
        assert forall|i: int|
            0 <= i < total as int && #[trigger] order.contains(i) implies m2[id].slots[i]
            == Some(frags[i]) by {
            let k = choose|k: int| 0 <= k < order.len() && order[k] == i;
            if k == 0 {
                assert(m1[id].slots[i] == Some(frags[i]));
                assert(m2[id].slots[i] == m1[id].slots[i]);
            } else {
                assert(order.drop_first()[k - 1] == i);
                assert(order.drop_first().contains(i));
            }
        }
        // slots already populated before the schedule stay as they are
        if m.dom().contains(id) {
            assert forall|i: int|
                0 <= i < total as int && (#[trigger] m[id].slots[i]) is Some
                implies m2[id].slots[i] == m[id].slots[i] by {
                assert(m1[id].slots[i] == m[id].slots[i]);
            }
        }
    }
}

/// The slots of a fully collected message concatenate to the same bytes as
/// its fragments.
proof fn lemma_concat_slots_eq(slots: Seq<Option<Seq<u8>>>, frags: Seq<Seq<u8>>)
    requires
        slots.len() == frags.len(),
        forall|i: int| 0 <= i < slots.len() ==> #[trigger] slots[i] == Some(frags[i]),
    ensures
        spec_concat_slots(slots) == concat_bytes(frags),
    decreases slots.len(),
{
    if slots.len() > 0 {
        assert(slots.drop_last().len() == frags.drop_last().len());
        lemma_concat_slots_eq(slots.drop_last(), frags.drop_last());
    }
}

/// ROUND TRIP: splitting any payload into fragments of at most `max` bytes
/// and delivering them to a buffer that holds no entry for their id, in any
/// schedule that delivers every fragment index at least once — reordered
/// and duplicated at will — completes the message, reassembles it to
/// exactly the original payload, and leaves every other message untouched.
pub proof fn lemma_round_trip(
    m: Map<u64, EntryModel>,
    id: u64,
    data: Seq<u8>,
    max: int,
    order: Seq<int>,
    times: Seq<u64>,
)
    requires
        max >= 1,
        !m.dom().contains(id),
        spec_num_fragments(data.len() as int, max) <= u32::MAX,
        times.len() == order.len(),
        forall|k: int|
            0 <= k < order.len() ==> 0 <= #[trigger] order[k] < spec_num_fragments(
                data.len() as int,
                max,
            ),
        forall|i: int|
            0 <= i < spec_num_fragments(data.len() as int, max) ==> #[trigger] order.contains(
                i,
            ),
    ensures
        ({
            let total = spec_num_fragments(data.len() as int, max) as u32;
            let m2 = spec_feed(m, id, total, spec_fragments(data, max), order, times);
            &&& spec_complete(m2, id)
            &&& spec_assembled(m2, id) == data
            &&& forall|x: u64|
                #![trigger m2.dom().contains(x)]
                #![trigger m.dom().contains(x)]
                x != id ==> (m2.dom().contains(x) == m.dom().contains(x)) && (m.dom().contains(
                    x,
                ) ==> m2[x] == m[x])
        }),
{
    let n = spec_num_fragments(data.len() as int, max);
    assert(n >= 1) by {
        if data.len() > 0 {
            crate::encoder::lemma_num_fragments_bounds(data.len() as int, max);
        }
    }
    let total = n as u32;
    let frags = spec_fragments(data, max);
    assert(order.contains(0));
    assert(order.len() > 0);
    lemma_feed_slots(m, id, total, frags, order, times);
    let m2 = spec_feed(m, id, total, frags, order, times);
    assert forall|i: int| 0 <= i < m2[id].slots.len() implies (#[trigger] m2[id].slots[i])
        is Some by {
        assert(order.contains(i));
    }
    assert(spec_slots_full(m2[id].slots));
    assert forall|i: int| 0 <= i < m2[id].slots.len() implies #[trigger] m2[id].slots[i]
        == Some(frags[i]) by {
        assert(order.contains(i));
    }
    lemma_concat_slots_eq(m2[id].slots, frags);
    lemma_fragments_concat(data, max);
}

/// IDEMPOTENCE: delivering the very same fragment again — any number of
/// times, at any later time — leaves the buffer exactly as the first
/// delivery left it.
pub proof fn lemma_add_chunk_idempotent(
    m: Map<u64, EntryModel>,
    id: u64,
    chunk_index: u32,
    total_chunks: u32,
    data: Seq<u8>,
    t1: u64,
    t2: u64,
)
    requires
        spec_buffer_wf(m),
    ensures
        ({
            let m1 = spec_add_chunk(m, id, chunk_index, total_chunks, data, t1);
            spec_add_chunk(m1, id, chunk_index, total_chunks, data, t2) == m1
        }),
{
    let m1 = spec_add_chunk(m, id, chunk_index, total_chunks, data, t1);
    let m2 = spec_add_chunk(m1, id, chunk_index, total_chunks, data, t2);
    if m.dom().contains(id) {
        let e = m[id];
        if total_chunks == e.total && chunk_index < e.total {
            let e1 = m1[id];
            assert(e1.slots =~= e.slots.update(chunk_index as int, Some(data)));
            let e2 = m2[id];
            assert(e2.slots =~= e1.slots.update(chunk_index as int, Some(data)));
            assert(e2 =~= e1);
            assert(m2 =~= m1);
        } else {
            assert(m1 == m);
            assert(m2 == m1);
        }
    } else {
        if chunk_index < total_chunks {
            let e1 = m1[id];
            let e2 = m2[id];
            assert(e2.slots =~= e1.slots);
            assert(e2 =~= e1);
            assert(m2 =~= m1);
        } else {
            assert(m1 == m);
            assert(m2 == m1);
        }
    }
}

/// COMPLETENESS MONOTONICITY under delivery: once a message is complete, no
/// later fragment delivery — for it or for any other message — makes it
/// incomplete. Only reassembly, explicit removal or eviction take an entry
/// away.
pub proof fn lemma_add_preserves_complete(
    m: Map<u64, EntryModel>,
    id: u64,
    chunk_index: u32,
    total_chunks: u32,
    data: Seq<u8>,
    now_ms: u64,
)
    requires
        spec_buffer_wf(m),
    ensures
        forall|x: u64|
            spec_complete(m, x) ==> spec_complete(
                #[trigger] spec_add_chunk(m, id, chunk_index, total_chunks, data, now_ms),
                x,
            ),
{
    let m2 = spec_add_chunk(m, id, chunk_index, total_chunks, data, now_ms);
    assert forall|x: u64| spec_complete(m, x) implies spec_complete(m2, x) by {
        if m.dom().contains(id) && x == id && total_chunks == m[id].total && chunk_index
            < m[id].total {
            let s2 = m2[x].slots;
            assert forall|i: int| 0 <= i < s2.len() implies (#[trigger] s2[i]) is Some by {
                assert(m[x].slots[i] is Some);
            }
        } else {
            assert(m2.dom().contains(x) && m2[x] == m[x]);
        }
    }
}

/// COMPLETENESS MONOTONICITY under the sweep: the staleness sweep never
/// evicts a complete entry.
pub proof fn lemma_sweep_preserves_complete(m: Map<u64, EntryModel>, now_ms: u64, timeout_ms: u64)
    ensures
        forall|x: u64|
            spec_complete(m, x) ==> spec_complete(
                #[trigger] spec_sweep(m, now_ms, timeout_ms),
                x,
            ) && spec_sweep(m, now_ms, timeout_ms)[x] == m[x],
{
    let m2 = spec_sweep(m, now_ms, timeout_ms);
    assert forall|x: u64| spec_complete(m, x) implies spec_complete(m2, x) && m2[x] == m[x] by {
        assert(spec_keep(m[x], now_ms, timeout_ms));
        assert(m2.dom().contains(x));
    }
}

/// BOUNDS SAFETY: a fragment whose index is out of range for the entry's
/// recorded fragment count — or, for a fresh id, for its own claimed count
/// — is rejected and leaves the buffer exactly as it was; so does a
/// fragment whose claimed count conflicts with the count seen first.
pub proof fn lemma_add_chunk_bounds_safety(
    m: Map<u64, EntryModel>,
    id: u64,
    chunk_index: u32,
    total_chunks: u32,
    data: Seq<u8>,
    now_ms: u64,
)
    requires
        m.dom().contains(id) ==> chunk_index >= m[id].total || total_chunks != m[id].total,
        !m.dom().contains(id) ==> chunk_index >= total_chunks,
    ensures
        spec_add_chunk(m, id, chunk_index, total_chunks, data, now_ms) == m,
{
}

} // verus!
