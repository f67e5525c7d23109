//! The reassembly buffer: accumulates inbound fragments keyed by message id,
//! detects completeness, reassembles in index order, and evicts stale
//! partial entries so that abandoned messages cannot grow memory without
//! bound.
//!
//! The buffer is modelled as a map from message id to an [`EntryModel`]; all
//! operations are specified as pure functions on that map.

use crate::chunk::append_bytes;
use vstd::map::*;
use vstd::prelude::*;

verus! {

/// Mathematical model of one reassembly entry: one optional byte sequence
/// per expected fragment, the fragment count fixed when the entry was
/// created, and the creation time used by the staleness sweep.
#[verifier::ext_equal]
pub struct EntryModel {
    pub slots: Seq<Option<Seq<u8>>>,
    pub total: u32,
    pub created_ms: u64,
}

/// A well-formed entry has exactly one slot per expected fragment, and
/// expects at least one fragment.
pub open spec fn spec_entry_wf(e: EntryModel) -> bool {
    e.slots.len() == e.total as int && e.total >= 1
}

/// Every entry of a well-formed buffer is well-formed.
pub open spec fn spec_buffer_wf(m: Map<u64, EntryModel>) -> bool {
    forall|id: u64| #[trigger] m.dom().contains(id) ==> spec_entry_wf(m[id])
}

/// All slots of an entry are populated.
pub open spec fn spec_slots_full(slots: Seq<Option<Seq<u8>>>) -> bool {
    forall|i: int| 0 <= i < slots.len() ==> (#[trigger] slots[i]) is Some
}

/// The buffer holds every fragment of message `id`.
pub open spec fn spec_complete(m: Map<u64, EntryModel>, id: u64) -> bool {
    m.dom().contains(id) && spec_slots_full(m[id].slots)
}

/// The bytes of one slot; an empty slot contributes nothing.
pub open spec fn spec_opt_bytes(o: Option<Seq<u8>>) -> Seq<u8> {
    match o {
        Option::Some(d) => d,
        Option::None => Seq::empty(),
    }
}

/// Concatenation of the slots of an entry, strictly in index order.
pub open spec fn spec_concat_slots(slots: Seq<Option<Seq<u8>>>) -> Seq<u8>
    decreases slots.len(),
{
    if slots.len() == 0 {
        Seq::empty()
    } else {
        spec_concat_slots(slots.drop_last()) + spec_opt_bytes(slots.last())
    }
}

/// The reassembled bytes of message `id`.
pub open spec fn spec_assembled(m: Map<u64, EntryModel>, id: u64) -> Seq<u8> {
    spec_concat_slots(m[id].slots)
}

/// What one `add_chunk` call does to the buffer.
///
/// A first fragment for an unknown id creates the entry, fixing its slot
/// count from the fragment's own claim and stamping the current time; a
/// fragment for a known id fills (or overwrites) its slot. A fragment whose
/// index is out of range for the entry's fragment count, or whose claimed
/// count conflicts with the count seen first, is rejected and the buffer is
/// left untouched.
pub open spec fn spec_add_chunk(
    m: Map<u64, EntryModel>,
    id: u64,
    chunk_index: u32,
    total_chunks: u32,
    data: Seq<u8>,
    now_ms: u64,
) -> Map<u64, EntryModel> {
    if m.dom().contains(id) {
        let e = m[id];
        if total_chunks == e.total && chunk_index < e.total {
            m.insert(
                id,
                EntryModel {
                    slots: e.slots.update(chunk_index as int, Some(data)),
                    total: e.total,
                    created_ms: e.created_ms,
                },
            )
        } else {
            m
        }
    } else {
        if chunk_index < total_chunks {
            m.insert(
                id,
                EntryModel {
                    slots: Seq::new(
                        total_chunks as nat,
                        |i: int|
                            if i == chunk_index as int {
                                Some(data)
                            } else {
                                None
                            },
                    ),
                    total: total_chunks,
                    created_ms: now_ms,
                },
            )
        } else {
            m
        }
    }
}

/// An entry is stale when its first fragment arrived more than `timeout_ms`
/// before `now_ms`.
pub open spec fn spec_stale(e: EntryModel, now_ms: u64, timeout_ms: u64) -> bool {
    e.created_ms < now_ms && now_ms - e.created_ms > timeout_ms
}

/// The sweep keeps an entry that is not yet stale, or that is already
/// complete (a complete entry is about to be reassembled, never evicted).
pub open spec fn spec_keep(e: EntryModel, now_ms: u64, timeout_ms: u64) -> bool {
    !spec_stale(e, now_ms, timeout_ms) || spec_slots_full(e.slots)
}

/// What one staleness sweep does to the buffer: exactly the stale,
/// incomplete entries disappear; every kept entry is untouched.
pub open spec fn spec_sweep(m: Map<u64, EntryModel>, now_ms: u64, timeout_ms: u64) -> Map<
    u64,
    EntryModel,
> {
    Map::new(
        |id: u64| m.dom().contains(id) && spec_keep(m[id], now_ms, timeout_ms),
        |id: u64| m[id],
    )
}

/// One stored reassembly entry.
struct Entry {
    id: u64,
    slots: Vec<Option<Vec<u8>>>,
    total: u32,
    created_ms: u64,
}

/// View of a stored slot array as a sequence of optional byte sequences.
pub open spec fn slots_view(v: Seq<Option<Vec<u8>>>) -> Seq<Option<Seq<u8>>> {
    v.map_values(
        |o: Option<Vec<u8>>|
            match o {
                Option::Some(d) => Some(d@),
                Option::None => None,
            },
    )
}

impl Entry {
    spec fn wf(&self) -> bool {
        self.slots@.len() == self.total as int && self.total >= 1
    }
}

impl View for Entry {
    type V = EntryModel;

    closed spec fn view(&self) -> EntryModel {
        EntryModel {
            slots: slots_view(self.slots@),
            total: self.total,
            created_ms: self.created_ms,
        }
    }
}

spec fn unique_ids(s: Seq<Entry>) -> bool {
    forall|i: int, j: int|
        #![trigger s[i].id, s[j].id]
        0 <= i < s.len() && 0 <= j < s.len() && i != j ==> s[i].id != s[j].id
}

spec fn seq_has_id(s: Seq<Entry>, id: u64) -> bool {
    exists|j: int| 0 <= j < s.len() && (#[trigger] s[j]).id == id
}

spec fn seq_idx(s: Seq<Entry>, id: u64) -> int {
    choose|j: int| 0 <= j < s.len() && (#[trigger] s[j]).id == id
}

spec fn entries_view(s: Seq<Entry>) -> Map<u64, EntryModel> {
    Map::new(|id: u64| seq_has_id(s, id), |id: u64| s[seq_idx(s, id)]@)
}

/// The reassembly buffer.
pub struct ChunkCollector {
    entries: Vec<Entry>,
}

impl View for ChunkCollector {
    type V = Map<u64, EntryModel>;

    closed spec fn view(&self) -> Map<u64, EntryModel> {
        entries_view(self.entries@)
    }
}

proof fn lemma_unique_idx(s: Seq<Entry>, j: int)
    requires
        unique_ids(s),
        0 <= j < s.len(),
    ensures
        seq_has_id(s, s[j].id),
        seq_idx(s, s[j].id) == j,
        entries_view(s).dom().contains(s[j].id),
        entries_view(s)[s[j].id] == s[j]@,
{
    assert(seq_has_id(s, s[j].id));
    let k = seq_idx(s, s[j].id);
    assert(0 <= k < s.len() && s[k].id == s[j].id);
    assert(k == j);
}

proof fn lemma_view_push(s: Seq<Entry>, e: Entry)
    requires
        unique_ids(s),
        !seq_has_id(s, e.id),
    ensures
        unique_ids(s.push(e)),
        entries_view(s.push(e)) == entries_view(s).insert(e.id, e@),
{
    let s2 = s.push(e);
    assert forall|i: int, j: int|
        0 <= i < s2.len() && 0 <= j < s2.len() && i != j implies #[trigger] s2[i].id
        != #[trigger] s2[j].id by {
        if i < s.len() && j < s.len() {
            assert(s2[i] == s[i] && s2[j] == s[j]);
        } else if i < s.len() {
            assert(s2[j] == e && s2[i] == s[i]);
            assert(s[i].id != e.id);
        } else {
            assert(s2[i] == e && s2[j] == s[j]);
            assert(s[j].id != e.id);
        }
    }
    let m1 = entries_view(s2);
    let m2 = entries_view(s).insert(e.id, e@);
    assert forall|x: u64| m1.dom().contains(x) implies m2.dom().contains(x) && m1[x] == m2[x] by {
        let j = seq_idx(s2, x);
        assert(0 <= j < s2.len() && s2[j].id == x);
        if j == s.len() {
            assert(s2[j] == e);
            assert(m1[x] == e@);
        } else {
            assert(s2[j] == s[j]);
            lemma_unique_idx(s, j);
            assert(x != e.id);
            assert(m1[x] == s[j]@);
            assert(m2[x] == entries_view(s)[x]);
        }
    }
    assert forall|x: u64| m2.dom().contains(x) implies m1.dom().contains(x) by {
        if x == e.id {
            assert(s2[s.len() as int] == e);
            assert(seq_has_id(s2, x));
        } else {
            let j = seq_idx(s, x);
            assert(0 <= j < s.len() && s[j].id == x);
            assert(s2[j] == s[j]);
            assert(seq_has_id(s2, x));
        }
    }
    assert(m1 =~= m2);
}

proof fn lemma_view_update(s: Seq<Entry>, j: int, e: Entry)
    requires
        unique_ids(s),
        0 <= j < s.len(),
        e.id == s[j].id,
    ensures
        unique_ids(s.update(j, e)),
        entries_view(s.update(j, e)) == entries_view(s).insert(e.id, e@),
{
    let s2 = s.update(j, e);
    assert forall|i: int, k: int|
        0 <= i < s2.len() && 0 <= k < s2.len() && i != k implies #[trigger] s2[i].id
        != #[trigger] s2[k].id by {
        assert(s2[i].id == s[i].id && s2[k].id == s[k].id);
    }
    let m1 = entries_view(s2);
    let m2 = entries_view(s).insert(e.id, e@);
    assert forall|x: u64| m1.dom().contains(x) implies m2.dom().contains(x) && m1[x] == m2[x] by {
        let k = seq_idx(s2, x);
        assert(0 <= k < s2.len() && s2[k].id == x);
        if k == j {
            assert(s2[k] == e);
            assert(m1[x] == e@);
            assert(x == e.id);
        } else {
            assert(s2[k] == s[k]);
            lemma_unique_idx(s, k);
            assert(x != e.id) by {
                assert(s[k].id != s[j].id);
            }
            assert(m1[x] == s[k]@);
            assert(m2[x] == entries_view(s)[x]);
        }
    }
    assert forall|x: u64| m2.dom().contains(x) implies m1.dom().contains(x) by {
        if x == e.id {
            assert(s2[j] == e);
            assert(seq_has_id(s2, x));
        } else {
            let k = seq_idx(s, x);
            assert(0 <= k < s.len() && s[k].id == x);
            assert(k != j);
            assert(s2[k] == s[k]);
            assert(seq_has_id(s2, x));
        }
    }
    assert(m1 =~= m2);
}

proof fn lemma_view_remove(s: Seq<Entry>, j: int)
    requires
        unique_ids(s),
        0 <= j < s.len(),
    ensures
        unique_ids(s.remove(j)),
        entries_view(s.remove(j)) == entries_view(s).remove(s[j].id),
{
    let s2 = s.remove(j);
    assert forall|i: int, k: int|
        0 <= i < s2.len() && 0 <= k < s2.len() && i != k implies #[trigger] s2[i].id
        != #[trigger] s2[k].id by {
        let i0 = if i < j {
            i
        } else {
            i + 1
        };
        let k0 = if k < j {
            k
        } else {
            k + 1
        };
        assert(s2[i] == s[i0] && s2[k] == s[k0]);
    }
    let m1 = entries_view(s2);
    let m2 = entries_view(s).remove(s[j].id);
    assert forall|x: u64| m1.dom().contains(x) implies m2.dom().contains(x) && m1[x] == m2[x] by {
        let k = seq_idx(s2, x);
        assert(0 <= k < s2.len() && s2[k].id == x);
        let k0 = if k < j {
            k
        } else {
            k + 1
        };
        assert(s2[k] == s[k0]);
        lemma_unique_idx(s, k0);
        assert(x != s[j].id) by {
            assert(s[k0].id != s[j].id);
        }
        assert(m1[x] == s[k0]@);
        assert(m2[x] == entries_view(s)[x]);
    }
    assert forall|x: u64| m2.dom().contains(x) implies m1.dom().contains(x) by {
        let k = seq_idx(s, x);
        assert(0 <= k < s.len() && s[k].id == x);
        assert(k != j);
        let k2 = if k < j {
            k
        } else {
            k - 1
        };
        assert(s2[k2] == s[k]);
        assert(seq_has_id(s2, x));
    }
    assert(m1 =~= m2);
}

/// Populated slot check for one stored entry.
fn entry_is_complete(e: &Entry) -> (b: bool)
    ensures
        b == spec_slots_full(e@.slots),
{
    let mut k: usize = 0;
    while k < e.slots.len()
        invariant
            k <= e.slots@.len(),
            forall|i: int| 0 <= i < k ==> (#[trigger] slots_view(e.slots@)[i]) is Some,
        decreases e.slots@.len() - k,
    {
        if e.slots[k].is_none() {
            assert(slots_view(e.slots@)[k as int] is None);
            return false;
        }
        assert(slots_view(e.slots@)[k as int] is Some);
        k = k + 1;
    }
    true
}

/// Staleness check for one stored entry.
fn entry_is_stale(e: &Entry, now_ms: u64, timeout_ms: u64) -> (b: bool)
    ensures
        b == spec_stale(e@, now_ms, timeout_ms),
{
    e.created_ms < now_ms && now_ms - e.created_ms > timeout_ms
}

impl ChunkCollector {
    /// The buffer's internal invariant: distinct ids, one slot per expected
    /// fragment in every entry.
    pub closed spec fn wf(&self) -> bool {
        &&& unique_ids(self.entries@)
        &&& forall|j: int|
            0 <= j < self.entries@.len() ==> (#[trigger] self.entries@[j]).wf()
    }

    /// Every entry of a well-formed buffer is well-formed.
    pub proof fn lemma_buffer_wf(&self)
        requires
            self.wf(),
        ensures
            spec_buffer_wf(self@),
    {
        assert forall|id: u64| #[trigger] self@.dom().contains(id) implies spec_entry_wf(
            self@[id],
        ) by {
            let j = seq_idx(self.entries@, id);
            assert(0 <= j < self.entries@.len() && self.entries@[j].id == id);
            assert(self.entries@[j].wf());
        }
    }

    /// An empty buffer.
    pub fn new() -> (c: ChunkCollector)
        ensures
            c.wf(),
            c@ == Map::<u64, EntryModel>::empty(),
    {
        let c = ChunkCollector { entries: Vec::new() };
        proof {
            assert(c@ =~= Map::<u64, EntryModel>::empty());
        }
        c
    }

    /// Index of the entry for `id`, if the buffer holds one.
    fn find_entry(&self, id: u64) -> (r: Option<usize>)
        requires
            self.wf(),
        ensures
            match r {
                Some(j) => j < self.entries@.len() && self.entries@[j as int].id == id,
                None => !self@.dom().contains(id),
            },
    {
        let mut i: usize = 0;
        while i < self.entries.len()
            invariant
                i <= self.entries@.len(),
                forall|k: int| 0 <= k < i ==> (#[trigger] self.entries@[k]).id != id,
            decreases self.entries@.len() - i,
        {
            if self.entries[i].id == id {
                return Some(i);
            }
            i = i + 1;
        }
        assert(!seq_has_id(self.entries@, id));
        None
    }

    /// Idempotent upsert of one fragment, as [`spec_add_chunk`] describes:
    /// the first fragment of an unknown id creates its entry and records
    /// `now_ms` as the creation time; a fragment with an out-of-range index
    /// or a conflicting fragment count is rejected and the buffer is left
    /// untouched; otherwise the fragment's slot is written.
    pub fn add_chunk(
        &mut self,
        id: u64,
        chunk_index: u32,
        total_chunks: u32,
        data: Vec<u8>,
        now_ms: u64,
    )
        requires
            old(self).wf(),
        ensures
            final(self).wf(),
            final(self)@ == spec_add_chunk(
                old(self)@,
                id,
                chunk_index,
                total_chunks,
                data@,
                now_ms,
            ),
    {
        let found = self.find_entry(id);
        match found {
            None => {
                if chunk_index < total_chunks {
                    let mut slots: Vec<Option<Vec<u8>>> = Vec::new();
                    let mut k: usize = 0;
                    while k < total_chunks as usize
                        invariant
                            k <= total_chunks as usize,
                            slots@.len() == k,
                            forall|i: int| 0 <= i < k ==> slots@[i] is None,
                        decreases total_chunks as usize - k,
                    {
                        slots.push(None);
                        k = k + 1;
                    }
                    slots[chunk_index as usize] = Some(data);
                    let e = Entry { id, slots, total: total_chunks, created_ms: now_ms };
                    proof {
                        assert(!seq_has_id(self.entries@, id));
                        lemma_view_push(self.entries@, e);
                        assert(e@.slots =~= Seq::new(
                            total_chunks as nat,
                            |i: int|
                                if i == chunk_index as int {
                                    Some(data@)
                                } else {
                                    None
                                },
                        ));
                    }
                    self.entries.push(e);
                    proof {
                        assert(self@ =~~= spec_add_chunk(
                            old(self)@,
                            id,
                            chunk_index,
                            total_chunks,
                            data@,
                            now_ms,
                        ));
                    }
                }
            },
            Some(j) => {
                proof {
                    lemma_unique_idx(self.entries@, j as int);
                }
                if self.entries[j].total == total_chunks && chunk_index
                    < self.entries[j].total {
                    let ghost s0 = self.entries@;
                    let ghost e0 = self.entries@[j as int];
                    let entry = &mut self.entries[j];
                    entry.slots[chunk_index as usize] = Some(data);
                    proof {
                        let e1 = *entry;
                        assert(e1.id == e0.id && e1.total == e0.total && e1.created_ms
                            == e0.created_ms);
                        assert(e1.slots@ == e0.slots@.update(chunk_index as int, Some(data)));
                        assert(e1@.slots =~= e0@.slots.update(chunk_index as int, Some(data@)));
                        assert(self.entries@ == s0.update(j as int, e1));
                        lemma_view_update(s0, j as int, e1);
                        assert(self@ =~= spec_add_chunk(
                            old(self)@,
                            id,
                            chunk_index,
                            total_chunks,
                            data@,
                            now_ms,
                        ));
                    }
                }
            },
        }
    }

    /// True iff every fragment of message `id` is present; false for an
    /// unknown id.
    pub fn is_complete(&self, id: u64) -> (b: bool)
        requires
            self.wf(),
        ensures
            b == spec_complete(self@, id),
    {
        match self.find_entry(id) {
            None => false,
            Some(j) => {
                proof {
                    lemma_unique_idx(self.entries@, j as int);
                }
                entry_is_complete(&self.entries[j])
            },
        }
    }

    /// Drops the entry for `id`, if any.
    pub fn remove_chunks(&mut self, id: &u64)
        requires
            old(self).wf(),
        ensures
            final(self).wf(),
            final(self)@ == old(self)@.remove(*id),
    {
        let found = self.find_entry(*id);
        match found {
            None => {
                proof {
                    assert(self@ =~= old(self)@.remove(*id));
                }
            },
            Some(j) => {
                proof {
                    lemma_view_remove(self.entries@, j as int);
                }
                self.entries.remove(j);
            },
        }
    }

    /// If message `id` is complete, concatenates its fragments strictly in
    /// index order, removes the entry, and returns the bytes; otherwise
    /// returns nothing and leaves the buffer untouched.
    pub fn reassemble(&mut self, id: u64) -> (r: Option<Vec<u8>>)
        requires
            old(self).wf(),
        ensures
            final(self).wf(),
            match r {
                Some(bytes) => {
                    &&& spec_complete(old(self)@, id)
                    &&& bytes@ == spec_assembled(old(self)@, id)
                    &&& final(self)@ == old(self)@.remove(id)
                },
                None => {
                    &&& !spec_complete(old(self)@, id)
                    &&& final(self)@ == old(self)@
                },
            },
    {
        let found = self.find_entry(id);
        match found {
            None => None,
            Some(j) => {
                proof {
                    lemma_unique_idx(self.entries@, j as int);
                }
                let e = &self.entries[j];
                if !entry_is_complete(e) {
                    return None;
                }
                let ghost slots = e@.slots;
                let mut out: Vec<u8> = Vec::new();
                let mut k: usize = 0;
                while k < e.slots.len()
                    invariant
                        k <= e.slots@.len(),
                        slots == slots_view(e.slots@),
                        out@ == spec_concat_slots(slots.take(k as int)),
                    decreases e.slots@.len() - k,
                {
                    match &e.slots[k] {
                        Some(d) => {
                            append_bytes(&mut out, d);
                        },
                        None => (),
                    }
                    proof {
                        assert(slots.take(k + 1).drop_last() =~= slots.take(k as int));
                        assert(slots.take(k + 1).last() == slots[k as int]);
                    }
                    k = k + 1;
                }
                proof {
                    assert(slots.take(slots.len() as int) =~= slots);
                    lemma_view_remove(self.entries@, j as int);
                }
                self.entries.remove(j);
                Some(out)
            },
        }
    }

    /// Evicts every stale, incomplete entry, as [`spec_sweep`] describes.
    pub fn sweep_stale(&mut self, now_ms: u64, timeout_ms: u64)
        requires
            old(self).wf(),
        ensures
            final(self).wf(),
            final(self)@ == spec_sweep(old(self)@, now_ms, timeout_ms),
    {
        let ghost m0 = self@;
        let mut i: usize = 0;
        while i < self.entries.len()
            invariant
                self.wf(),
                i <= self.entries@.len(),
                forall|k: int|
                    0 <= k < i ==> spec_keep(
                        (#[trigger] self.entries@[k])@,
                        now_ms,
                        timeout_ms,
                    ),
                forall|x: u64| #[trigger]
                    self@.dom().contains(x) ==> m0.dom().contains(x) && self@[x] == m0[x],
                forall|x: u64|
                    #[trigger] m0.dom().contains(x) && spec_keep(m0[x], now_ms, timeout_ms)
                        ==> self@.dom().contains(x),
            decreases self.entries@.len() - i,
        {
            proof {
                lemma_unique_idx(self.entries@, i as int);
            }
            let evict = {
                let e = &self.entries[i];
                entry_is_stale(e, now_ms, timeout_ms) && !entry_is_complete(e)
            };
            if evict {
                let ghost cur = self.entries@;
                let ghost curv = self@;
                let ghost rid = self.entries@[i as int].id;
                proof {
                    lemma_view_remove(self.entries@, i as int);
                    assert(!spec_keep(cur[i as int]@, now_ms, timeout_ms));
                    assert(curv[rid] == cur[i as int]@);
                }
                self.entries.remove(i);
                proof {
                    assert(self.entries@ == cur.remove(i as int));
                    assert(self@ == curv.remove(rid));
                    assert forall|x: u64| #[trigger] self@.dom().contains(x) implies m0.dom()
                        .contains(x) && self@[x] == m0[x] by {
                        assert(curv.dom().contains(x));
                    }
                    assert forall|x: u64|
                        #[trigger] m0.dom().contains(x) && spec_keep(
                            m0[x],
                            now_ms,
                            timeout_ms,
                        ) implies self@.dom().contains(x) by {
                        assert(curv.dom().contains(x));
                        if x == rid {
                            assert(m0[rid] == curv[rid]);
                            assert(!spec_keep(m0[x], now_ms, timeout_ms));
                        }
                    }
                }
            } else {
                i = i + 1;
            }
        }
        proof {
            assert(self@ =~= spec_sweep(m0, now_ms, timeout_ms)) by {
                assert forall|x: u64| self@.dom().contains(x) implies spec_sweep(
                    m0,
                    now_ms,
                    timeout_ms,
                ).dom().contains(x) by {
                    let j = seq_idx(self.entries@, x);
                    assert(0 <= j < self.entries@.len() && self.entries@[j].id == x);
                    lemma_unique_idx(self.entries@, j);
                    assert(spec_keep(self.entries@[j]@, now_ms, timeout_ms));
                    assert(self@[x] == self.entries@[j]@);
                }
            }
        }
    }

    /// True iff the buffer holds no entry at all.
    pub fn is_empty(&self) -> (b: bool)
        requires
            self.wf(),
        ensures
            b == (self@ == Map::<u64, EntryModel>::empty()),
    {
        if self.entries.len() == 0 {
            proof {
                assert(self@ =~= Map::<u64, EntryModel>::empty());
            }
            true
        } else {
            proof {
                lemma_unique_idx(self.entries@, 0);
                assert(self@.dom().contains(self.entries@[0].id));
                assert(!Map::<u64, EntryModel>::empty().dom().contains(self.entries@[0].id));
            }
            false
        }
    }
}

} // verus!
