//! The sync engine: a state machine from (state, event) to (state, action).
//! The host runs the actual transport loop — network I/O, peer discovery,
//! channels — feeds each observed event to [`SyncEngine::handle_event`], and
//! performs the returned action; every decision the loop takes is made and
//! verified here.

use crate::chunk::{
    decode_chunk, encode_chunk, spec_decode_chunk, spec_encode_chunk, ChunkModel,
    ChunkedMessage,
};
use crate::collector::{
    spec_add_chunk, spec_assembled, spec_complete, spec_sweep, ChunkCollector, EntryModel,
};
use crate::encoder::{spec_fragment, spec_num_fragments, split_into_chunks};
use crate::message::{
    decode_message, encode_message, spec_decode_message, spec_encode_message, vecs_view,
    MessageModel, MessageType,
};
use vstd::prelude::*;

verus! {

/// Whether the engine is serving events or has shut down.
pub enum EngineStatus {
    Running,
    Stopped,
}

/// One event the engine's host observes on its event sources.
pub enum EngineEvent {
    /// Peer discovery reported a new reachable instance.
    PeerDiscovered { peer: Vec<u8> },
    /// Peer discovery reported an instance as gone.
    PeerExpired { peer: Vec<u8> },
    /// One broadcast payload arrived from the transport.
    InboundPayload { payload: Vec<u8> },
    /// The application handed a message over for publishing.
    OutboundMessage { message: MessageType },
    /// The shared cancellation flag was cleared.
    StopRequested,
}

/// What the host must do in response to an event.
pub enum EngineAction {
    /// Register the peer as an explicit publish target.
    RegisterPeer { peer: Vec<u8> },
    /// Deregister the peer.
    UnregisterPeer { peer: Vec<u8> },
    /// Publish each payload on the broadcast topic, in order; a failed
    /// publish does not abort the remaining ones.
    PublishFragments { payloads: Vec<Vec<u8>> },
    /// Hand the reassembled message to the application, without blocking.
    DeliverInbound { message: MessageType },
    /// Unsubscribe and release the transport listeners, then exit the loop.
    ReleaseTransport,
    /// Nothing to do.
    Ignore,
}

/// No message in the buffer is complete: a complete message is reassembled
/// and removed within the very event that completed it, so a resting buffer
/// holds only partial entries (which the staleness sweep bounds in time).
pub open spec fn spec_no_complete(m: Map<u64, EntryModel>) -> bool {
    forall|id: u64| !spec_complete(m, id)
}

/// Distinct peer identities.
pub open spec fn spec_unique_peers(s: Seq<Seq<u8>>) -> bool {
    forall|i: int, j: int|
        #![trigger s[i], s[j]]
        0 <= i < s.len() && 0 <= j < s.len() && i != j ==> s[i] != s[j]
}

/// The message id of the `counter`-th message of `sender`: sender identity
/// in the high 32 bits, a per-sender monotonic counter in the low 32, so
/// concurrent senders never collide and one sender reuses an id only after
/// `2^32` messages.
pub open spec fn spec_message_id(sender: u32, counter: u32) -> u64 {
    (sender as u64 * 0x1_0000_0000 + counter as u64) as u64
}

/// The counter after one send, wrapping.
pub open spec fn spec_next_counter(counter: u32) -> u32 {
    if counter == u32::MAX {
        0
    } else {
        (counter + 1) as u32
    }
}

/// What one inbound broadcast payload does to the buffer, and what it
/// yields: stale entries are swept, the payload is decoded as a fragment
/// (anything malformed is ignored), the fragment is added, and a message
/// that thereby became complete is reassembled, removed, and decoded as an
/// application message (anything malformed is dropped, the entry already
/// gone).
pub open spec fn spec_inbound_step(
    m: Map<u64, EntryModel>,
    payload: Seq<u8>,
    now_ms: u64,
    timeout_ms: u64,
) -> (Map<u64, EntryModel>, Option<MessageModel>) {
    let swept = spec_sweep(m, now_ms, timeout_ms);
    match spec_decode_chunk(payload) {
        Option::None => (swept, None),
        Option::Some(c) => {
            let added = spec_add_chunk(swept, c.id, c.chunk_index, c.total_chunks, c.data, now_ms);
            if spec_complete(added, c.id) {
                (added.remove(c.id), spec_decode_message(spec_assembled(added, c.id)))
            } else {
                (added, None)
            }
        },
    }
}

/// The wire payloads that publishing the serialized message `enc` under
/// fragment cap `max` and message id `id` produces: every fragment of
/// `enc`, encoded, in index order.
pub open spec fn spec_published_fragments(
    payloads: Seq<Seq<u8>>,
    enc: Seq<u8>,
    max: int,
    id: u64,
) -> bool {
    let n = spec_num_fragments(enc.len() as int, max);
    &&& payloads.len() == n
    &&& forall|i: int|
        0 <= i < n ==> #[trigger] payloads[i] == spec_encode_chunk(
            ChunkModel {
                id,
                chunk_index: i as u32,
                total_chunks: n as u32,
                data: spec_fragment(enc, max, i),
            },
        )
}

/// The engine: the reassembly buffer, the known peers, the run state, and
/// the outbound message-id source.
pub struct SyncEngine {
    collector: ChunkCollector,
    peers: Vec<Vec<u8>>,
    status: EngineStatus,
    sender_id: u32,
    counter: u32,
    max_fragment_len: usize,
    eviction_timeout_ms: u64,
}

/// Byte-wise equality of two byte vectors.
fn bytes_eq(a: &Vec<u8>, b: &Vec<u8>) -> (r: bool)
    ensures
        r == (a@ == b@),
{
    if a.len() != b.len() {
        return false;
    }
    let mut i: usize = 0;
    while i < a.len()
        invariant
            a@.len() == b@.len(),
            i <= a@.len(),
            forall|k: int| 0 <= k < i ==> a@[k] == b@[k],
        decreases a@.len() - i,
    {
        if a[i] != b[i] {
            return false;
        }
        i = i + 1;
    }
    proof {
        assert(a@ =~= b@);
    }
    true
}

impl SyncEngine {
    /// The reassembly buffer, as a map from message id to its entry.
    pub closed spec fn buffer(&self) -> Map<u64, EntryModel> {
        self.collector@
    }

    /// The registered peers' identities.
    pub closed spec fn peers_view(&self) -> Seq<Seq<u8>> {
        vecs_view(self.peers@)
    }

    /// Whether the engine is in its `Running` state.
    pub closed spec fn is_running_spec(&self) -> bool {
        self.status is Running
    }

    /// The sender identity baked into outbound message ids.
    pub closed spec fn sender(&self) -> u32 {
        self.sender_id
    }

    /// The per-sender counter of the next outbound message.
    pub closed spec fn counter_spec(&self) -> u32 {
        self.counter
    }

    /// The largest fragment payload the transport cap leaves room for.
    pub closed spec fn fragment_cap(&self) -> usize {
        self.max_fragment_len
    }

    /// How long a partial message may wait for its missing fragments.
    pub closed spec fn timeout_ms(&self) -> u64 {
        self.eviction_timeout_ms
    }

    /// The engine invariant: a well-formed buffer with no complete entry
    /// left in it, distinct peers, and a positive fragment cap.
    pub closed spec fn wf(&self) -> bool {
        &&& self.collector.wf()
        &&& spec_no_complete(self.collector@)
        &&& spec_unique_peers(vecs_view(self.peers@))
        &&& self.max_fragment_len >= 1
    }

    /// MEMORY BOUND: the buffer of a well-formed engine holds no entry of a
    /// completed message — completion is always followed by reassembly and
    /// removal within the same event.
    pub proof fn lemma_no_complete_at_rest(&self)
        requires
            self.wf(),
        ensures
            spec_no_complete(self.buffer()),
    {
    }

    /// A fresh engine: empty buffer, no peers, running, counter at zero.
    pub fn new(sender_id: u32, max_fragment_len: usize, eviction_timeout_ms: u64) -> (e:
        SyncEngine)
        requires
            max_fragment_len >= 1,
        ensures
            e.wf(),
            e.buffer() == Map::<u64, EntryModel>::empty(),
            e.peers_view() == Seq::<Seq<u8>>::empty(),
            e.is_running_spec(),
            e.sender() == sender_id,
            e.counter_spec() == 0,
            e.fragment_cap() == max_fragment_len,
            e.timeout_ms() == eviction_timeout_ms,
    {
        let e = SyncEngine {
            collector: ChunkCollector::new(),
            peers: Vec::new(),
            status: EngineStatus::Running,
            sender_id,
            counter: 0,
            max_fragment_len,
            eviction_timeout_ms,
        };
        proof {
            assert(e.peers_view() =~= Seq::<Seq<u8>>::empty());
        }
        e
    }

    /// True iff the engine is running.
    pub fn is_running(&self) -> (b: bool)
        ensures
            b == self.is_running_spec(),
    {
        match self.status {
            EngineStatus::Running => true,
            EngineStatus::Stopped => false,
        }
    }

    /// True iff the buffer holds no partial message at all.
    pub fn buffer_is_empty(&self) -> (b: bool)
        requires
            self.wf(),
        ensures
            b == (self.buffer() == Map::<u64, EntryModel>::empty()),
    {
        self.collector.is_empty()
    }

    /// Index of `peer` in the registry, if present.
    fn find_peer(&self, peer: &Vec<u8>) -> (r: Option<usize>)
        ensures
            match r {
                Some(j) => j < self.peers@.len() && self.peers@[j as int]@ == peer@,
                None => !self.peers_view().contains(peer@),
            },
    {
        let mut i: usize = 0;
        while i < self.peers.len()
            invariant
                i <= self.peers@.len(),
                forall|k: int| 0 <= k < i ==> vecs_view(self.peers@)[k] != peer@,
            decreases self.peers@.len() - i,
        {
            if bytes_eq(&self.peers[i], peer) {
                return Some(i);
            }
            i = i + 1;
        }
        assert forall|k: int|
            0 <= k < self.peers_view().len() implies self.peers_view()[k] != peer@ by {}
        None
    }

    /// Registers a discovered peer as a publish target; already-known peers
    /// are left alone. Nothing else changes.
    pub fn handle_peer_discovered(&mut self, peer: Vec<u8>)
        requires
            old(self).wf(),
        ensures
            final(self).wf(),
            final(self).peers_view().contains(peer@),
            forall|p: Seq<u8>|
                p != peer@ ==> #[trigger] final(self).peers_view().contains(p) == old(
                    self,
                ).peers_view().contains(p),
            final(self).buffer() == old(self).buffer(),
            final(self).is_running_spec() == old(self).is_running_spec(),
            final(self).sender() == old(self).sender(),
            final(self).counter_spec() == old(self).counter_spec(),
            final(self).fragment_cap() == old(self).fragment_cap(),
            final(self).timeout_ms() == old(self).timeout_ms(),
    {
        let found = self.find_peer(&peer);
        match found {
            Some(j) => {
                proof {
                    assert(self.peers_view().contains(peer@)) by {
                        assert(self.peers_view()[j as int] == peer@);
                    }
                }
            },
            None => {
                let ghost p0 = vecs_view(self.peers@);
                self.peers.push(peer);
                proof {
                    assert(vecs_view(self.peers@) =~= p0.push(peer@));
                    assert(self.peers_view()[p0.len() as int] == peer@);
                    assert forall|p: Seq<u8>|
                        p != peer@ implies #[trigger] self.peers_view().contains(p) == p0.contains(
                        p,
                    ) by {
                        if self.peers_view().contains(p) {
                            let k = choose|k: int|
                                0 <= k < self.peers_view().len() && self.peers_view()[k] == p;
                            assert(k < p0.len());
                            assert(p0[k] == p);
                        }
                        if p0.contains(p) {
                            let k = choose|k: int| 0 <= k < p0.len() && p0[k] == p;
                            assert(self.peers_view()[k] == p);
                        }
                    }
                    assert forall|i: int, j2: int|
                        0 <= i < self.peers_view().len() && 0 <= j2 < self.peers_view().len() && i
                            != j2 implies self.peers_view()[i] != self.peers_view()[j2] by {
                        if i < p0.len() && j2 < p0.len() {
                            assert(p0[i] != p0[j2]);
                        } else if i < p0.len() {
                            assert(!p0.contains(peer@));
                            assert(p0[i] != peer@) by {
                                if p0[i] == peer@ {
                                    assert(p0.contains(peer@));
                                }
                            }
                        } else {
                            assert(!p0.contains(peer@));
                            assert(p0[j2] != peer@) by {
                                if p0[j2] == peer@ {
                                    assert(p0.contains(peer@));
                                }
                            }
                        }
                    }
                }
            },
        }
    }

    /// Deregisters an expired peer; unknown peers are ignored. Nothing else
    /// changes.
    pub fn handle_peer_expired(&mut self, peer: &Vec<u8>)
        requires
            old(self).wf(),
        ensures
            final(self).wf(),
            !final(self).peers_view().contains(peer@),
            forall|p: Seq<u8>|
                p != peer@ ==> #[trigger] final(self).peers_view().contains(p) == old(
                    self,
                ).peers_view().contains(p),
            final(self).buffer() == old(self).buffer(),
            final(self).is_running_spec() == old(self).is_running_spec(),
            final(self).sender() == old(self).sender(),
            final(self).counter_spec() == old(self).counter_spec(),
            final(self).fragment_cap() == old(self).fragment_cap(),
            final(self).timeout_ms() == old(self).timeout_ms(),
    {
        let found = self.find_peer(peer);
        match found {
            None => (),
            Some(j) => {
                let ghost p0 = vecs_view(self.peers@);
                self.peers.remove(j);
                proof {
                    assert(vecs_view(self.peers@) =~= p0.remove(j as int));
                    let p1 = vecs_view(self.peers@);
                    // every remaining slot is an old slot other than j
                    assert forall|k: int| 0 <= k < p1.len() implies p1[k] == p0[
                        if k < j as int {
                            k
                        } else {
                            k + 1
                        }
                    ] by {}
                    assert(!p1.contains(peer@)) by {
                        if p1.contains(peer@) {
                            let k = choose|k: int| 0 <= k < p1.len() && p1[k] == peer@;
                            let k0 = if k < j as int {
                                k
                            } else {
                                k + 1
                            };
                            assert(p0[k0] == peer@ && p0[j as int] == peer@ && k0 != j as int);
                        }
                    }
                    assert forall|p: Seq<u8>|
                        p != peer@ implies #[trigger] p1.contains(p) == p0.contains(p) by {
                        if p1.contains(p) {
                            let k = choose|k: int| 0 <= k < p1.len() && p1[k] == p;
                            let k0 = if k < j as int {
                                k
                            } else {
                                k + 1
                            };
                            assert(p0[k0] == p);
                        }
                        if p0.contains(p) {
                            let k0 = choose|k0: int| 0 <= k0 < p0.len() && p0[k0] == p;
                            assert(k0 != j as int);
                            let k = if k0 < j as int {
                                k0
                            } else {
                                k0 - 1
                            };
                            assert(p1[k] == p);
                        }
                    }
                    assert forall|i: int, j2: int|
                        0 <= i < p1.len() && 0 <= j2 < p1.len() && i != j2 implies p1[i]
                        != p1[j2] by {
                        let i0 = if i < j as int {
                            i
                        } else {
                            i + 1
                        };
                        let j0 = if j2 < j as int {
                            j2
                        } else {
                            j2 + 1
                        };
                        assert(p1[i] == p0[i0] && p1[j2] == p0[j0]);
                    }
                }
            },
        }
    }

    /// Services one inbound broadcast payload, as [`spec_inbound_step`]
    /// describes, and returns the application message it completed, if any.
    pub fn handle_inbound_payload(&mut self, payload: &Vec<u8>, now_ms: u64) -> (r: Option<
        MessageType,
    >)
        requires
            old(self).wf(),
        ensures
            final(self).wf(),
            final(self).peers_view() == old(self).peers_view(),
            final(self).is_running_spec() == old(self).is_running_spec(),
            final(self).sender() == old(self).sender(),
            final(self).counter_spec() == old(self).counter_spec(),
            final(self).fragment_cap() == old(self).fragment_cap(),
            final(self).timeout_ms() == old(self).timeout_ms(),
            ({
                let (m2, out) = spec_inbound_step(
                    old(self).buffer(),
                    payload@,
                    now_ms,
                    old(self).timeout_ms(),
                );
                &&& final(self).buffer() == m2
                &&& match r {
                    Some(msg) => out == Some(msg@),
                    None => out is None,
                }
            }),
    {
        let ghost m0 = self.collector@;
        self.collector.sweep_stale(now_ms, self.eviction_timeout_ms);
        let ghost swept = self.collector@;
        proof {
            // sweeping keeps only old entries, so nothing becomes complete
            assert forall|x: u64| !spec_complete(swept, x) by {
                if swept.dom().contains(x) {
                    assert(swept[x] == m0[x]);
                    assert(!spec_complete(m0, x));
                }
            }
        }
        let decoded = decode_chunk(payload);
        match decoded {
            None => None,
            Some(c) => {
                let ChunkedMessage { id, chunk_index, total_chunks, data } = c;
                let ghost dataview = data@;
                self.collector.add_chunk(id, chunk_index, total_chunks, data, now_ms);
                let ghost added = self.collector@;
                proof {
                    // only the touched id can have become complete
                    assert forall|x: u64| x != id implies !spec_complete(added, x) by {
                        if added.dom().contains(x) {
                            assert(swept.dom().contains(x) && added[x] == swept[x]);
                            assert(!spec_complete(swept, x));
                        }
                    }
                }
                if self.collector.is_complete(id) {
                    let bytes = self.collector.reassemble(id);
                    match bytes {
                        Some(b) => {
                            proof {
                                assert(self.collector@ == added.remove(id));
                                assert forall|x: u64| !spec_complete(self.collector@, x) by {
                                    if self.collector@.dom().contains(x) {
                                        assert(x != id);
                                        assert(self.collector@[x] == added[x]);
                                        assert(!spec_complete(added, x));
                                    }
                                }
                            }
                            decode_message(&b)
                        },
                        None => {
                            proof {
                                assert(false);
                            }
                            None
                        },
                    }
                } else {
                    None
                }
            },
        }
    }

    /// Serializes and splits one outbound application message into wire
    /// fragments under the engine's fragment cap, stepping the message
    /// counter. Returns `None` — with the message dropped and the engine
    /// unchanged — exactly when the fragment count would not fit the wire
    /// header's 32-bit count field.
    pub fn handle_outbound_message(&mut self, message: &MessageType) -> (r: Option<
        Vec<Vec<u8>>,
    >)
        requires
            old(self).wf(),
        ensures
            final(self).wf(),
            final(self).buffer() == old(self).buffer(),
            final(self).peers_view() == old(self).peers_view(),
            final(self).is_running_spec() == old(self).is_running_spec(),
            final(self).sender() == old(self).sender(),
            final(self).fragment_cap() == old(self).fragment_cap(),
            final(self).timeout_ms() == old(self).timeout_ms(),
            ({
                let enc = spec_encode_message(message@);
                let n = spec_num_fragments(enc.len() as int, old(self).fragment_cap() as int);
                match r {
                    Some(payloads) => {
                        &&& n <= u32::MAX
                        &&& final(self).counter_spec() == spec_next_counter(
                            old(self).counter_spec(),
                        )
                        &&& spec_published_fragments(
                            vecs_view(payloads@),
                            enc,
                            old(self).fragment_cap() as int,
                            spec_message_id(old(self).sender(), old(self).counter_spec()),
                        )
                    },
                    None => {
                        &&& n > u32::MAX
                        &&& final(self).counter_spec() == old(self).counter_spec()
                    },
                }
            }),
    {
        let enc = encode_message(message);
        proof {
            assert((self.sender_id as u64) * 0x1_0000_0000 + (self.counter as u64)
                <= 0xFFFF_FFFF * 0x1_0000_0000 + 0xFFFF_FFFF) by {
                vstd::arithmetic::mul::lemma_mul_inequality(
                    self.sender_id as int,
                    0xFFFF_FFFF,
                    0x1_0000_0000,
                );
            }
        }
        let id: u64 = (self.sender_id as u64) * 0x1_0000_0000 + (self.counter as u64);
        let split = split_into_chunks(id, &enc, self.max_fragment_len);
        match split {
            None => None,
            Some(chunks) => {
                self.counter = if self.counter == u32::MAX {
                    0
                } else {
                    self.counter + 1
                };
                let ghost n = chunks@.len() as int;
                let mut payloads: Vec<Vec<u8>> = Vec::new();
                let mut i: usize = 0;
                while i < chunks.len()
                    invariant
                        i <= chunks@.len(),
                        payloads@.len() == i,
                        forall|k: int|
                            0 <= k < i ==> #[trigger] payloads@[k]@ == spec_encode_chunk(
                                chunks@[k]@,
                            ),
                    decreases chunks@.len() - i,
                {
                    let p = encode_chunk(&chunks[i]);
                    payloads.push(p);
                    i = i + 1;
                }
                proof {
                    let enc2 = spec_encode_message(message@);
                    let cap = self.max_fragment_len as int;
                    let mid = spec_message_id(self.sender_id, old(self).counter_spec());
                    assert forall|k: int|
                        0 <= k < spec_num_fragments(enc2.len() as int, cap) implies #[trigger]
                        vecs_view(payloads@)[k] == spec_encode_chunk(
                        ChunkModel {
                            id: mid,
                            chunk_index: k as u32,
                            total_chunks: spec_num_fragments(enc2.len() as int, cap) as u32,
                            data: spec_fragment(enc2, cap, k),
                        },
                    ) by {
                        assert(payloads@[k]@ == spec_encode_chunk(chunks@[k]@));
                    }
                }
                Some(payloads)
            },
        }
    }

    /// Puts the engine in its `Running` state; everything else is kept.
    pub fn start(&mut self)
        requires
            old(self).wf(),
        ensures
            final(self).wf(),
            final(self).is_running_spec(),
            final(self).buffer() == old(self).buffer(),
            final(self).peers_view() == old(self).peers_view(),
            final(self).sender() == old(self).sender(),
            final(self).counter_spec() == old(self).counter_spec(),
            final(self).fragment_cap() == old(self).fragment_cap(),
            final(self).timeout_ms() == old(self).timeout_ms(),
    {
        self.status = EngineStatus::Running;
    }

    /// Stops the engine and discards its transient state: partial
    /// reassembly entries and registered peers go with it.
    pub fn stop(&mut self)
        requires
            old(self).wf(),
        ensures
            final(self).wf(),
            !final(self).is_running_spec(),
            final(self).buffer() == Map::<u64, EntryModel>::empty(),
            final(self).peers_view() == Seq::<Seq<u8>>::empty(),
            final(self).sender() == old(self).sender(),
            final(self).counter_spec() == old(self).counter_spec(),
            final(self).fragment_cap() == old(self).fragment_cap(),
            final(self).timeout_ms() == old(self).timeout_ms(),
    {
        self.status = EngineStatus::Stopped;
        self.collector = ChunkCollector::new();
        self.peers = Vec::new();
        proof {
            assert(self.peers_view() =~= Seq::<Seq<u8>>::empty());
        }
    }

    /// Services one event: the verified decision function of the host's
    /// loop. A stopped engine ignores everything; a running engine
    /// registers and deregisters peers, collects inbound fragments and
    /// delivers completed messages, splits and publishes outbound messages,
    /// and on a stop request tears its state down and has the host release
    /// the transport.
    pub fn handle_event(&mut self, event: EngineEvent, now_ms: u64) -> (action: EngineAction)
        requires
            old(self).wf(),
        ensures
            final(self).wf(),
            final(self).sender() == old(self).sender(),
            final(self).fragment_cap() == old(self).fragment_cap(),
            final(self).timeout_ms() == old(self).timeout_ms(),
            !old(self).is_running_spec() ==> action is Ignore && *final(self) == *old(self),
            old(self).is_running_spec() ==> match event {
                EngineEvent::PeerDiscovered { peer } => {
                    &&& (action matches EngineAction::RegisterPeer { peer: p } && p@ == peer@)
                    &&& final(self).peers_view().contains(peer@)
                    &&& final(self).buffer() == old(self).buffer()
                    &&& final(self).counter_spec() == old(self).counter_spec()
                    &&& final(self).is_running_spec()
                },
                EngineEvent::PeerExpired { peer } => {
                    &&& (action matches EngineAction::UnregisterPeer { peer: p } && p@ == peer@)
                    &&& !final(self).peers_view().contains(peer@)
                    &&& final(self).buffer() == old(self).buffer()
                    &&& final(self).counter_spec() == old(self).counter_spec()
                    &&& final(self).is_running_spec()
                },
                EngineEvent::InboundPayload { payload } => {
                    let (m2, out) = spec_inbound_step(
                        old(self).buffer(),
                        payload@,
                        now_ms,
                        old(self).timeout_ms(),
                    );
                    &&& final(self).buffer() == m2
                    &&& final(self).peers_view() == old(self).peers_view()
                    &&& final(self).counter_spec() == old(self).counter_spec()
                    &&& final(self).is_running_spec()
                    &&& match out {
                        Option::Some(mm) => (action
                            matches EngineAction::DeliverInbound { message } && message@ == mm),
                        Option::None => action is Ignore,
                    }
                },
                EngineEvent::OutboundMessage { message } => {
                    let enc = spec_encode_message(message@);
                    let n = spec_num_fragments(
                        enc.len() as int,
                        old(self).fragment_cap() as int,
                    );
                    &&& final(self).buffer() == old(self).buffer()
                    &&& final(self).peers_view() == old(self).peers_view()
                    &&& final(self).is_running_spec()
                    &&& if n <= u32::MAX {
                        &&& final(self).counter_spec() == spec_next_counter(
                            old(self).counter_spec(),
                        )
                        &&& (action matches EngineAction::PublishFragments { payloads }
                            && spec_published_fragments(
                            vecs_view(payloads@),
                            enc,
                            old(self).fragment_cap() as int,
                            spec_message_id(old(self).sender(), old(self).counter_spec()),
                        ))
                    } else {
                        &&& final(self).counter_spec() == old(self).counter_spec()
                        &&& action is Ignore
                    }
                },
                EngineEvent::StopRequested => {
                    &&& action is ReleaseTransport
                    &&& !final(self).is_running_spec()
                    &&& final(self).buffer() == Map::<u64, EntryModel>::empty()
                    &&& final(self).peers_view() == Seq::<Seq<u8>>::empty()
                    &&& final(self).counter_spec() == old(self).counter_spec()
                },
            },
    {
        if !self.is_running() {
            return EngineAction::Ignore;
        }
        match event {
            EngineEvent::PeerDiscovered { peer } => {
                let mut reply: Vec<u8> = Vec::new();
                crate::chunk::append_bytes(&mut reply, &peer);
                proof {
                    assert(reply@ =~= peer@);
                }
                self.handle_peer_discovered(peer);
                EngineAction::RegisterPeer { peer: reply }
            },
            EngineEvent::PeerExpired { peer } => {
                self.handle_peer_expired(&peer);
                EngineAction::UnregisterPeer { peer }
            },
            EngineEvent::InboundPayload { payload } => {
                let delivered = self.handle_inbound_payload(&payload, now_ms);
                match delivered {
                    Some(message) => EngineAction::DeliverInbound { message },
                    None => EngineAction::Ignore,
                }
            },
            EngineEvent::OutboundMessage { message } => {
                let published = self.handle_outbound_message(&message);
                match published {
                    Some(payloads) => EngineAction::PublishFragments { payloads },
                    None => EngineAction::Ignore,
                }
            },
            EngineEvent::StopRequested => {
                self.stop();
                EngineAction::ReleaseTransport
            },
        }
    }
}

} // verus!
