//! The application messages the engine carries, and their deterministic
//! binary form: a one-byte variant tag, then the payload; a canvas state
//! lists its byte sequences length-prefixed, in order.

use crate::chunk::append_bytes;
use vstd::bytes::{
    lemma_auto_spec_u64_to_from_le_bytes, spec_u64_from_le_bytes, spec_u64_to_le_bytes,
    u64_from_le_bytes, u64_to_le_bytes,
};
use vstd::prelude::*;
use vstd::slice::{slice_subrange, slice_to_vec};

verus! {

/// Wire tag of a `NewImage` message.
pub const TAG_NEW_IMAGE: u8 = 0;

/// Wire tag of a `CanvasState` message.
pub const TAG_CANVAS_STATE: u8 = 1;

/// View of a sequence of byte vectors as a sequence of byte sequences.
pub open spec fn vecs_view(v: Seq<Vec<u8>>) -> Seq<Seq<u8>> {
    v.map_values(|d: Vec<u8>| d@)
}

/// The application state that instances synchronize: the raw bytes of every
/// dropped file, in drop order.
pub struct SyncableState {
    pub dropped_bytes: Vec<Vec<u8>>,
}

impl View for SyncableState {
    type V = Seq<Seq<u8>>;

    open spec fn view(&self) -> Seq<Seq<u8>> {
        vecs_view(self.dropped_bytes@)
    }
}

/// A message exchanged between application instances.
pub enum MessageType {
    NewImage { bytes: Vec<u8> },
    CanvasState { state: SyncableState },
}

/// Mathematical model of a message.
#[verifier::ext_equal]
pub enum MessageModel {
    NewImage { bytes: Seq<u8> },
    CanvasState { state: Seq<Seq<u8>> },
}

impl View for MessageType {
    type V = MessageModel;

    open spec fn view(&self) -> MessageModel {
        match self {
            MessageType::NewImage { bytes } => MessageModel::NewImage { bytes: bytes@ },
            MessageType::CanvasState { state } => MessageModel::CanvasState { state: state@ },
        }
    }
}

/// A model whose counts and lengths fit the wire format's 64-bit fields.
/// Every value built from in-memory vectors satisfies this.
pub open spec fn spec_message_wf(m: MessageModel) -> bool {
    match m {
        MessageModel::NewImage { bytes } => true,
        MessageModel::CanvasState { state } => {
            &&& state.len() <= u64::MAX
            &&& forall|i: int| 0 <= i < state.len() ==> (#[trigger] state[i]).len() <= u64::MAX
        },
    }
}

/// Wire form of a list of byte sequences: each length-prefixed, in order.
pub open spec fn spec_encode_items(items: Seq<Seq<u8>>) -> Seq<u8>
    decreases items.len(),
{
    if items.len() == 0 {
        Seq::empty()
    } else {
        spec_u64_to_le_bytes(items[0].len() as u64) + items[0] + spec_encode_items(
            items.drop_first(),
        )
    }
}

/// Wire form of a message: its tag, then its payload.
pub open spec fn spec_encode_message(m: MessageModel) -> Seq<u8> {
    match m {
        MessageModel::NewImage { bytes } => seq![TAG_NEW_IMAGE] + bytes,
        MessageModel::CanvasState { state } => seq![TAG_CANVAS_STATE] + spec_u64_to_le_bytes(
            state.len() as u64,
        ) + spec_encode_items(state),
    }
}

/// Parse of `count` length-prefixed byte sequences; succeeds only when the
/// buffer is consumed exactly.
pub open spec fn spec_decode_items(bytes: Seq<u8>, count: nat) -> Option<Seq<Seq<u8>>>
    decreases count,
{
    if count == 0 {
        if bytes.len() == 0 {
            Some(Seq::empty())
        } else {
            None
        }
    } else if bytes.len() < 8 {
        None
    } else {
        let l = spec_u64_from_le_bytes(bytes.take(8)) as int;
        if bytes.len() - 8 < l {
            None
        } else {
            match spec_decode_items(bytes.skip(8 + l), (count - 1) as nat) {
                Option::Some(rest) => Some(seq![bytes.subrange(8, 8 + l)] + rest),
                Option::None => None,
            }
        }
    }
}

/// Parse of one message; `None` for an empty buffer, an unknown tag, or a
/// canvas state whose items do not fill the buffer exactly.
pub open spec fn spec_decode_message(bytes: Seq<u8>) -> Option<MessageModel> {
    if bytes.len() < 1 {
        None
    } else if bytes[0] == TAG_NEW_IMAGE {
        Some(MessageModel::NewImage { bytes: bytes.skip(1) })
    } else if bytes[0] == TAG_CANVAS_STATE {
        if bytes.len() < 9 {
            None
        } else {
            let count = spec_u64_from_le_bytes(bytes.subrange(1, 9));
            match spec_decode_items(bytes.skip(9), count as nat) {
                Option::Some(items) => Some(MessageModel::CanvasState { state: items }),
                Option::None => None,
            }
        }
    } else {
        None
    }
}

/// Appending to a list of items encodes to the two encodings appended.
proof fn lemma_encode_items_app(s1: Seq<Seq<u8>>, s2: Seq<Seq<u8>>)
    ensures
        spec_encode_items(s1 + s2) == spec_encode_items(s1) + spec_encode_items(s2),
    decreases s1.len(),
{
    if s1.len() == 0 {
        assert(s1 + s2 =~= s2);
        assert(spec_encode_items(s1) == Seq::<u8>::empty());
        assert(spec_encode_items(s1) + spec_encode_items(s2) =~= spec_encode_items(s2));
    } else {
        assert((s1 + s2).drop_first() =~= s1.drop_first() + s2);
        assert((s1 + s2)[0] == s1[0]);
        lemma_encode_items_app(s1.drop_first(), s2);
        assert(spec_encode_items(s1 + s2) =~= spec_encode_items(s1) + spec_encode_items(s2));
    }
}

/// Serializes one message to its wire form.
pub fn encode_message(m: &MessageType) -> (out: Vec<u8>)
    ensures
        out@ == spec_encode_message(m@),
{
    match m {
        MessageType::NewImage { bytes } => {
            let mut out: Vec<u8> = Vec::new();
            out.push(TAG_NEW_IMAGE);
            append_bytes(&mut out, bytes);
            proof {
                assert(out@ =~= spec_encode_message(m@));
            }
            out
        },
        MessageType::CanvasState { state } => {
            let items = &state.dropped_bytes;
            let ghost itemsv = vecs_view(items@);
            let mut out: Vec<u8> = Vec::new();
            out.push(TAG_CANVAS_STATE);
            let mut cnt = u64_to_le_bytes(items.len() as u64);
            out.append(&mut cnt);
            let ghost header = seq![TAG_CANVAS_STATE] + spec_u64_to_le_bytes(
                items@.len() as u64,
            );
            proof {
                assert(out@ =~= header);
                assert(itemsv.take(0) =~= Seq::<Seq<u8>>::empty());
                assert(out@ =~= header + spec_encode_items(itemsv.take(0)));
            }
            let mut i: usize = 0;
            while i < items.len()
                invariant
                    i <= items@.len(),
                    itemsv == vecs_view(items@),
                    header == seq![TAG_CANVAS_STATE] + spec_u64_to_le_bytes(
                        items@.len() as u64,
                    ),
                    out@ == header + spec_encode_items(itemsv.take(i as int)),
                decreases items@.len() - i,
            {
                let mut l = u64_to_le_bytes(items[i].len() as u64);
                out.append(&mut l);
                append_bytes(&mut out, &items[i]);
                proof {
                    let one = seq![itemsv[i as int]];
                    assert(itemsv.take(i + 1) =~= itemsv.take(i as int) + one);
                    lemma_encode_items_app(itemsv.take(i as int), one);
                    assert(one.drop_first() =~= Seq::<Seq<u8>>::empty());
                    assert(spec_encode_items(Seq::<Seq<u8>>::empty()) == Seq::<u8>::empty());
                    assert(spec_encode_items(one) =~= spec_u64_to_le_bytes(
                        itemsv[i as int].len() as u64,
                    ) + itemsv[i as int]);
                    assert(out@ =~= header + spec_encode_items(itemsv.take(i + 1)));
                }
                i = i + 1;
            }
            proof {
                assert(itemsv.take(items@.len() as int) =~= itemsv);
                assert(out@ =~= spec_encode_message(m@));
            }
            out
        },
    }
}

/// Joins already-parsed items with the parse of the rest of the buffer.
spec fn decode_items_join(
    prefix: Seq<Seq<u8>>,
    rest: Option<Seq<Seq<u8>>>,
) -> Option<Seq<Seq<u8>>> {
    match rest {
        Option::Some(r) => Some(prefix + r),
        Option::None => None,
    }
}

/// Parses one wire payload into a message, as [`spec_decode_message`]
/// describes.
pub fn decode_message(bytes: &Vec<u8>) -> (r: Option<MessageType>)
    ensures
        match r {
            Some(m) => spec_decode_message(bytes@) == Some(m@),
            None => spec_decode_message(bytes@) is None,
        },
{
    if bytes.len() < 1 {
        return None;
    }
    let tag = bytes[0];
    if tag == TAG_NEW_IMAGE {
        let data = slice_to_vec(slice_subrange(bytes.as_slice(), 1, bytes.len()));
        proof {
            assert(data@ =~= bytes@.skip(1));
        }
        Some(MessageType::NewImage { bytes: data })
    } else if tag == TAG_CANVAS_STATE {
        if bytes.len() < 9 {
            return None;
        }
        let count = u64_from_le_bytes(slice_subrange(bytes.as_slice(), 1, 9));
        let mut items: Vec<Vec<u8>> = Vec::new();
        let mut pos: usize = 9;
        let mut k: u64 = 0;
        proof {
            assert(vecs_view(items@) =~= Seq::<Seq<u8>>::empty());
            let rest0 = spec_decode_items(bytes@.skip(9), count as nat);
            match rest0 {
                Option::Some(r) => {
                    assert(vecs_view(items@) + r =~= r);
                },
                Option::None => (),
            }
        }
        while k < count
            invariant
                bytes@.len() >= 9,
                bytes@[0] == TAG_CANVAS_STATE,
                count == spec_u64_from_le_bytes(bytes@.subrange(1, 9)),
                9 <= pos <= bytes@.len(),
                k <= count,
                items@.len() == k,
                spec_decode_items(bytes@.skip(9), count as nat) == decode_items_join(
                    vecs_view(items@),
                    spec_decode_items(bytes@.skip(pos as int), (count - k) as nat),
                ),
            decreases count - k,
        {
            let ghost suffix = bytes@.skip(pos as int);
            let ghost remaining = (count - k) as nat;
            if bytes.len() - pos < 8 {
                proof {
                    assert(suffix.len() < 8);
                    assert(spec_decode_items(suffix, remaining) is None);
                }
                return None;
            }
            let l64 = u64_from_le_bytes(slice_subrange(bytes.as_slice(), pos, pos + 8));
            proof {
                assert(suffix.take(8) =~= bytes@.subrange(pos as int, pos as int + 8));
            }
            let avail = bytes.len() - pos - 8;
            if l64 > avail as u64 {
                proof {
                    assert(suffix.len() - 8 < l64 as int);
                    assert(spec_decode_items(suffix, remaining) is None);
                }
                return None;
            }
            let l = l64 as usize;
            let item = slice_to_vec(slice_subrange(bytes.as_slice(), pos + 8, pos + 8 + l));
            proof {
                assert(item@ =~= suffix.subrange(8, 8 + l as int));
                assert(suffix.skip(8 + l as int) =~= bytes@.skip(pos as int + 8 + l as int));
            }
            let ghost items0 = vecs_view(items@);
            items.push(item);
            proof {
                assert(vecs_view(items@) =~= items0 + seq![item@]);
                let rest_next = spec_decode_items(
                    bytes@.skip(pos as int + 8 + l as int),
                    (count - k - 1) as nat,
                );
                match rest_next {
                    Option::Some(r) => {
                        assert(spec_decode_items(suffix, remaining) == Some(
                            seq![item@] + r,
                        ));
                        assert(items0 + (seq![item@] + r) =~= (items0 + seq![item@]) + r);
                    },
                    Option::None => {
                        assert(spec_decode_items(suffix, remaining) is None);
                    },
                }
            }
            pos = pos + 8 + l;
            k = k + 1;
        }
        if pos != bytes.len() {
            proof {
                assert(bytes@.skip(pos as int).len() != 0);
                assert(spec_decode_items(bytes@.skip(pos as int), 0) is None);
            }
            return None;
        }
        proof {
            assert(bytes@.skip(pos as int).len() == 0);
            assert(spec_decode_items(bytes@.skip(pos as int), 0) == Some(Seq::<Seq<u8>>::empty()));
            assert(vecs_view(items@) + Seq::<Seq<u8>>::empty() =~= vecs_view(items@));
        }
        let state = SyncableState { dropped_bytes: items };
        Some(MessageType::CanvasState { state })
    } else {
        None
    }
}

/// A list of items encoded to the wire decodes back to itself.
proof fn lemma_items_round_trip(items: Seq<Seq<u8>>)
    requires
        forall|i: int| 0 <= i < items.len() ==> (#[trigger] items[i]).len() <= u64::MAX,
    ensures
        spec_decode_items(spec_encode_items(items), items.len() as nat) == Some(items),
    decreases items.len(),
{
    lemma_auto_spec_u64_to_from_le_bytes();
    if items.len() == 0 {
        assert(spec_encode_items(items).len() == 0);
        assert(spec_decode_items(spec_encode_items(items), 0) == Some(Seq::<Seq<u8>>::empty()));
        assert(Seq::<Seq<u8>>::empty() =~= items);
    } else {
        let hd = items[0];
        let tl = items.drop_first();
        let lenb = spec_u64_to_le_bytes(hd.len() as u64);
        let e = spec_encode_items(items);
        assert(e == lenb + hd + spec_encode_items(tl));
        assert(e.take(8) =~= lenb);
        let l = spec_u64_from_le_bytes(e.take(8)) as int;
        assert(l == hd.len());
        assert(e.len() - 8 >= l);
        assert(e.subrange(8, 8 + l) =~= hd);
        assert(e.skip(8 + l) =~= spec_encode_items(tl));
        assert(forall|i: int|
            0 <= i < tl.len() ==> (#[trigger] tl[i]).len() <= u64::MAX) by {
            assert(forall|i: int| 0 <= i < tl.len() ==> tl[i] == items[i + 1]);
        }
        lemma_items_round_trip(tl);
        assert(spec_decode_items(e, items.len() as nat) == Some(seq![hd] + tl));
        assert(seq![hd] + tl =~= items);
    }
}

/// ROUND-TRIP FIDELITY of the message codec: a message encoded to the wire
/// decodes back to itself, for every message whose counts fit the wire
/// format (every message held in memory does).
pub proof fn lemma_message_round_trip(m: MessageModel)
    requires
        spec_message_wf(m),
    ensures
        spec_decode_message(spec_encode_message(m)) == Some(m),
{
    lemma_auto_spec_u64_to_from_le_bytes();
    let e = spec_encode_message(m);
    match m {
        MessageModel::NewImage { bytes } => {
            assert(e[0] == TAG_NEW_IMAGE);
            assert(e.skip(1) =~= bytes);
        },
        MessageModel::CanvasState { state } => {
            let lenb = spec_u64_to_le_bytes(state.len() as u64);
            assert(e[0] == TAG_CANVAS_STATE);
            assert(e.len() >= 9);
            assert(e.subrange(1, 9) =~= lenb);
            assert(spec_u64_from_le_bytes(e.subrange(1, 9)) == state.len() as u64);
            assert(e.skip(9) =~= spec_encode_items(state));
            lemma_items_round_trip(state);
        },
    }
}

impl SyncableState {
    /// Applies one inbound message to the synchronized state: a new image
    /// is appended, a full canvas state replaces it.
    pub fn apply_message(&mut self, message: MessageType)
        ensures
            (message@ matches MessageModel::NewImage { bytes } ==> final(self)@ == old(
                self,
            )@.push(bytes)),
            (message@ matches MessageModel::CanvasState { state } ==> final(self)@ == state),
    {
        match message {
            MessageType::NewImage { bytes } => {
                let ghost b = bytes@;
                self.dropped_bytes.push(bytes);
                proof {
                    assert(self@ =~= old(self)@.push(b));
                }
            },
            MessageType::CanvasState { state } => {
                *self = state;
            },
        }
    }
}

} // verus!
