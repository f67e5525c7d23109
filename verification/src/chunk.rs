//! The wire form of one fragment: a fixed 16-byte header (message id,
//! fragment index, fragment count, all little-endian) followed by the
//! fragment payload.

use vstd::bytes::{
    lemma_auto_spec_u32_to_from_le_bytes, lemma_auto_spec_u64_to_from_le_bytes,
    spec_u32_from_le_bytes, spec_u32_to_le_bytes, spec_u64_from_le_bytes, spec_u64_to_le_bytes,
    u32_from_le_bytes, u32_to_le_bytes, u64_from_le_bytes, u64_to_le_bytes,
};
use vstd::prelude::*;
use vstd::slice::{slice_subrange, slice_to_vec};

verus! {

/// Bytes of fixed per-fragment overhead on the wire: an 8-byte message id,
/// a 4-byte fragment index and a 4-byte fragment count.
pub const CHUNK_HEADER_LEN: usize = 16;

/// One bounded-size fragment of a larger serialized message.
pub struct ChunkedMessage {
    pub id: u64,
    pub chunk_index: u32,
    pub total_chunks: u32,
    pub data: Vec<u8>,
}

/// Mathematical model of a fragment: the header fields beside the payload
/// as a byte sequence.
pub struct ChunkModel {
    pub id: u64,
    pub chunk_index: u32,
    pub total_chunks: u32,
    pub data: Seq<u8>,
}

impl View for ChunkedMessage {
    type V = ChunkModel;

    open spec fn view(&self) -> ChunkModel {
        ChunkModel {
            id: self.id,
            chunk_index: self.chunk_index,
            total_chunks: self.total_chunks,
            data: self.data@,
        }
    }
}

/// Wire layout of one fragment: id, index and count little-endian, then the
/// payload through the end of the buffer.
pub open spec fn spec_encode_chunk(c: ChunkModel) -> Seq<u8> {
    spec_u64_to_le_bytes(c.id) + spec_u32_to_le_bytes(c.chunk_index)
        + spec_u32_to_le_bytes(c.total_chunks) + c.data
}

/// Parse of one wire payload; `None` for anything shorter than the header.
pub open spec fn spec_decode_chunk(bytes: Seq<u8>) -> Option<ChunkModel> {
    if bytes.len() < CHUNK_HEADER_LEN {
        None
    } else {
        Some(ChunkModel {
            id: spec_u64_from_le_bytes(bytes.subrange(0, 8)),
            chunk_index: spec_u32_from_le_bytes(bytes.subrange(8, 12)),
            total_chunks: spec_u32_from_le_bytes(bytes.subrange(12, 16)),
            data: bytes.skip(16),
        })
    }
}

/// Appends a copy of `data` to `out`.
pub fn append_bytes(out: &mut Vec<u8>, data: &Vec<u8>)
    ensures
        final(out)@ == old(out)@ + data@,
{
    let mut i: usize = 0;
    while i < data.len()
        invariant
            i <= data@.len(),
            out@ == old(out)@ + data@.take(i as int),
        decreases data@.len() - i,
    {
        out.push(data[i]);
        assert(data@.take(i + 1) =~= data@.take(i as int).push(data@[i as int]));
        i = i + 1;
    }
    assert(data@.take(data@.len() as int) =~= data@);
}

/// Serializes one fragment to its wire form.
pub fn encode_chunk(c: &ChunkedMessage) -> (out: Vec<u8>)
    ensures
        out@ == spec_encode_chunk(c@),
{
    let mut out = u64_to_le_bytes(c.id);
    let mut idx = u32_to_le_bytes(c.chunk_index);
    let mut tot = u32_to_le_bytes(c.total_chunks);
    out.append(&mut idx);
    out.append(&mut tot);
    append_bytes(&mut out, &c.data);
    out
}

/// Parses one wire payload into a fragment; `None` for anything shorter than
/// the header.
pub fn decode_chunk(payload: &Vec<u8>) -> (r: Option<ChunkedMessage>)
    ensures
        match r {
            Some(c) => spec_decode_chunk(payload@) == Some(c@),
            None => spec_decode_chunk(payload@) is None,
        },
{
    if payload.len() < CHUNK_HEADER_LEN {
        return None;
    }
    let s = payload.as_slice();
    let id = u64_from_le_bytes(slice_subrange(s, 0, 8));
    let chunk_index = u32_from_le_bytes(slice_subrange(s, 8, 12));
    let total_chunks = u32_from_le_bytes(slice_subrange(s, 12, 16));
    let data = slice_to_vec(slice_subrange(s, CHUNK_HEADER_LEN, payload.len()));
    assert(data@ =~= payload@.skip(16));
    Some(ChunkedMessage { id, chunk_index, total_chunks, data })
}

/// A fragment encoded to the wire decodes back to itself.
pub proof fn lemma_chunk_round_trip(c: ChunkModel)
    ensures
        spec_decode_chunk(spec_encode_chunk(c)) == Some(c),
{
    lemma_auto_spec_u64_to_from_le_bytes();
    lemma_auto_spec_u32_to_from_le_bytes();
    let e = spec_encode_chunk(c);
    assert(e.subrange(0, 8) =~= spec_u64_to_le_bytes(c.id));
    assert(e.subrange(8, 12) =~= spec_u32_to_le_bytes(c.chunk_index));
    assert(e.subrange(12, 16) =~= spec_u32_to_le_bytes(c.total_chunks));
    assert(e.skip(16) =~= c.data);
}

} // verus!
