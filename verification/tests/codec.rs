use canvas_sync::chunk::{decode_chunk, encode_chunk, ChunkedMessage, CHUNK_HEADER_LEN};
use canvas_sync::encoder::split_into_chunks;
use canvas_sync::message::{decode_message, encode_message, MessageType, SyncableState};

#[test]
fn chunk_header_layout_is_little_endian() {
    let c = ChunkedMessage {
        id: 0x0102030405060708,
        chunk_index: 1,
        total_chunks: 2,
        data: vec![9u8, 10u8],
    };
    let wire = encode_chunk(&c);
    assert_eq!(
        wire,
        vec![8u8, 7, 6, 5, 4, 3, 2, 1, 1, 0, 0, 0, 2, 0, 0, 0, 9, 10]
    );
    assert_eq!(CHUNK_HEADER_LEN, 16);
}

#[test]
fn chunk_codec_round_trips() {
    let c = ChunkedMessage {
        id: 77,
        chunk_index: 3,
        total_chunks: 9,
        data: vec![0u8, 255, 128, 1],
    };
    let wire = encode_chunk(&c);
    let back = decode_chunk(&wire).expect("a full header must decode");
    assert_eq!(back.id, 77);
    assert_eq!(back.chunk_index, 3);
    assert_eq!(back.total_chunks, 9);
    assert_eq!(back.data, vec![0u8, 255, 128, 1]);
}

#[test]
fn chunk_with_empty_data_round_trips() {
    let c = ChunkedMessage { id: 1, chunk_index: 0, total_chunks: 1, data: vec![] };
    let wire = encode_chunk(&c);
    assert_eq!(wire.len(), 16);
    let back = decode_chunk(&wire).expect("header-only payload decodes");
    assert!(back.data.is_empty());
}

#[test]
fn short_payload_is_rejected() {
    assert!(decode_chunk(&vec![]).is_none());
    assert!(decode_chunk(&vec![0u8; 15]).is_none());
    assert!(decode_chunk(&vec![0u8; 16]).is_some());
}

#[test]
fn split_covers_input_in_order() {
    let data: Vec<u8> = (0u8..=249).collect();
    let chunks = split_into_chunks(42, &data, 100).expect("count fits");
    assert_eq!(chunks.len(), 3);
    for (i, c) in chunks.iter().enumerate() {
        assert_eq!(c.id, 42);
        assert_eq!(c.chunk_index, i as u32);
        assert_eq!(c.total_chunks, 3);
    }
    assert_eq!(chunks[0].data.len(), 100);
    assert_eq!(chunks[1].data.len(), 100);
    assert_eq!(chunks[2].data.len(), 50);
    let mut joined = Vec::new();
    for c in &chunks {
        joined.extend_from_slice(&c.data);
    }
    assert_eq!(joined, data);
}

#[test]
fn split_exact_multiple_has_no_empty_tail() {
    let data = vec![7u8; 300];
    let chunks = split_into_chunks(1, &data, 100).expect("count fits");
    assert_eq!(chunks.len(), 3);
    assert!(chunks.iter().all(|c| c.data.len() == 100));
}

#[test]
fn empty_input_yields_one_empty_chunk() {
    let chunks = split_into_chunks(5, &vec![], 100).expect("count fits");
    assert_eq!(chunks.len(), 1);
    assert_eq!(chunks[0].chunk_index, 0);
    assert_eq!(chunks[0].total_chunks, 1);
    assert!(chunks[0].data.is_empty());
}

#[test]
fn new_image_message_round_trips() {
    let m = MessageType::NewImage { bytes: vec![1u8, 2, 3, 0, 255] };
    let wire = encode_message(&m);
    assert_eq!(wire[0], 0);
    match decode_message(&wire) {
        Some(MessageType::NewImage { bytes }) => assert_eq!(bytes, vec![1u8, 2, 3, 0, 255]),
        _ => panic!("expected a NewImage"),
    }
}

#[test]
fn canvas_state_message_round_trips() {
    let state = SyncableState {
        dropped_bytes: vec![vec![1u8, 2, 3], vec![], vec![42u8; 1000]],
    };
    let m = MessageType::CanvasState { state };
    let wire = encode_message(&m);
    assert_eq!(wire[0], 1);
    match decode_message(&wire) {
        Some(MessageType::CanvasState { state }) => {
            assert_eq!(state.dropped_bytes.len(), 3);
            assert_eq!(state.dropped_bytes[0], vec![1u8, 2, 3]);
            assert!(state.dropped_bytes[1].is_empty());
            assert_eq!(state.dropped_bytes[2], vec![42u8; 1000]);
        },
        _ => panic!("expected a CanvasState"),
    }
}

#[test]
fn empty_canvas_state_round_trips() {
    let m = MessageType::CanvasState { state: SyncableState { dropped_bytes: vec![] } };
    let wire = encode_message(&m);
    match decode_message(&wire) {
        Some(MessageType::CanvasState { state }) => assert!(state.dropped_bytes.is_empty()),
        _ => panic!("expected a CanvasState"),
    }
}

#[test]
fn malformed_messages_are_rejected() {
    // empty buffer
    assert!(decode_message(&vec![]).is_none());
    // unknown tag
    assert!(decode_message(&vec![9u8, 1, 2, 3]).is_none());
    // canvas state with a truncated count field
    assert!(decode_message(&vec![1u8, 0, 0]).is_none());
    // canvas state claiming one item but holding none
    let mut wire = vec![1u8];
    wire.extend_from_slice(&1u64.to_le_bytes());
    assert!(decode_message(&wire).is_none());
    // canvas state whose item length overruns the buffer
    let mut wire = vec![1u8];
    wire.extend_from_slice(&1u64.to_le_bytes());
    wire.extend_from_slice(&100u64.to_le_bytes());
    wire.push(0);
    assert!(decode_message(&wire).is_none());
    // canvas state with trailing garbage after its items
    let m = MessageType::CanvasState { state: SyncableState { dropped_bytes: vec![vec![5u8]] } };
    let mut wire = encode_message(&m);
    wire.push(0);
    assert!(decode_message(&wire).is_none());
}

#[test]
fn apply_message_appends_or_replaces() {
    let mut state = SyncableState { dropped_bytes: vec![vec![1u8]] };
    state.apply_message(MessageType::NewImage { bytes: vec![2u8, 3] });
    assert_eq!(state.dropped_bytes, vec![vec![1u8], vec![2u8, 3]]);
    state.apply_message(MessageType::CanvasState {
        state: SyncableState { dropped_bytes: vec![vec![9u8]] },
    });
    assert_eq!(state.dropped_bytes, vec![vec![9u8]]);
}
