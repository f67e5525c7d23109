use canvas_sync::bridge::BridgeChannel;
use canvas_sync::chunk::decode_chunk;
use canvas_sync::engine::{EngineAction, EngineEvent, SyncEngine};
use canvas_sync::message::{MessageType, SyncableState};

const CAP: usize = 1_000_000 - 16;
const TIMEOUT_MS: u64 = 60_000;

fn image_message(len: usize) -> MessageType {
    MessageType::NewImage { bytes: (0..len).map(|i| (i % 239) as u8).collect() }
}

#[test]
fn full_sync_cycle_delivers_and_leaves_nothing() {
    let mut sender = SyncEngine::new(1, CAP, TIMEOUT_MS);
    let mut receiver = SyncEngine::new(2, CAP, TIMEOUT_MS);

    for cycle in 0..3usize {
        let len = 2_500_000 + cycle;
        let message = image_message(len);
        let payloads = sender.handle_outbound_message(&message).expect("count fits");
        assert_eq!(payloads.len(), 3);

        // deliver out of order; only the last fragment completes the message
        let mut delivered = None;
        for i in [1usize, 2, 0] {
            assert!(delivered.is_none());
            delivered = receiver.handle_inbound_payload(&payloads[i], 10);
        }
        match delivered {
            Some(MessageType::NewImage { bytes }) => assert_eq!(bytes.len(), len),
            _ => panic!("expected the reassembled NewImage"),
        }
        // a completed message leaves no entry behind
        assert!(receiver.buffer_is_empty());
    }
}

#[test]
fn engine_fragments_carry_fresh_ids() {
    let mut engine = SyncEngine::new(7, CAP, TIMEOUT_MS);
    let first = engine.handle_outbound_message(&image_message(10)).expect("fits");
    let second = engine.handle_outbound_message(&image_message(10)).expect("fits");
    let id1 = decode_chunk(&first[0]).expect("well-formed").id;
    let id2 = decode_chunk(&second[0]).expect("well-formed").id;
    // sender identity in the high bits, the stepping counter in the low
    assert_eq!(id1, 7u64 << 32);
    assert_eq!(id2, (7u64 << 32) | 1);
    assert_ne!(id1, id2);
}

#[test]
fn malformed_payloads_are_ignored() {
    let mut engine = SyncEngine::new(3, CAP, TIMEOUT_MS);
    assert!(engine.handle_inbound_payload(&vec![1u8, 2, 3], 0).is_none());
    assert!(engine.buffer_is_empty());
    // a fragment whose reassembled bytes are no message is dropped too
    let mut bogus = Vec::new();
    bogus.extend_from_slice(&99u64.to_le_bytes());
    bogus.extend_from_slice(&0u32.to_le_bytes());
    bogus.extend_from_slice(&1u32.to_le_bytes());
    bogus.push(200); // unknown message tag
    assert!(engine.handle_inbound_payload(&bogus, 0).is_none());
    // the entry was complete, so it was removed even though decoding failed
    assert!(engine.buffer_is_empty());
}

#[test]
fn engine_evicts_stale_partials_on_inbound_traffic() {
    let mut engine = SyncEngine::new(4, CAP, TIMEOUT_MS);
    // one fragment of a two-fragment message
    let mut frag = Vec::new();
    frag.extend_from_slice(&5u64.to_le_bytes());
    frag.extend_from_slice(&0u32.to_le_bytes());
    frag.extend_from_slice(&2u32.to_le_bytes());
    frag.push(1);
    assert!(engine.handle_inbound_payload(&frag, 1_000).is_none());
    assert!(!engine.buffer_is_empty());
    // much later traffic sweeps the abandoned entry out
    assert!(engine.handle_inbound_payload(&vec![], 1_000 + TIMEOUT_MS + 1).is_none());
    assert!(engine.buffer_is_empty());
}

#[test]
fn handle_event_drives_the_state_machine() {
    let mut engine = SyncEngine::new(9, CAP, TIMEOUT_MS);
    assert!(engine.is_running());

    match engine.handle_event(EngineEvent::PeerDiscovered { peer: vec![1u8, 2] }, 0) {
        EngineAction::RegisterPeer { peer } => assert_eq!(peer, vec![1u8, 2]),
        _ => panic!("a discovered peer must be registered"),
    }
    match engine.handle_event(EngineEvent::PeerExpired { peer: vec![1u8, 2] }, 0) {
        EngineAction::UnregisterPeer { peer } => assert_eq!(peer, vec![1u8, 2]),
        _ => panic!("an expired peer must be deregistered"),
    }

    let message = MessageType::CanvasState {
        state: SyncableState { dropped_bytes: vec![vec![1u8, 2, 3]] },
    };
    let payloads = match engine.handle_event(
        EngineEvent::OutboundMessage { message },
        0,
    ) {
        EngineAction::PublishFragments { payloads } => payloads,
        _ => panic!("an outbound message must be published"),
    };
    assert_eq!(payloads.len(), 1);

    // feed the published fragment back in: the message comes out whole
    let mut peer_engine = SyncEngine::new(10, CAP, TIMEOUT_MS);
    match peer_engine.handle_event(EngineEvent::InboundPayload { payload: payloads[0].clone() }, 5)
    {
        EngineAction::DeliverInbound { message: MessageType::CanvasState { state } } => {
            assert_eq!(state.dropped_bytes, vec![vec![1u8, 2, 3]]);
        },
        _ => panic!("a completed message must be delivered"),
    }

    match engine.handle_event(EngineEvent::StopRequested, 0) {
        EngineAction::ReleaseTransport => (),
        _ => panic!("a stop request must release the transport"),
    }
    assert!(!engine.is_running());
    // a stopped engine ignores everything
    match engine.handle_event(EngineEvent::PeerDiscovered { peer: vec![3u8] }, 0) {
        EngineAction::Ignore => (),
        _ => panic!("a stopped engine must ignore events"),
    }
}

#[test]
fn outbound_channel_holds_exactly_one_message() {
    let mut channel = BridgeChannel::new();
    assert!(!channel.is_occupied());
    assert!(channel.try_send(image_message(4)).is_ok());
    assert!(channel.is_occupied());

    // the second send fails immediately and hands the message back
    let second = MessageType::NewImage { bytes: vec![42u8] };
    match channel.try_send(second) {
        Err(MessageType::NewImage { bytes }) => assert_eq!(bytes, vec![42u8]),
        _ => panic!("a full channel must refuse the send"),
    }

    // the first message is unaffected
    match channel.try_recv() {
        Some(MessageType::NewImage { bytes }) => assert_eq!(bytes.len(), 4),
        _ => panic!("the pending message must still be there"),
    }
    assert!(channel.try_recv().is_none());
    assert!(channel.try_send(MessageType::NewImage { bytes: vec![] }).is_ok());
}
