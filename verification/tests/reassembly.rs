use canvas_sync::collector::ChunkCollector;
use canvas_sync::encoder::split_into_chunks;

fn payload(len: usize) -> Vec<u8> {
    (0..len).map(|i| (i % 251) as u8).collect()
}

#[test]
fn out_of_order_fragments_reassemble_exactly() {
    // a 3,500,000-byte message under a 1,000,000-byte transport cap minus
    // the 16-byte fragment header makes exactly 4 fragments
    let data = payload(3_500_000);
    let cap = 1_000_000 - 16;
    let chunks = split_into_chunks(11, &data, cap).expect("count fits");
    assert_eq!(chunks.len(), 4);

    let mut collector = ChunkCollector::new();
    for i in [2usize, 0, 3, 1] {
        let c = &chunks[i];
        assert!(!collector.is_complete(11));
        collector.add_chunk(c.id, c.chunk_index, c.total_chunks, c.data.clone(), 0);
    }
    assert!(collector.is_complete(11));
    let back = collector.reassemble(11).expect("complete message reassembles");
    assert_eq!(back, data);
    assert!(collector.is_empty());
}

#[test]
fn duplicate_fragments_change_nothing() {
    let data = payload(250);
    let chunks = split_into_chunks(7, &data, 100).expect("count fits");
    assert_eq!(chunks.len(), 3);
    let mut collector = ChunkCollector::new();
    for c in &chunks {
        collector.add_chunk(c.id, c.chunk_index, c.total_chunks, c.data.clone(), 0);
    }
    assert!(collector.is_complete(7));
    // re-adding an identical fragment leaves the entry complete and intact
    let c1 = &chunks[1];
    collector.add_chunk(c1.id, c1.chunk_index, c1.total_chunks, c1.data.clone(), 99);
    collector.add_chunk(c1.id, c1.chunk_index, c1.total_chunks, c1.data.clone(), 100);
    assert!(collector.is_complete(7));
    let back = collector.reassemble(7).expect("still complete");
    assert_eq!(back, data);
}

#[test]
fn completeness_lasts_until_removal() {
    let mut collector = ChunkCollector::new();
    collector.add_chunk(1, 0, 2, vec![1u8], 0);
    assert!(!collector.is_complete(1));
    collector.add_chunk(1, 1, 2, vec![2u8], 0);
    assert!(collector.is_complete(1));
    // unrelated and duplicate deliveries cannot un-complete the entry
    collector.add_chunk(2, 0, 3, vec![9u8], 0);
    collector.add_chunk(1, 0, 2, vec![1u8], 50);
    assert!(collector.is_complete(1));
    // only explicit removal takes it away
    collector.remove_chunks(&1);
    assert!(!collector.is_complete(1));
    assert!(collector.reassemble(1).is_none());
}

#[test]
fn out_of_range_index_is_rejected() {
    let mut collector = ChunkCollector::new();
    collector.add_chunk(3, 0, 2, vec![1u8], 0);
    // index beyond the recorded fragment count must not write anywhere
    collector.add_chunk(3, 2, 2, vec![2u8], 0);
    collector.add_chunk(3, u32::MAX, 2, vec![3u8], 0);
    assert!(!collector.is_complete(3));
    collector.add_chunk(3, 1, 2, vec![2u8], 0);
    assert!(collector.is_complete(3));
    let back = collector.reassemble(3).expect("complete");
    assert_eq!(back, vec![1u8, 2]);
}

#[test]
fn out_of_range_first_fragment_creates_nothing() {
    let mut collector = ChunkCollector::new();
    collector.add_chunk(4, 2, 2, vec![1u8], 0);
    collector.add_chunk(5, 0, 0, vec![1u8], 0);
    assert!(collector.is_empty());
    assert!(!collector.is_complete(4));
}

#[test]
fn conflicting_total_is_rejected() {
    let mut collector = ChunkCollector::new();
    collector.add_chunk(6, 0, 2, vec![1u8], 0);
    // the first-seen fragment count is authoritative
    collector.add_chunk(6, 1, 3, vec![2u8], 0);
    assert!(!collector.is_complete(6));
    collector.add_chunk(6, 1, 2, vec![2u8], 0);
    assert!(collector.is_complete(6));
    assert_eq!(collector.reassemble(6).expect("complete"), vec![1u8, 2]);
}

#[test]
fn interleaved_messages_reassemble_independently() {
    let data_a = payload(180);
    let data_b: Vec<u8> = (0..150).map(|i| (i % 7) as u8).collect();
    let chunks_a = split_into_chunks(100, &data_a, 64).expect("count fits");
    let chunks_b = split_into_chunks(200, &data_b, 64).expect("count fits");
    assert_eq!(chunks_a.len(), 3);
    assert_eq!(chunks_b.len(), 3);

    let mut collector = ChunkCollector::new();
    let order = [
        (&chunks_b[2], 200u64),
        (&chunks_a[0], 100u64),
        (&chunks_b[0], 200u64),
        (&chunks_a[2], 100u64),
        (&chunks_a[1], 100u64),
        (&chunks_b[1], 200u64),
    ];
    for (c, id) in order {
        assert_eq!(c.id, id);
        collector.add_chunk(c.id, c.chunk_index, c.total_chunks, c.data.clone(), 0);
    }
    assert!(collector.is_complete(100));
    assert!(collector.is_complete(200));
    assert_eq!(collector.reassemble(100).expect("complete"), data_a);
    assert!(collector.is_complete(200));
    assert_eq!(collector.reassemble(200).expect("complete"), data_b);
    assert!(collector.is_empty());
}

#[test]
fn stale_partial_entry_is_evicted() {
    let timeout = 60_000u64;
    let mut collector = ChunkCollector::new();
    // fragments 0 and 2 of a 3-fragment message arrive; fragment 1 never does
    collector.add_chunk(8, 0, 3, vec![1u8], 1_000);
    collector.add_chunk(8, 2, 3, vec![3u8], 2_000);
    // sweeping within the timeout keeps the entry
    collector.sweep_stale(50_000, timeout);
    assert!(!collector.is_empty());
    // sweeping after the timeout evicts it
    collector.sweep_stale(1_000 + timeout + 1, timeout);
    assert!(collector.is_empty());
    // fragment 1 arriving afterwards starts a fresh, still-incomplete entry
    collector.add_chunk(8, 1, 3, vec![2u8], 70_000);
    assert!(!collector.is_complete(8));
    assert!(collector.reassemble(8).is_none());
    assert!(!collector.is_empty());
}

#[test]
fn sweep_keeps_fresh_and_complete_entries() {
    let timeout = 60_000u64;
    let mut collector = ChunkCollector::new();
    collector.add_chunk(1, 0, 1, vec![1u8], 0); // complete at once
    collector.add_chunk(2, 0, 2, vec![2u8], 90_000); // fresh partial
    collector.add_chunk(3, 0, 2, vec![3u8], 0); // stale partial
    collector.sweep_stale(100_000, timeout);
    assert!(collector.is_complete(1));
    assert!(!collector.is_complete(2));
    assert!(collector.reassemble(2).is_none());
    // the stale partial is gone: its late fragment starts over
    collector.add_chunk(3, 1, 2, vec![4u8], 100_000);
    assert!(!collector.is_complete(3));
    assert_eq!(collector.reassemble(1).expect("kept"), vec![1u8]);
}

#[test]
fn reassembled_messages_leave_no_entries_behind() {
    let mut collector = ChunkCollector::new();
    for cycle in 0..5u64 {
        let data = payload(300 + cycle as usize);
        let chunks = split_into_chunks(cycle, &data, 128).expect("count fits");
        for c in chunks.iter().rev() {
            collector.add_chunk(c.id, c.chunk_index, c.total_chunks, c.data.clone(), 0);
        }
        assert_eq!(collector.reassemble(cycle).expect("complete"), data);
        assert!(collector.is_empty());
    }
}
