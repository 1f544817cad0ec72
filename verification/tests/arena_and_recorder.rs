use postings::arena::{extend_bytes, Arena};
use postings::hash_index::{bytes_eq, claim_slot, hash_bytes, new_table};
use postings::posting::RecorderKind;
use postings::recorder::{read_positions, Recorder, RecorderUpdate, RECORDER_SIZE};

#[test]
fn arena_hands_out_increasing_offsets() {
    let mut arena = Arena::new();
    assert_eq!(arena.len(), 0);
    assert_eq!(arena.allocate(4), 0);
    assert_eq!(arena.allocate(0), 4);
    assert_eq!(arena.allocate(3), 4);
    assert_eq!(arena.append(b"xy"), 7);
    assert_eq!(arena.len(), 9);
    assert_eq!(arena.mem_usage(), 9);
    assert_eq!(arena.slice(0, 9), &[0, 0, 0, 0, 0, 0, 0, b'x', b'y'][..]);
}

#[test]
fn arena_writes_in_place_and_reads_back() {
    let mut arena = Arena::new();
    arena.allocate(6);
    arena.write(1, &[9, 8, 7]);
    assert_eq!(arena.slice(0, 6), &[0, 9, 8, 7, 0, 0][..]);
    assert_eq!(arena.slice(2, 1), &[8][..]);
    arena.write(6, &[]);
    assert_eq!(arena.len(), 6);
}

#[test]
fn arena_stores_integers_little_endian() {
    let mut arena = Arena::new();
    let a = arena.append_u32(0x0102_0304);
    let b = arena.append_u64(0x1122_3344_5566_7788);
    let c = arena.append_addr(77);
    assert_eq!((a, b, c), (0, 4, 12));
    assert_eq!(arena.slice(0, 4), &[4, 3, 2, 1][..]);
    assert_eq!(arena.read_u32(a), 0x0102_0304);
    assert_eq!(arena.read_u64(b), 0x1122_3344_5566_7788);
    assert_eq!(arena.read_addr(c), 77);
    assert_eq!(arena.len(), 20);
}

#[test]
fn extend_bytes_appends() {
    let mut v = vec![1u8, 2];
    extend_bytes(&mut v, &[3, 4, 5]);
    extend_bytes(&mut v, &[]);
    assert_eq!(v, vec![1, 2, 3, 4, 5]);
}

#[test]
fn hash_is_fnv1a() {
    assert_eq!(hash_bytes(b""), 0xcbf29ce484222325);
    assert_eq!(hash_bytes(b"a"), 0xaf63dc4c8601ec8c);
    assert_eq!(hash_bytes(b"foobar"), 0x85944171f73967e8);
    assert_ne!(hash_bytes(b"ab"), hash_bytes(b"ba"));
}

#[test]
fn bytes_eq_compares_contents() {
    assert!(bytes_eq(b"", b""));
    assert!(bytes_eq(b"term", b"term"));
    assert!(!bytes_eq(b"term", b"terms"));
    assert!(!bytes_eq(b"term", b"tern"));
    assert!(!bytes_eq(b"", b"x"));
}

#[test]
fn claim_slot_probes_from_home_and_wraps() {
    let mut table = new_table(4);
    assert_eq!(table, vec![0, 0, 0, 0]);
    claim_slot(&mut table, 3, 1);
    assert_eq!(table, vec![0, 0, 0, 1]);
    claim_slot(&mut table, 7, 2);
    assert_eq!(table, vec![2, 0, 0, 1]);
    claim_slot(&mut table, 3, 3);
    assert_eq!(table, vec![2, 3, 0, 1]);
}

#[test]
fn recorder_starts_unopened() {
    let arena = Arena::new();
    let recorder = Recorder::new(RecorderKind::DocFrequency);
    assert_eq!(recorder.kind(), RecorderKind::DocFrequency);
    assert_eq!(recorder.current_doc(), None);
    assert_eq!(recorder.term_doc_freq(), 0);
    assert!(recorder.postings(&arena).is_empty());
}

#[test]
fn recorder_with_positions_keeps_every_position() {
    let mut arena = Arena::new();
    let mut recorder = Recorder::new(RecorderKind::DocFrequencyAndPosition);
    recorder.new_doc(3, &mut arena);
    assert_eq!(recorder.current_doc(), Some(3));
    recorder.record_position(10, &mut arena);
    recorder.record_position(4, &mut arena);
    recorder.record_position(10, &mut arena);
    recorder.close_doc(&mut arena);
    assert_eq!(recorder.current_doc(), None);
    assert_eq!(recorder.term_doc_freq(), 1);
    recorder.new_doc(8, &mut arena);
    recorder.record_position(0, &mut arena);
    assert_eq!(recorder.term_doc_freq(), 1);
    let postings = recorder.postings(&arena);
    assert_eq!(postings.len(), 2);
    assert_eq!(postings[0].doc, 3);
    assert_eq!(postings[0].term_freq, 3);
    assert_eq!(postings[0].positions, vec![10, 4, 10]);
    assert_eq!(postings[1].doc, 8);
    assert_eq!(postings[1].term_freq, 1);
    assert_eq!(postings[1].positions, vec![0]);
}

#[test]
fn recorder_with_frequency_counts_and_discards_positions() {
    let mut arena = Arena::new();
    let mut recorder = Recorder::new(RecorderKind::DocFrequency);
    recorder.new_doc(1, &mut arena);
    recorder.record_position(5, &mut arena);
    recorder.record_position(6, &mut arena);
    assert_eq!(arena.len(), 0);
    recorder.close_doc(&mut arena);
    let postings = recorder.postings(&arena);
    assert_eq!(postings.len(), 1);
    assert_eq!(postings[0].doc, 1);
    assert_eq!(postings[0].term_freq, 2);
    assert!(postings[0].positions.is_empty());
}

#[test]
fn recorder_doc_only_keeps_the_document_alone() {
    let mut arena = Arena::new();
    let mut recorder = Recorder::new(RecorderKind::DocOnly);
    recorder.new_doc(1, &mut arena);
    recorder.record_position(5, &mut arena);
    recorder.close_doc(&mut arena);
    recorder.new_doc(2, &mut arena);
    recorder.record_position(7, &mut arena);
    let postings = recorder.postings(&arena);
    assert_eq!(postings.len(), 2);
    assert_eq!((postings[0].doc, postings[0].term_freq), (1, 0));
    assert_eq!((postings[1].doc, postings[1].term_freq), (2, 0));
    assert!(postings[0].positions.is_empty());
    assert!(postings[1].positions.is_empty());
}

#[test]
fn recorder_is_stored_in_thirty_bytes_and_read_back() {
    let mut arena = Arena::new();
    arena.allocate(5);
    let mut recorder = Recorder::new(RecorderKind::DocFrequencyAndPosition);
    recorder.new_doc(9, &mut arena);
    recorder.record_position(1, &mut arena);
    recorder.close_doc(&mut arena);
    recorder.new_doc(11, &mut arena);
    recorder.record_position(2, &mut arena);
    let bytes = recorder.to_bytes();
    assert_eq!(bytes.len(), RECORDER_SIZE);
    assert_eq!(RECORDER_SIZE, 30);
    assert_eq!(&bytes[0..2], &[2, 1]);
    assert_eq!(&bytes[2..6], &[11, 0, 0, 0]);
    let copy = Recorder::from_bytes(&bytes);
    assert_eq!(copy.to_bytes(), bytes);
    assert_eq!(copy.kind(), RecorderKind::DocFrequencyAndPosition);
    assert_eq!(copy.current_doc(), Some(11));
    assert_eq!(copy.term_doc_freq(), 1);
    let postings = copy.postings(&arena);
    assert_eq!(postings.len(), 2);
    assert_eq!(postings[1].positions, vec![2]);
    let closed = Recorder::new(RecorderKind::DocOnly);
    let copy = Recorder::from_bytes(&closed.to_bytes());
    assert_eq!(copy.kind(), RecorderKind::DocOnly);
    assert_eq!(copy.current_doc(), None);
}

#[test]
fn read_positions_follows_the_chain_backwards() {
    let mut arena = Arena::new();
    let mut recorder = Recorder::new(RecorderKind::DocFrequencyAndPosition);
    recorder.new_doc(0, &mut arena);
    for pos in 0..100u32 {
        recorder.record_position(pos * 3, &mut arena);
    }
    assert_eq!(arena.len(), 1200);
    let tail = arena.len() - 12;
    let expected: Vec<u32> = (0..100u32).map(|p| p * 3).collect();
    assert_eq!(read_positions(&arena, tail, 100), expected);
    assert_eq!(read_positions(&arena, tail, 2), vec![294, 297]);
    assert!(read_positions(&arena, tail, 0).is_empty());
}

#[test]
fn update_opens_closes_and_records() {
    let mut arena = Arena::new();
    let kind = RecorderKind::DocFrequencyAndPosition;
    let first = RecorderUpdate { kind, doc: 1, position: 4 }.apply(None, &mut arena);
    assert_eq!(first.current_doc(), Some(1));
    assert_eq!(first.term_doc_freq(), 0);
    let same = RecorderUpdate { kind, doc: 1, position: 6 }.apply(Some(first), &mut arena);
    assert_eq!(same.current_doc(), Some(1));
    assert_eq!(same.term_doc_freq(), 0);
    let next = RecorderUpdate { kind, doc: 2, position: 0 }.apply(Some(same), &mut arena);
    assert_eq!(next.current_doc(), Some(2));
    assert_eq!(next.term_doc_freq(), 1);
    let postings = next.postings(&arena);
    assert_eq!(postings.len(), 2);
    assert_eq!(postings[0].positions, vec![4, 6]);
    assert_eq!(postings[1].positions, vec![0]);
}
