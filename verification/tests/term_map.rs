use postings::arena::Arena;
use postings::posting::RecorderKind;
use postings::recorder::RecorderUpdate;
use postings::term_map::TermMap;

fn update(doc: u32, position: u32) -> RecorderUpdate {
    RecorderUpdate { kind: RecorderKind::DocFrequencyAndPosition, doc, position }
}

#[test]
fn identifiers_are_dense_in_first_seen_order() {
    let mut keys = Arena::new();
    let mut arena = Arena::new();
    let mut map = TermMap::new();
    assert_eq!(map.len(), 0);
    assert_eq!(map.mutate_or_create(b"b", &mut keys, update(0, 0), &mut arena), 0);
    assert_eq!(map.mutate_or_create(b"a", &mut keys, update(0, 1), &mut arena), 1);
    assert_eq!(map.mutate_or_create(b"b", &mut keys, update(0, 2), &mut arena), 0);
    assert_eq!(map.mutate_or_create(b"", &mut keys, update(0, 3), &mut arena), 2);
    assert_eq!(map.mutate_or_create(b"a", &mut keys, update(1, 0), &mut arena), 1);
    assert_eq!(map.len(), 3);
}

#[test]
fn iter_lists_keys_with_the_place_of_their_recorders() {
    let mut keys = Arena::new();
    let mut arena = Arena::new();
    let mut map = TermMap::new();
    map.mutate_or_create(b"zebra", &mut keys, update(0, 0), &mut arena);
    map.mutate_or_create(b"ant", &mut keys, update(0, 1), &mut arena);
    let entries = map.iter(&keys);
    assert_eq!(entries.len(), 2);
    assert_eq!(entries[0], (&b"zebra"[..], 13, 0));
    assert_eq!(entries[1], (&b"ant"[..], 13 + 30 + 8 + 3, 1));
    assert_eq!(keys.len(), 43 + 41);
    assert_eq!(keys.read_addr(0), 5);
    assert_eq!(keys.read_addr(43), 3);
}

#[test]
fn an_existing_recorder_is_updated_where_it_is() {
    let mut keys = Arena::new();
    let mut arena = Arena::new();
    let mut map = TermMap::new();
    map.mutate_or_create(b"k", &mut keys, update(4, 1), &mut arena);
    let len = keys.len();
    let addr = map.iter(&keys)[0].1;
    assert_eq!(map.read(addr, &keys).current_doc(), Some(4));
    map.mutate_or_create(b"k", &mut keys, update(6, 2), &mut arena);
    assert_eq!(keys.len(), len);
    assert_eq!(map.iter(&keys)[0].1, addr);
    let recorder = map.read(addr, &keys);
    assert_eq!(recorder.current_doc(), Some(6));
    assert_eq!(recorder.term_doc_freq(), 1);
    let postings = recorder.postings(&arena);
    assert_eq!(postings[0].doc, 4);
    assert_eq!(postings[0].positions, vec![1]);
    assert_eq!(postings[1].doc, 6);
    assert_eq!(postings[1].positions, vec![2]);
}

#[test]
fn mem_usage_counts_the_bytes_of_the_buckets() {
    let mut keys = Arena::new();
    let mut arena = Arena::new();
    let mut map = TermMap::new();
    assert_eq!(map.mem_usage(&keys), 0);
    map.mutate_or_create(b"four", &mut keys, update(0, 0), &mut arena);
    assert_eq!(map.mem_usage(&keys), 42);
    map.mutate_or_create(b"", &mut keys, update(0, 0), &mut arena);
    assert_eq!(map.mem_usage(&keys), 80);
    map.mutate_or_create(b"four", &mut keys, update(1, 0), &mut arena);
    assert_eq!(map.mem_usage(&keys), 80);
    assert_eq!(keys.len(), 80);
}

#[test]
fn many_keys_survive_the_growth_of_the_table() {
    let mut keys = Arena::new();
    let mut arena = Arena::new();
    let mut map = TermMap::new();
    for i in 0..5000u32 {
        let key = format!("key-{}", (i * 7919) % 5000);
        let id = map.mutate_or_create(key.as_bytes(), &mut keys, update(0, i), &mut arena);
        assert_eq!(id, i as u64);
    }
    assert_eq!(map.len(), 5000);
    for i in 0..5000u32 {
        let key = format!("key-{}", (i * 7919) % 5000);
        let id = map.mutate_or_create(key.as_bytes(), &mut keys, update(1, i), &mut arena);
        assert_eq!(id, i as u64);
    }
    assert_eq!(map.len(), 5000);
    let entries = map.iter(&keys);
    for (i, entry) in entries.iter().enumerate() {
        let key = format!("key-{}", (i as u32 * 7919) % 5000);
        assert_eq!(entry.0, key.as_bytes());
        assert_eq!(entry.2, i as u64);
        let postings = map.read(entry.1, &keys).postings(&arena);
        assert_eq!(postings.len(), 2);
        assert_eq!(postings[0].positions, vec![i as u32]);
        assert_eq!(postings[1].doc, 1);
    }
}

#[test]
fn two_maps_share_one_arena() {
    let mut keys = Arena::new();
    let mut arena = Arena::new();
    let mut left = TermMap::new();
    let mut right = TermMap::new();
    for i in 0..200u32 {
        let key = format!("t{}", i % 50);
        left.mutate_or_create(key.as_bytes(), &mut keys, update(i / 50, i), &mut arena);
        right.mutate_or_create(key.as_bytes(), &mut keys, update(i, 0), &mut arena);
    }
    assert_eq!(left.len(), 50);
    assert_eq!(right.len(), 50);
    for entry in left.iter(&keys) {
        let postings = left.read(entry.1, &keys).postings(&arena);
        assert_eq!(postings.len(), 4);
        assert_eq!(postings[3].doc, 3);
        assert_eq!(postings[3].positions, vec![150 + entry.2 as u32]);
    }
    for entry in right.iter(&keys) {
        let postings = right.read(entry.1, &keys).postings(&arena);
        assert_eq!(postings.len(), 4);
        assert_eq!(postings[0].doc, entry.2 as u32);
        assert_eq!(postings[3].doc, entry.2 as u32 + 150);
    }
}
