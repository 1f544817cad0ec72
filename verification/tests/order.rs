use postings::order::key_le;
use postings::term_sort::sort_by_term;

#[test]
fn key_le_is_the_order_of_byte_slices() {
    let keys: Vec<&[u8]> = vec![
        b"", b"\x00", b"\x00\x00", b"a", b"a\x00", b"aa", b"ab", b"abc", b"b", b"\xfe", b"\xff",
        b"\xff\x00",
    ];
    for a in keys.iter() {
        for b in keys.iter() {
            assert_eq!(key_le(a, b), a <= b);
        }
    }
    assert!(key_le(b"same", b"same"));
    assert!(key_le(b"ant", b"cat"));
    assert!(!key_le(b"dog", b"cat"));
    assert!(key_le(b"do", b"dog"));
    assert!(!key_le(b"dog", b"do"));
}

#[test]
fn sort_by_term_orders_by_key_and_keeps_the_triples() {
    let keys: Vec<Vec<u8>> =
        (0..1000u32).map(|i| format!("{}", (i * 7919) % 1000).into_bytes()).collect();
    let entries: Vec<(&[u8], usize, u64)> =
        keys.iter().enumerate().map(|(i, k)| (k.as_slice(), i * 3, i as u64)).collect();
    let sorted = sort_by_term(&entries);
    let mut expected = entries.clone();
    expected.sort();
    assert_eq!(sorted, expected);
    for pair in sorted.windows(2) {
        assert!(pair[0].0 < pair[1].0);
    }
    for entry in sorted.iter() {
        assert_eq!(entry.1, entry.2 as usize * 3);
        assert_eq!(entry.0, keys[entry.2 as usize].as_slice());
    }
}

#[test]
fn sort_by_term_of_short_lists() {
    let none: Vec<(&[u8], usize, u64)> = Vec::new();
    assert!(sort_by_term(&none).is_empty());
    let one: Vec<(&[u8], usize, u64)> = vec![(b"k", 5, 0)];
    assert_eq!(sort_by_term(&one), one);
    let two: Vec<(&[u8], usize, u64)> = vec![(b"z", 1, 0), (b"a", 2, 1)];
    assert_eq!(sort_by_term(&two), vec![(&b"a"[..], 2, 1), (&b"z"[..], 1, 0)]);
    let same: Vec<(&[u8], usize, u64)> = vec![(b"k", 1, 0), (b"k", 2, 1), (b"a", 3, 2)];
    let sorted = sort_by_term(&same);
    assert_eq!(sorted[0], (&b"a"[..], 3, 2));
    assert_eq!(sorted[1].0, b"k");
    assert_eq!(sorted[2].0, b"k");
    assert_eq!(sorted[1].1 + sorted[2].1, 3);
}
