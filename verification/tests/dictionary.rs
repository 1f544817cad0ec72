use postings::field_writer::{IndexingContext, IndexingPosition, SpecializedPostingsWriter, Token};
use postings::model::DroppedToken;
use postings::per_field::PerFieldPostingsWriter;
use postings::posting::RecorderKind;
use postings::serializer::{serialize_postings, FieldType};

fn token(text: &str, position: u32) -> Token {
    Token { text: text.as_bytes().to_vec(), position, position_length: 1 }
}

#[test]
fn terms_come_out_sorted_with_their_ordinals() {
    let mut ctx = IndexingContext::new();
    let mut writers = PerFieldPostingsWriter::for_kinds(&[RecorderKind::DocFrequencyAndPosition]);
    assert_eq!(writers.subscribe(0, 0, 0, b"dog", &mut ctx), 0);
    assert_eq!(writers.subscribe(0, 0, 1, b"cat", &mut ctx), 1);
    assert_eq!(writers.subscribe(0, 0, 2, b"ant", &mut ctx), 2);
    let out = serialize_postings(&ctx, &writers, None, &[FieldType::Str]);
    assert_eq!(out.fields.len(), 1);
    let terms: Vec<&[u8]> = out.fields[0].terms.iter().map(|t| t.term.as_slice()).collect();
    assert_eq!(terms, vec![&b"ant"[..], &b"cat"[..], &b"dog"[..]]);
    let mapping = &out.unordered_term_mappings[&0];
    assert_eq!(mapping.len(), 3);
    assert_eq!(mapping[&0], 2);
    assert_eq!(mapping[&1], 1);
    assert_eq!(mapping[&2], 0);
}

#[test]
fn oversized_token_is_dropped() {
    let mut ctx = IndexingContext::new();
    let mut writer = SpecializedPostingsWriter::with_max_token_len(RecorderKind::DocFrequency, 5);
    let mut term_buffer: Vec<u8> = Vec::new();
    let mut position = IndexingPosition::default();
    let mut ids: Vec<u64> = Vec::new();
    let mut drops: Vec<DroppedToken> = Vec::new();
    let tokens = vec![token("hello", 0), token("worldwide", 1)];
    writer.index_text(
        0,
        &tokens,
        &mut term_buffer,
        &mut ctx,
        &mut position,
        Some(&mut ids),
        &mut drops,
    );
    assert_eq!(writer.total_num_tokens(), 1);
    assert_eq!(writer.term_map().len(), 1);
    assert_eq!(ids, vec![0]);
    assert_eq!(drops, vec![DroppedToken { len: 9, max_len: 5 }]);
    assert_eq!(position.num_tokens, 1);
    assert!(term_buffer.is_empty());
}

#[test]
fn second_value_starts_one_gap_behind_the_first() {
    let mut ctx = IndexingContext::new();
    let mut writer = SpecializedPostingsWriter::new(RecorderKind::DocFrequencyAndPosition);
    let mut term_buffer: Vec<u8> = Vec::new();
    let mut position = IndexingPosition::default();
    let mut drops: Vec<DroppedToken> = Vec::new();
    let first = vec![
        Token { text: b"a".to_vec(), position: 0, position_length: 0 },
        Token { text: b"b".to_vec(), position: 1, position_length: 0 },
        Token { text: b"c".to_vec(), position: 2, position_length: 0 },
    ];
    writer.index_text(7, &first, &mut term_buffer, &mut ctx, &mut position, None, &mut drops);
    assert_eq!(position.end_position, 3);
    assert_eq!(position.num_tokens, 3);
    let second = vec![Token { text: b"d".to_vec(), position: 0, position_length: 1 }];
    writer.index_text(7, &second, &mut term_buffer, &mut ctx, &mut position, None, &mut drops);
    assert_eq!(position.end_position, 5);
    assert_eq!(position.num_tokens, 4);
    let offsets = writer.sorted_term_offsets(&ctx);
    let terms = writer.serialize(&offsets, None, &ctx);
    assert_eq!(terms[3].term, b"d".to_vec());
    assert_eq!(terms[3].postings[0].doc, 7);
    assert_eq!(terms[3].postings[0].positions, vec![3]);
}
