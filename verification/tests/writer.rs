use postings::field_writer::{
    IndexingContext, IndexingPosition, SpecializedPostingsWriter, Token, MAX_TOKEN_LEN,
};
use postings::model::{DroppedToken, POSITION_GAP};
use postings::posting::RecorderKind;

fn tok(text: &[u8], position: u32, position_length: u32) -> Token {
    Token { text: text.to_vec(), position, position_length }
}

fn doc_freq(writer: &SpecializedPostingsWriter, ctx: &IndexingContext, term: &[u8]) -> usize {
    let offsets = writer.sorted_term_offsets(ctx);
    let terms = writer.serialize(&offsets, None, ctx);
    for t in terms.iter() {
        if t.term == term {
            assert_eq!(t.doc_freq as usize, t.postings.len());
            return t.postings.len();
        }
    }
    0
}

#[test]
fn a_new_writer_has_recorded_nothing() {
    let ctx = IndexingContext::new();
    let writer = SpecializedPostingsWriter::new(RecorderKind::DocOnly);
    assert_eq!(writer.kind(), RecorderKind::DocOnly);
    assert_eq!(writer.max_token_len(), MAX_TOKEN_LEN);
    assert_eq!(MAX_TOKEN_LEN, 65530);
    assert_eq!(writer.total_num_tokens(), 0);
    assert_eq!(writer.term_map().len(), 0);
    assert_eq!(writer.mem_usage(&ctx), 0);
    assert_eq!(ctx.mem_usage(), 0);
    assert!(writer.sorted_term_offsets(&ctx).is_empty());
}

#[test]
fn doc_freq_is_the_number_of_distinct_documents() {
    let mut ctx = IndexingContext::new();
    let mut writer = SpecializedPostingsWriter::new(RecorderKind::DocFrequency);
    let docs = [1u32, 1, 2, 5, 5, 5, 9];
    for (i, doc) in docs.iter().enumerate() {
        writer.subscribe(*doc, i as u32, b"term", &mut ctx);
        if i % 2 == 0 {
            writer.subscribe(*doc, i as u32, b"even", &mut ctx);
        }
    }
    assert_eq!(doc_freq(&writer, &ctx, b"term"), 4);
    assert_eq!(doc_freq(&writer, &ctx, b"even"), 4);
    assert_eq!(doc_freq(&writer, &ctx, b"none"), 0);
    writer.subscribe(9, 0, b"last", &mut ctx);
    assert_eq!(doc_freq(&writer, &ctx, b"last"), 1);
    assert_eq!(doc_freq(&writer, &ctx, b"term"), 4);
}

#[test]
fn total_num_tokens_counts_the_calls() {
    let mut ctx = IndexingContext::new();
    let mut writer = SpecializedPostingsWriter::new(RecorderKind::DocOnly);
    for n in 0..250u64 {
        assert_eq!(writer.total_num_tokens(), n);
        let key = [(n % 7) as u8];
        writer.subscribe((n / 10) as u32, n as u32, &key, &mut ctx);
    }
    assert_eq!(writer.total_num_tokens(), 250);
    assert_eq!(writer.term_map().len(), 7);
}

#[test]
fn subscribe_returns_the_identifier_of_the_term() {
    let mut ctx = IndexingContext::new();
    let mut writer = SpecializedPostingsWriter::new(RecorderKind::DocFrequencyAndPosition);
    assert_eq!(writer.subscribe(0, 0, b"x", &mut ctx), 0);
    assert_eq!(writer.subscribe(0, 1, b"y", &mut ctx), 1);
    assert_eq!(writer.subscribe(0, 2, b"x", &mut ctx), 0);
    assert_eq!(writer.subscribe(3, 0, b"y", &mut ctx), 1);
    assert_eq!(writer.subscribe(3, 1, b"z", &mut ctx), 2);
}

#[test]
fn postings_hold_frequencies_and_positions() {
    let mut ctx = IndexingContext::new();
    let mut writer = SpecializedPostingsWriter::new(RecorderKind::DocFrequencyAndPosition);
    writer.subscribe(2, 7, b"t", &mut ctx);
    writer.subscribe(2, 9, b"t", &mut ctx);
    writer.subscribe(4, 1, b"t", &mut ctx);
    let offsets = writer.sorted_term_offsets(&ctx);
    let terms = writer.serialize(&offsets, None, &ctx);
    assert_eq!(terms.len(), 1);
    assert_eq!(terms[0].term, b"t".to_vec());
    assert_eq!(terms[0].doc_freq, 2);
    assert_eq!(terms[0].postings[0].doc, 2);
    assert_eq!(terms[0].postings[0].term_freq, 2);
    assert_eq!(terms[0].postings[0].positions, vec![7, 9]);
    assert_eq!(terms[0].postings[1].doc, 4);
    assert_eq!(terms[0].postings[1].term_freq, 1);
    assert_eq!(terms[0].postings[1].positions, vec![1]);
}

#[test]
fn mem_usage_grows_with_new_terms_only() {
    let mut ctx = IndexingContext::new();
    let mut writer = SpecializedPostingsWriter::new(RecorderKind::DocFrequencyAndPosition);
    writer.subscribe(0, 0, b"abc", &mut ctx);
    assert_eq!(writer.mem_usage(&ctx), 41);
    writer.subscribe(0, 1, b"abc", &mut ctx);
    assert_eq!(writer.mem_usage(&ctx), 41);
    assert_eq!(ctx.arena_terms.len(), 41);
    assert_eq!(ctx.arena.len(), 24);
    assert_eq!(ctx.mem_usage(), 65);
}

#[test]
fn index_text_records_under_the_prefix_and_restores_the_buffer() {
    let mut ctx = IndexingContext::new();
    let mut writer = SpecializedPostingsWriter::new(RecorderKind::DocFrequencyAndPosition);
    let mut term_buffer = b"f/".to_vec();
    let mut position = IndexingPosition { num_tokens: 10, end_position: 100 };
    let mut ids: Vec<u64> = vec![42];
    let mut drops: Vec<DroppedToken> = Vec::new();
    let tokens = vec![tok(b"b", 0, 1), tok(b"a", 1, 1), tok(b"b", 2, 3)];
    writer.index_text(
        1,
        &tokens,
        &mut term_buffer,
        &mut ctx,
        &mut position,
        Some(&mut ids),
        &mut drops,
    );
    assert_eq!(term_buffer, b"f/".to_vec());
    assert_eq!(ids, vec![42, 0, 1, 0]);
    assert!(drops.is_empty());
    assert_eq!(position.num_tokens, 13);
    assert_eq!(position.end_position, 100 + 2 + 3 + POSITION_GAP);
    assert_eq!(writer.total_num_tokens(), 3);
    let offsets = writer.sorted_term_offsets(&ctx);
    let terms = writer.serialize(&offsets, None, &ctx);
    assert_eq!(terms[0].term, b"f/a".to_vec());
    assert_eq!(terms[0].postings[0].positions, vec![101]);
    assert_eq!(terms[1].term, b"f/b".to_vec());
    assert_eq!(terms[1].postings[0].positions, vec![100, 102]);
}

#[test]
fn index_text_without_tokens_leaves_one_gap() {
    let mut ctx = IndexingContext::new();
    let mut writer = SpecializedPostingsWriter::new(RecorderKind::DocOnly);
    let mut term_buffer: Vec<u8> = Vec::new();
    let mut position = IndexingPosition { num_tokens: 2, end_position: 40 };
    let mut drops: Vec<DroppedToken> = Vec::new();
    writer.index_text(0, &[], &mut term_buffer, &mut ctx, &mut position, None, &mut drops);
    assert_eq!(position.end_position, 1);
    assert_eq!(position.num_tokens, 2);
    assert_eq!(writer.total_num_tokens(), 0);
    assert_eq!(POSITION_GAP, 1);
}

#[test]
fn a_token_of_the_maximum_length_is_kept_and_one_byte_more_is_dropped() {
    let mut ctx = IndexingContext::new();
    let mut writer = SpecializedPostingsWriter::new(RecorderKind::DocFrequency);
    let mut term_buffer: Vec<u8> = Vec::new();
    let mut position = IndexingPosition::default();
    let mut ids: Vec<u64> = Vec::new();
    let mut drops: Vec<DroppedToken> = Vec::new();
    let tokens = vec![
        tok(&vec![b'a'; MAX_TOKEN_LEN + 1], 0, 1),
        tok(&vec![b'a'; MAX_TOKEN_LEN], 1, 1),
        tok(b"", 2, 1),
    ];
    writer.index_text(
        0,
        &tokens,
        &mut term_buffer,
        &mut ctx,
        &mut position,
        Some(&mut ids),
        &mut drops,
    );
    assert_eq!(drops, vec![DroppedToken { len: MAX_TOKEN_LEN + 1, max_len: MAX_TOKEN_LEN }]);
    assert_eq!(ids, vec![0, 1]);
    assert_eq!(writer.term_map().len(), 2);
    assert_eq!(writer.total_num_tokens(), 2);
    assert_eq!(position.num_tokens, 2);
    assert_eq!(position.end_position, 4);
}

#[test]
fn only_dropped_tokens_leave_the_term_map_empty() {
    let mut ctx = IndexingContext::new();
    let mut writer = SpecializedPostingsWriter::with_max_token_len(RecorderKind::DocOnly, 0);
    let mut term_buffer = b"p".to_vec();
    let mut position = IndexingPosition::default();
    let mut ids: Vec<u64> = Vec::new();
    let mut drops: Vec<DroppedToken> = Vec::new();
    let tokens = vec![tok(b"x", 0, 1), tok(b"yy", 1, 1)];
    writer.index_text(
        0,
        &tokens,
        &mut term_buffer,
        &mut ctx,
        &mut position,
        Some(&mut ids),
        &mut drops,
    );
    assert_eq!(writer.term_map().len(), 0);
    assert_eq!(writer.total_num_tokens(), 0);
    assert!(ids.is_empty());
    assert_eq!(
        drops,
        vec![DroppedToken { len: 1, max_len: 0 }, DroppedToken { len: 2, max_len: 0 }]
    );
    assert_eq!(ctx.arena_terms.len(), 0);
    assert_eq!(position.num_tokens, 0);
    assert_eq!(position.end_position, 1);
    assert_eq!(term_buffer, b"p".to_vec());
}

#[test]
fn positions_of_a_second_value_lie_behind_the_first() {
    let mut ctx = IndexingContext::new();
    let mut writer = SpecializedPostingsWriter::new(RecorderKind::DocFrequencyAndPosition);
    let mut term_buffer: Vec<u8> = Vec::new();
    let mut position = IndexingPosition::default();
    let mut drops: Vec<DroppedToken> = Vec::new();
    let first = vec![tok(b"w", 0, 1), tok(b"w", 1, 1), tok(b"w", 2, 1)];
    writer.index_text(0, &first, &mut term_buffer, &mut ctx, &mut position, None, &mut drops);
    let first_end = position.end_position - POSITION_GAP;
    assert_eq!(first_end, 3);
    let second = vec![tok(b"w", 1, 1), tok(b"w", 2, 1)];
    writer.index_text(0, &second, &mut term_buffer, &mut ctx, &mut position, None, &mut drops);
    let offsets = writer.sorted_term_offsets(&ctx);
    let terms = writer.serialize(&offsets, None, &ctx);
    let positions = &terms[0].postings[0].positions;
    assert_eq!(positions, &vec![0, 1, 2, 5, 6]);
    for p in positions[3..].iter() {
        assert!(*p > first_end + 1);
    }
    assert_eq!(position.end_position, 8);
    assert_eq!(position.num_tokens, 5);
}
