use postings::arena::Arena;
use postings::field_writer::{IndexingContext, IndexingPosition, SpecializedPostingsWriter, Token};
use postings::model::DroppedToken;
use postings::per_field::PerFieldPostingsWriter;
use postings::posting::RecorderKind;
use postings::serializer::{
    ordinal_mapping, serialize_field, serialize_postings, DocIdMapping, FieldType,
};

#[test]
fn keys_are_sorted_as_byte_strings() {
    let mut ctx = IndexingContext::new();
    let mut writer = SpecializedPostingsWriter::new(RecorderKind::DocOnly);
    let keys: Vec<&[u8]> = vec![b"b", b"ab", b"", b"a", b"\xff", b"a\x00", b"B", b"abc"];
    for key in keys.iter() {
        writer.subscribe(0, 0, key, &mut ctx);
    }
    let offsets = writer.sorted_term_offsets(&ctx);
    let sorted: Vec<&[u8]> = offsets.iter().map(|e| e.0).collect();
    let expected: Vec<&[u8]> = vec![b"", b"B", b"a", b"a\x00", b"ab", b"abc", b"b", b"\xff"];
    assert_eq!(sorted, expected);
    let ids: Vec<u64> = offsets.iter().map(|e| e.2).collect();
    assert_eq!(ids, vec![2, 6, 3, 5, 1, 7, 0, 4]);
    for w in sorted.windows(2) {
        assert!(w[0] < w[1]);
    }
}

#[test]
fn ordinal_mapping_gives_each_identifier_its_place() {
    let arena = Arena::new();
    let empty = arena.slice(0, 0);
    let offsets: Vec<(&[u8], usize, u64)> = vec![(empty, 0, 2), (empty, 0, 0), (empty, 0, 1)];
    let mapping = ordinal_mapping(&offsets);
    assert_eq!(mapping.len(), 3);
    assert_eq!(mapping[&2], 0);
    assert_eq!(mapping[&0], 1);
    assert_eq!(mapping[&1], 2);
    assert!(ordinal_mapping(&[]).is_empty());
}

#[test]
fn the_mapping_is_a_bijection_onto_the_ordinals() {
    let mut ctx = IndexingContext::new();
    let mut writer = SpecializedPostingsWriter::new(RecorderKind::DocFrequency);
    let n: u64 = 777;
    for i in 0..n {
        let key = format!("{:05}", (i * 389) % n);
        assert_eq!(writer.subscribe(0, 0, key.as_bytes(), &mut ctx), i);
    }
    let (field, mapping) = serialize_field(&writer, 3, FieldType::Facet, None, &ctx);
    let mapping = match mapping {
        Some(m) => m,
        None => panic!("a facet field has a mapping"),
    };
    assert_eq!(field.field, 3);
    assert_eq!(field.total_num_tokens, n);
    assert_eq!(field.terms.len() as u64, n);
    assert_eq!(mapping.len() as u64, n);
    let mut taken = vec![false; n as usize];
    for id in 0..n {
        let ord = mapping[&id];
        assert!(ord < n);
        assert!(!taken[ord as usize]);
        taken[ord as usize] = true;
        assert_eq!(ord, (id * 389) % n);
        assert_eq!(field.terms[ord as usize].term, format!("{:05}", ord).into_bytes());
    }
    for pair in field.terms.windows(2) {
        assert!(pair[0].term < pair[1].term);
    }
}

#[test]
fn only_string_like_fields_get_a_mapping() {
    let ctx = IndexingContext::new();
    let writer = SpecializedPostingsWriter::new(RecorderKind::DocOnly);
    let with = [FieldType::Str, FieldType::Facet];
    let without = [
        FieldType::U64,
        FieldType::I64,
        FieldType::F64,
        FieldType::Date,
        FieldType::Bytes,
        FieldType::JsonObject,
    ];
    for t in with.iter() {
        assert!(t.has_term_dictionary());
        assert!(serialize_field(&writer, 0, *t, None, &ctx).1.is_some());
    }
    for t in without.iter() {
        assert!(!t.has_term_dictionary());
        assert!(serialize_field(&writer, 0, *t, None, &ctx).1.is_none());
    }
}

#[test]
fn documents_are_renumbered_one_by_one() {
    let mut ctx = IndexingContext::new();
    let mut writer = SpecializedPostingsWriter::new(RecorderKind::DocFrequencyAndPosition);
    writer.subscribe(0, 5, b"t", &mut ctx);
    writer.subscribe(1, 6, b"t", &mut ctx);
    writer.subscribe(1, 7, b"t", &mut ctx);
    writer.subscribe(4, 8, b"t", &mut ctx);
    let map = DocIdMapping { new_doc_ids: vec![2, 0, 1] };
    assert_eq!(map.get_new_doc_id(0), 2);
    assert_eq!(map.get_new_doc_id(2), 1);
    assert_eq!(map.get_new_doc_id(3), 3);
    assert_eq!(map.get_new_doc_id(u32::MAX), u32::MAX);
    let offsets = writer.sorted_term_offsets(&ctx);
    let terms = writer.serialize(&offsets, Some(&map), &ctx);
    let docs: Vec<u32> = terms[0].postings.iter().map(|p| p.doc).collect();
    assert_eq!(docs, vec![2, 0, 4]);
    assert_eq!(terms[0].doc_freq, 3);
    assert_eq!(terms[0].postings[1].term_freq, 2);
    assert_eq!(terms[0].postings[1].positions, vec![6, 7]);
    let plain = writer.serialize(&offsets, None, &ctx);
    let docs: Vec<u32> = plain[0].postings.iter().map(|p| p.doc).collect();
    assert_eq!(docs, vec![0, 1, 4]);
}

#[test]
fn serialize_one_term_reads_the_recorder_at_the_address() {
    let mut ctx = IndexingContext::new();
    let mut writer = SpecializedPostingsWriter::new(RecorderKind::DocFrequency);
    writer.subscribe(3, 0, b"one", &mut ctx);
    writer.subscribe(3, 1, b"two", &mut ctx);
    writer.subscribe(3, 2, b"two", &mut ctx);
    let entries = writer.term_map().iter(&ctx.arena_terms);
    let out = SpecializedPostingsWriter::serialize_one_term(
        entries[1].0,
        entries[1].1,
        None,
        &ctx,
        writer.term_map(),
    );
    assert_eq!(out.term, b"two".to_vec());
    assert_eq!(out.doc_freq, 1);
    assert_eq!(out.postings.len(), 1);
    assert_eq!(out.postings[0].doc, 3);
    assert_eq!(out.postings[0].term_freq, 2);
    assert!(out.postings[0].positions.is_empty());
}

#[test]
fn serialize_keeps_the_order_it_is_given() {
    let mut ctx = IndexingContext::new();
    let mut writer = SpecializedPostingsWriter::new(RecorderKind::DocOnly);
    writer.subscribe(0, 0, b"m", &mut ctx);
    writer.subscribe(0, 0, b"c", &mut ctx);
    writer.subscribe(0, 0, b"x", &mut ctx);
    let entries = writer.term_map().iter(&ctx.arena_terms);
    let picked = vec![entries[2], entries[0]];
    let out = writer.serialize(&picked, None, &ctx);
    assert_eq!(out.len(), 2);
    assert_eq!(out[0].term, b"x".to_vec());
    assert_eq!(out[1].term, b"m".to_vec());
    assert!(writer.serialize(&[], None, &ctx).is_empty());
}

#[test]
fn every_field_is_handed_out_in_the_order_of_the_schema() {
    let mut ctx = IndexingContext::new();
    let kinds = [
        RecorderKind::DocFrequencyAndPosition,
        RecorderKind::DocOnly,
        RecorderKind::DocFrequency,
    ];
    let mut writers = PerFieldPostingsWriter::for_kinds(&kinds);
    for doc in 0..20u32 {
        for pos in 0..5u32 {
            let word = format!("w{}", (doc + pos) % 6);
            let id = writers.subscribe(0, doc, pos, word.as_bytes(), &mut ctx);
            assert_eq!(id, ((doc + pos) % 6) as u64);
            writers.subscribe(2, doc, pos, b"same", &mut ctx);
        }
        writers.subscribe(1, doc, 0, &doc.to_be_bytes(), &mut ctx);
    }
    let schema = [FieldType::Str, FieldType::U64, FieldType::Facet];
    let out = serialize_postings(&ctx, &writers, None, &schema);
    assert_eq!(out.fields.len(), 3);
    for (f, field) in out.fields.iter().enumerate() {
        assert_eq!(field.field, f as u32);
    }
    assert_eq!(out.fields[0].total_num_tokens, 100);
    assert_eq!(out.fields[1].total_num_tokens, 20);
    assert_eq!(out.fields[2].total_num_tokens, 100);
    assert_eq!(out.fields[0].terms.len(), 6);
    assert_eq!(out.fields[1].terms.len(), 20);
    assert_eq!(out.fields[2].terms.len(), 1);
    assert_eq!(out.unordered_term_mappings.len(), 2);
    assert!(out.unordered_term_mappings.contains_key(&0));
    assert!(!out.unordered_term_mappings.contains_key(&1));
    assert_eq!(out.unordered_term_mappings[&2].len(), 1);
    assert_eq!(out.unordered_term_mappings[&2][&0], 0);
    for (ord, term) in out.fields[0].terms.iter().enumerate() {
        assert_eq!(term.term, format!("w{}", ord).into_bytes());
        assert_eq!(out.unordered_term_mappings[&0][&(ord as u64)], ord as u64);
        for posting in term.postings.iter() {
            assert_eq!(posting.term_freq as usize, posting.positions.len());
            for pos in posting.positions.iter() {
                assert_eq!((posting.doc + pos) % 6, ord as u32);
            }
        }
    }
    for (doc, term) in out.fields[1].terms.iter().enumerate() {
        assert_eq!(term.term, (doc as u32).to_be_bytes().to_vec());
        assert_eq!(term.doc_freq, 1);
        assert_eq!(term.postings[0].doc, doc as u32);
        assert_eq!(term.postings[0].term_freq, 0);
    }
    let same = &out.fields[2].terms[0];
    assert_eq!(same.doc_freq, 20);
    for (doc, posting) in same.postings.iter().enumerate() {
        assert_eq!(posting.doc, doc as u32);
        assert_eq!(posting.term_freq, 5);
        assert!(posting.positions.is_empty());
    }
}

#[test]
fn a_shorter_schema_leaves_the_last_writers_out() {
    let mut ctx = IndexingContext::new();
    let mut writers =
        PerFieldPostingsWriter::for_kinds(&[RecorderKind::DocOnly, RecorderKind::DocOnly]);
    writers.subscribe(1, 0, 0, b"k", &mut ctx);
    let out = serialize_postings(&ctx, &writers, None, &[FieldType::Str]);
    assert_eq!(out.fields.len(), 1);
    assert!(out.fields[0].terms.is_empty());
    assert!(out.unordered_term_mappings[&0].is_empty());
    let none = serialize_postings(&ctx, &writers, None, &[]);
    assert!(none.fields.is_empty());
    assert!(none.unordered_term_mappings.is_empty());
}

#[test]
fn fields_index_text_side_by_side() {
    let mut ctx = IndexingContext::new();
    let mut writers = PerFieldPostingsWriter::for_kinds(&[
        RecorderKind::DocFrequencyAndPosition,
        RecorderKind::DocFrequencyAndPosition,
    ]);
    assert_eq!(writers.get_for_field(1).kind(), RecorderKind::DocFrequencyAndPosition);
    let mut drops: Vec<DroppedToken> = Vec::new();
    for doc in 0..10u32 {
        for field in 0..2u32 {
            let mut term_buffer = vec![field as u8];
            let mut position = IndexingPosition::default();
            let mut ids: Vec<u64> = Vec::new();
            let tokens: Vec<Token> = (0..4u32)
                .map(|i| Token {
                    text: format!("{}", (doc + i + field) % 3).into_bytes(),
                    position: i,
                    position_length: 1,
                })
                .collect();
            writers.index_text(
                field,
                doc,
                &tokens,
                &mut term_buffer,
                &mut ctx,
                &mut position,
                Some(&mut ids),
                &mut drops,
            );
            assert_eq!(ids.len(), 4);
            assert_eq!(position.num_tokens, 4);
            assert_eq!(position.end_position, 5);
        }
    }
    assert!(drops.is_empty());
    let out = serialize_postings(&ctx, &writers, None, &[FieldType::Str, FieldType::Str]);
    for field in 0..2usize {
        assert_eq!(out.fields[field].total_num_tokens, 40);
        assert_eq!(out.fields[field].terms.len(), 3);
        let mut occurrences = 0;
        for (ord, term) in out.fields[field].terms.iter().enumerate() {
            assert_eq!(term.term, vec![field as u8, b'0' + ord as u8]);
            assert_eq!(term.doc_freq, 10);
            for (doc, posting) in term.postings.iter().enumerate() {
                assert_eq!(posting.doc, doc as u32);
                occurrences += posting.positions.len();
                for pos in posting.positions.iter() {
                    assert_eq!((doc as u32 + pos + field as u32) % 3, ord as u32);
                }
            }
        }
        assert_eq!(occurrences, 40);
    }
}
