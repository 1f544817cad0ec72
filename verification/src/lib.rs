//! In-memory construction of one segment's inverted index.
//!
//! Terms are accumulated per field in an arena-backed hash map; every term
//! owns a recorder that tracks the documents, term frequencies and positions
//! seen so far. Once all documents are ingested, each field is handed out in
//! sorted term order together with the mapping from insertion-order term
//! identifiers to sorted term ordinals.
pub mod arena;
pub mod posting;
pub mod recorder;
pub mod hash_index;
pub mod term_map;
pub mod model;
pub mod field_writer;
pub mod order;
pub mod per_field;
pub mod term_sort;
pub mod serializer;
pub mod laws;
