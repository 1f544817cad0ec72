//! Handing out what the writers recorded: each field's terms in sorted order
//! with their postings, and the mapping from insertion-order term identifiers
//! to sorted term ordinals.
use crate::arena::Addr;
use crate::field_writer::{IndexingContext, SpecializedPostingsWriter};
use crate::model::{TermState, WriterState};
use crate::order::{lex_le, lex_lt};
use crate::per_field::{Field, PerFieldPostingsWriter};
use crate::posting::{postings_of, DocId, DocPosting, Posting};
use crate::recorder::{Recorder, RECORDER_SIZE};
use crate::term_map::{TermMap, UnorderedTermId};
use crate::term_sort::sort_by_term;
use fnv::FnvHashMap;
use std::collections::HashMap;
use vstd::prelude::*;

verus! {

/// Rank of a term among the sorted terms of its field.
pub type TermOrdinal = u64;

/// A renumbering of the documents: document `old` becomes
/// `new_doc_ids[old]`, and a document beyond the table keeps its identifier.
pub struct DocIdMapping {
    pub new_doc_ids: Vec<DocId>,
}

impl View for DocIdMapping {
    type V = Seq<DocId>;

    open spec fn view(&self) -> Seq<DocId> {
        self.new_doc_ids@
    }
}

/// The identifier that `doc` has after the renumbering, if there is one.
pub open spec fn new_doc_id(map: Option<Seq<DocId>>, doc: DocId) -> DocId {
    match map {
        Some(table) => if doc < table.len() {
            table[doc as int]
        } else {
            doc
        },
        None => doc,
    }
}

/// The postings with every document renumbered, in the same order.
pub open spec fn remap_postings(map: Option<Seq<DocId>>, postings: Seq<Posting>) -> Seq<Posting> {
    Seq::new(
        postings.len(),
        |i: int|
            Posting {
                doc: new_doc_id(map, postings[i].doc),
                term_freq: postings[i].term_freq,
                positions: postings[i].positions,
            },
    )
}

/// The renumbering behind an optional `DocIdMapping`.
pub open spec fn mapping_view(doc_id_map: Option<&DocIdMapping>) -> Option<Seq<DocId>> {
    match doc_id_map {
        Some(m) => Some(m@),
        None => None,
    }
}

impl DocIdMapping {
    pub fn get_new_doc_id(&self, doc: DocId) -> (new_doc: DocId)
        ensures
            new_doc == new_doc_id(Some(self@), doc),
    {
        if (doc as usize) < self.new_doc_ids.len() {
            self.new_doc_ids[doc as usize]
        } else {
            doc
        }
    }
}

/// One term of a field as handed to a serializer: the key, the number of
/// documents that hold the term, and these documents in the order in which
/// they were recorded.
#[derive(Debug)]
pub struct TermPostings {
    pub term: Vec<u8>,
    pub doc_freq: u32,
    pub postings: Vec<DocPosting>,
}

pub ghost struct TermPostingsView {
    pub term: Seq<u8>,
    pub doc_freq: u32,
    pub postings: Seq<Posting>,
}

impl View for TermPostings {
    type V = TermPostingsView;

    open spec fn view(&self) -> TermPostingsView {
        TermPostingsView {
            term: self.term@,
            doc_freq: self.doc_freq,
            postings: postings_of(self.postings@),
        }
    }
}

/// What is handed out for a term: every document recorded for it, the open
/// one included, renumbered by `map`.
pub open spec fn term_postings_of(term: TermState, map: Option<Seq<DocId>>) -> TermPostingsView {
    TermPostingsView {
        term: term.key,
        doc_freq: term.recorder.postings().len() as u32,
        postings: remap_postings(map, term.recorder.postings()),
    }
}

/// The terms behind a vector of `TermPostings`.
pub open spec fn terms_of(v: Seq<TermPostings>) -> Seq<TermPostingsView> {
    Seq::new(v.len(), |i: int| v[i]@)
}

impl SpecializedPostingsWriter {
    /// The recorder stored at `addr` can be handed out: it lies inside the
    /// arenas, and the number of its documents fits in `u32`.
    pub open spec fn can_serialize_at(addr: Addr, ctx: IndexingContext) -> bool {
        &&& addr + RECORDER_SIZE <= ctx.arena_terms@.len()
        &&& Self::recorder_at(addr, ctx).wf(ctx.arena@)
        &&& Self::recorder_at(addr, ctx).state(ctx.arena@).postings().len() <= u32::MAX
    }

    /// The recorder stored at `addr`.
    pub open spec fn recorder_at(addr: Addr, ctx: IndexingContext) -> Recorder {
        Recorder::decode(ctx.arena_terms@.subrange(addr as int, addr + RECORDER_SIZE))
    }

    /// Reads the recorder stored at `addr` and hands out `term` with every
    /// document recorded for it, renumbered by `doc_id_map` where one is given.
    pub fn serialize_one_term(
        term: &[u8],
        addr: Addr,
        doc_id_map: Option<&DocIdMapping>,
        ctx: &IndexingContext,
        term_index: &TermMap,
    ) -> (out: TermPostings)
        requires
            Self::can_serialize_at(addr, *ctx),
        ensures
            out@ == term_postings_of(
                TermState { key: term@, recorder: Self::recorder_at(addr, *ctx).state(ctx.arena@) },
                mapping_view(doc_id_map),
            ),
    {
        let recorder = term_index.read(addr, &ctx.arena_terms);
        let mut postings = recorder.postings(&ctx.arena);
        let ghost recorded = recorder.state(ctx.arena@).postings();
        assert(postings@.len() == recorded.len()) by {
            assert(postings_of(postings@).len() == postings@.len());
        }
        match doc_id_map {
            Some(map) => {
                let mut i: usize = 0;
                while i < postings.len()
                    invariant
                        i <= postings@.len(),
                        postings@.len() == recorded.len(),
                        forall|j: int|
                            0 <= j < i ==> (#[trigger] postings@[j])@ == remap_postings(
                                Some(map@),
                                recorded,
                            )[j],
                        forall|j: int|
                            i <= j < postings@.len() ==> (#[trigger] postings@[j])@ == recorded[j],
                    decreases postings@.len() - i,
                {
                    let new_doc: DocId = map.get_new_doc_id(postings[i].doc);
                    postings[i].doc = new_doc;
                    i = i + 1;
                }
            },
            None => {
                assert forall|j: int| 0 <= j < postings@.len() implies (#[trigger] postings@[j])@
                    == recorded[j] by {
                    assert(postings_of(postings@)[j] == postings@[j]@);
                }
            },
        }
        assert(postings_of(postings@) == remap_postings(mapping_view(doc_id_map), recorded));
        let mut key: Vec<u8> = Vec::new();
        crate::arena::extend_bytes(&mut key, term);
        TermPostings { term: key, doc_freq: postings.len() as u32, postings }
    }
}

/// `fnv::FnvHasher`, the hasher of an `FnvHashMap`. Nothing is said of it
/// here: the type is only named so that the map's type can be written.
#[verifier::external_type_specification]
#[verifier::external_body]
pub struct ExFnvHasher(fnv::FnvHasher);

/// `std::hash::BuildHasherDefault`, the third parameter of an `FnvHashMap`.
/// Nothing is said of it here either.
#[verifier::external_type_specification]
#[verifier::external_body]
#[verifier::reject_recursive_types(H)]
pub struct ExBuildHasherDefault<H>(std::hash::BuildHasherDefault<H>);

/// Calls `HashMap::insert` of std on an `fnv::FnvHashMap`, which hashes its
/// keys with `fnv::FnvHasher`. The contract is taken on trust: afterwards the
/// map holds `ordinal` under `id` and is otherwise unchanged. It rests on the
/// hasher giving equal keys equal hashes, which fnv's does: every hasher
/// starts from the same basis and folds the key's bytes in, nothing else.
#[verifier::external_body]
fn insert_ordinal(
    mapping: &mut FnvHashMap<UnorderedTermId, TermOrdinal>,
    id: UnorderedTermId,
    ordinal: TermOrdinal,
)
    ensures
        final(mapping)@ == old(mapping)@.insert(id, ordinal),
{
    mapping.insert(id, ordinal);
}

/// Two sequences with the same multiset hold the same elements.
proof fn lemma_same_elements<A>(a: Seq<A>, b: Seq<A>, x: A)
    requires
        a.to_multiset() == b.to_multiset(),
        a.contains(x),
    ensures
        b.contains(x),
{
    a.to_multiset_ensures();
    b.to_multiset_ensures();
    assert(a.to_multiset().count(x) > 0);
}

/// The identifiers of a list of term offsets.
pub open spec fn ids_of(v: Seq<(&[u8], Addr, UnorderedTermId)>) -> Seq<UnorderedTermId> {
    Seq::new(v.len(), |i: int| v[i].2)
}

/// The mapping that gives each identifier its place in `ids`.
pub open spec fn ordinal_map_of(ids: Seq<UnorderedTermId>) -> Map<UnorderedTermId, TermOrdinal>
    decreases ids.len(),
{
    if ids.len() == 0 {
        Map::empty()
    } else {
        ordinal_map_of(ids.drop_last()).insert(ids.last(), (ids.len() - 1) as u64)
    }
}

/// Where no identifier occurs twice, the mapping holds exactly the
/// identifiers of `ids`, each with its place.
pub proof fn lemma_ordinal_map_of(ids: Seq<UnorderedTermId>)
    requires
        ids.no_duplicates(),
        ids.len() <= u64::MAX,
    ensures
        forall|r: int|
            0 <= r < ids.len() ==> ordinal_map_of(ids).contains_key(#[trigger] ids[r])
                && ordinal_map_of(ids)[ids[r]] == r,
        forall|id: UnorderedTermId| #[trigger]
            ordinal_map_of(ids).contains_key(id) ==> ids.contains(id),
    decreases ids.len(),
{
    if ids.len() > 0 {
        let front = ids.drop_last();
        lemma_ordinal_map_of(front);
        assert forall|r: int| 0 <= r < ids.len() implies ordinal_map_of(ids).contains_key(
            #[trigger] ids[r],
        ) && ordinal_map_of(ids)[ids[r]] == r by {
            if r < ids.len() - 1 {
                assert(front[r] == ids[r]);
                assert(ids[r] != ids.last());
            }
        }
        assert forall|id: UnorderedTermId| #[trigger]
            ordinal_map_of(ids).contains_key(id) implies ids.contains(id) by {
            if id == ids.last() {
                assert(ids[ids.len() - 1] == id);
            } else {
                assert(front.contains(id));
                let r = choose|r: int| 0 <= r < front.len() && front[r] == id;
                assert(ids[r] == id);
            }
        }
    }
}

/// The mapping from each identifier in `term_offsets` to its place there.
pub fn ordinal_mapping(term_offsets: &[(&[u8], Addr, UnorderedTermId)]) -> (mapping: FnvHashMap<
    UnorderedTermId,
    TermOrdinal,
>)
    ensures
        mapping@ == ordinal_map_of(ids_of(term_offsets@)),
{
    let mut mapping: FnvHashMap<UnorderedTermId, TermOrdinal> = FnvHashMap::default();
    let ghost ids = ids_of(term_offsets@);
    let mut ord: usize = 0;
    while ord < term_offsets.len()
        invariant
            ord <= term_offsets@.len(),
            ids == ids_of(term_offsets@),
            mapping@ == ordinal_map_of(ids.take(ord as int)),
        decreases term_offsets@.len() - ord,
    {
        proof {
            assert(ids.take(ord + 1).drop_last() == ids.take(ord as int));
            assert(ids.take(ord + 1).last() == term_offsets@[ord as int].2);
        }
        insert_ordinal(&mut mapping, term_offsets[ord].2, ord as u64);
        ord = ord + 1;
    }
    assert(ids.take(term_offsets@.len() as int) == ids);
    mapping
}

/// Every term of `st` as it is handed out, in the order of the identifiers.
pub open spec fn all_terms(st: WriterState, map: Option<Seq<DocId>>) -> Seq<TermPostingsView> {
    Seq::new(st.terms.len(), |id: int| term_postings_of(st.terms[id], map))
}

/// `out` holds the terms of `st`, each once, in strictly ascending order of
/// their keys.
pub open spec fn is_sorted_terms(
    st: WriterState,
    map: Option<Seq<DocId>>,
    out: Seq<TermPostingsView>,
) -> bool {
    &&& out.len() == st.terms.len()
    &&& forall|r: int, s: int|
        0 <= r < s < out.len() ==> lex_lt((#[trigger] out[r]).term, (#[trigger] out[s]).term)
    &&& forall|id: int|
        0 <= id < st.terms.len() ==> out.contains(#[trigger] all_terms(st, map)[id])
    &&& forall|r: int| 0 <= r < out.len() ==> all_terms(st, map).contains(#[trigger] out[r])
}

/// `mapping` takes the identifier of every term of `st` to the term's place
/// in `out`, and every place in `out` is taken.
pub open spec fn is_ordinal_mapping(
    st: WriterState,
    out: Seq<TermPostingsView>,
    mapping: Map<UnorderedTermId, TermOrdinal>,
) -> bool {
    &&& out.len() == st.terms.len()
    &&& forall|id: UnorderedTermId| #[trigger] mapping.contains_key(id) <==> id < st.terms.len()
    &&& forall|id: UnorderedTermId|
        id < st.terms.len() ==> (#[trigger] mapping[id]) < out.len() && out[mapping[id] as int].term
            == st.terms[id as int].key
    &&& forall|r: TermOrdinal| r < out.len() ==> #[trigger] mapping.contains_value(r)
}

impl SpecializedPostingsWriter {
    /// The triple names a term of the writer: its key, the place of its
    /// recorder and its identifier.
    pub open spec fn is_term_offset(
        &self,
        ctx: IndexingContext,
        entry: (&[u8], Addr, UnorderedTermId),
    ) -> bool {
        &&& entry.2 < self.spec_term_map().spec_len()
        &&& entry.0@ == self.spec_term_map().key(ctx.arena_terms@, entry.2 as int)
        &&& entry.1 == self.spec_term_map().payload_addr(ctx.arena_terms@, entry.2 as int)
    }

    /// The writer's terms in strictly ascending order of their keys.
    pub fn sorted_term_offsets<'a>(&self, ctx: &'a IndexingContext) -> (v: Vec<
        (&'a [u8], Addr, UnorderedTermId),
    >)
        requires
            self.wf(*ctx),
        ensures
            v@.len() == self.spec_term_map().spec_len(),
            forall|r: int| 0 <= r < v@.len() ==> self.is_term_offset(*ctx, #[trigger] v@[r]),
            forall|r: int, s: int|
                0 <= r < s < v@.len() ==> lex_lt((#[trigger] v@[r]).0@, (#[trigger] v@[s]).0@),
            forall|id: UnorderedTermId| id < v@.len() ==> #[trigger] ids_of(v@).contains(id),
            ids_of(v@).no_duplicates(),
    {
        let ghost tm = self.spec_term_map();
        let ghost at = ctx.arena_terms@;
        proof {
            self.lemma_map_wf(*ctx);
        }
        let unsorted = self.term_map().iter(&ctx.arena_terms);
        let ghost before = unsorted@;
        let v = sort_by_term(unsorted.as_slice());
        proof {
            let after = v@;
            before.to_multiset_ensures();
            after.to_multiset_ensures();
            assert(before.no_duplicates()) by {
                assert forall|i: int, j: int|
                    0 <= i < before.len() && 0 <= j < before.len() && i != j implies before[i]
                    != before[j] by {
                    assert(before[i].2 == i && before[j].2 == j);
                }
            }
            before.lemma_multiset_has_no_duplicates();
            after.lemma_multiset_has_no_duplicates_conv();
            assert forall|r: int| 0 <= r < after.len() implies self.is_term_offset(
                *ctx,
                #[trigger] after[r],
            ) by {
                assert(after.contains(after[r]));
                lemma_same_elements(after, before, after[r]);
                let i = choose|i: int| 0 <= i < before.len() && before[i] == after[r];
                assert(before[i].2 == i);
            }
            assert forall|id: UnorderedTermId| id < after.len() implies #[trigger] ids_of(
                after,
            ).contains(id) by {
                assert(before.contains(before[id as int]));
                lemma_same_elements(before, after, before[id as int]);
                let r = choose|r: int| 0 <= r < after.len() && after[r] == before[id as int];
                assert(ids_of(after)[r] == id);
            }
            assert forall|r: int, s: int| 0 <= r < s < after.len() implies lex_lt(
                (#[trigger] after[r]).0@,
                (#[trigger] after[s]).0@,
            ) by {
                assert(lex_le(after[r].0@, after[s].0@));
                if after[r].0@ == after[s].0@ {
                    assert(self.is_term_offset(*ctx, after[r]));
                    assert(self.is_term_offset(*ctx, after[s]));
                    tm.lemma_keys_distinct(at, after[r].2 as int, after[s].2 as int);
                    assert(after[r].1 == after[s].1);
                    assert(after.contains(after[r]));
                    lemma_same_elements(after, before, after[r]);
                    let i = choose|i: int| 0 <= i < before.len() && before[i] == after[r];
                    assert(after.contains(after[s]));
                    lemma_same_elements(after, before, after[s]);
                    let j = choose|j: int| 0 <= j < before.len() && before[j] == after[s];
                    assert(before[i].2 == i && before[j].2 == j);
                    assert(i == j);
                    assert(after[r] == after[s]);
                }
            }
            assert(ids_of(after).no_duplicates()) by {
                assert forall|r: int, s: int|
                    0 <= r < after.len() && 0 <= s < after.len() && r != s implies ids_of(after)[r]
                    != ids_of(after)[s] by {
                    if after[r].2 == after[s].2 {
                        assert(self.is_term_offset(*ctx, after[r]));
                        assert(self.is_term_offset(*ctx, after[s]));
                        if r < s {
                            assert(lex_lt(after[r].0@, after[s].0@));
                        } else {
                            assert(lex_lt(after[s].0@, after[r].0@));
                        }
                    }
                }
            }
        }
        v
    }

    /// Hands out the terms named by `term_addrs`, in that order, each with
    /// every document recorded for it.
    pub fn serialize(
        &self,
        term_addrs: &[(&[u8], Addr, UnorderedTermId)],
        doc_id_map: Option<&DocIdMapping>,
        ctx: &IndexingContext,
    ) -> (out: Vec<TermPostings>)
        requires
            self.wf(*ctx),
            forall|k: int|
                0 <= k < term_addrs@.len() ==> self.is_term_offset(*ctx, #[trigger] term_addrs@[k]),
        ensures
            out@.len() == term_addrs@.len(),
            forall|k: int|
                0 <= k < out@.len() ==> (#[trigger] out@[k])@ == all_terms(
                    self.state(*ctx),
                    mapping_view(doc_id_map),
                )[term_addrs@[k].2 as int],
    {
        let mut out: Vec<TermPostings> = Vec::new();
        let mut k: usize = 0;
        while k < term_addrs.len()
            invariant
                self.wf(*ctx),
                forall|k: int|
                    0 <= k < term_addrs@.len() ==> self.is_term_offset(
                        *ctx,
                        #[trigger] term_addrs@[k],
                    ),
                k <= term_addrs@.len(),
                out@.len() == k,
                forall|j: int|
                    0 <= j < k ==> (#[trigger] out@[j])@ == all_terms(
                        self.state(*ctx),
                        mapping_view(doc_id_map),
                    )[term_addrs@[j].2 as int],
            decreases term_addrs@.len() - k,
        {
            let term: &[u8] = term_addrs[k].0;
            let addr: Addr = term_addrs[k].1;
            proof {
                let id = term_addrs@[k as int].2 as int;
                assert(self.is_term_offset(*ctx, term_addrs@[k as int]));
                self.lemma_term_at(*ctx, id);
                self.spec_term_map().lemma_payload_in_bounds(ctx.arena_terms@, id);
                self.spec_term_map().lemma_recorder_at(ctx.arena_terms@, id);
            }
            let one = Self::serialize_one_term(term, addr, doc_id_map, ctx, self.term_map());
            out.push(one);
            k = k + 1;
        }
        out
    }
}

/// The type of a field's values.
#[derive(Clone, Copy, Debug, PartialEq, Eq, Structural)]
pub enum FieldType {
    Str,
    Facet,
    U64,
    I64,
    F64,
    Date,
    Bytes,
    JsonObject,
}

impl FieldType {
    /// Text and facets: the fields whose terms form a dictionary, with ordinals.
    pub open spec fn is_string_like(self) -> bool {
        self == FieldType::Str || self == FieldType::Facet
    }

    #[verifier::when_used_as_spec(is_string_like)]
    pub fn has_term_dictionary(self) -> (b: bool)
        ensures
            b == self.is_string_like(),
    {
        match self {
            FieldType::Str | FieldType::Facet => true,
            FieldType::U64 | FieldType::I64 | FieldType::F64 | FieldType::Date => false,
            FieldType::Bytes => false,
            FieldType::JsonObject => false,
        }
    }
}

/// One field as handed to a serializer: the number of occurrences recorded
/// for it, and its terms in sorted order.
#[derive(Debug)]
pub struct FieldPostings {
    pub field: Field,
    pub total_num_tokens: u64,
    pub terms: Vec<TermPostings>,
}

/// What `serialize_postings` hands out: every field of the schema, in the
/// schema's order, and for each string-like field the mapping from term
/// identifiers to term ordinals.
pub struct SerializedPostings {
    pub fields: Vec<FieldPostings>,
    pub unordered_term_mappings: HashMap<Field, FnvHashMap<UnorderedTermId, TermOrdinal>>,
}

/// `out` is the field `field` as `st` recorded it.
pub open spec fn is_field_postings(
    st: WriterState,
    map: Option<Seq<DocId>>,
    field: Field,
    out: FieldPostings,
) -> bool {
    &&& out.field == field
    &&& out.total_num_tokens == st.total_num_tokens
    &&& is_sorted_terms(st, map, terms_of(out.terms@))
}

/// Hands out one field: its terms sorted by key, each with every document
/// recorded for it, and, for a string-like field, the mapping from the
/// identifier of each term to its place among the sorted terms.
pub fn serialize_field(
    writer: &SpecializedPostingsWriter,
    field: Field,
    field_type: FieldType,
    doc_id_map: Option<&DocIdMapping>,
    ctx: &IndexingContext,
) -> (out: (FieldPostings, Option<FnvHashMap<UnorderedTermId, TermOrdinal>>))
    requires
        writer.wf(*ctx),
    ensures
        is_field_postings(writer.state(*ctx), mapping_view(doc_id_map), field, out.0),
        out.1 is Some == field_type.is_string_like(),
        match out.1 {
            Some(mapping) => is_ordinal_mapping(writer.state(*ctx), terms_of(out.0.terms@), mapping@),
            None => true,
        },
{
    let ghost st = writer.state(*ctx);
    let ghost map = mapping_view(doc_id_map);
    let term_offsets = writer.sorted_term_offsets(ctx);
    let mapping = if field_type.has_term_dictionary() {
        Some(ordinal_mapping(term_offsets.as_slice()))
    } else {
        None
    };
    let terms = writer.serialize(term_offsets.as_slice(), doc_id_map, ctx);
    let total_num_tokens: u64 = writer.total_num_tokens();
    let ghost built = mapping;
    proof {
        let out = terms_of(terms@);
        let ids = ids_of(term_offsets@);
        let n = term_offsets@.len();
        writer.lemma_state_wf(*ctx);
        assert forall|r: int| 0 <= r < n implies (#[trigger] out[r]) == all_terms(
            st,
            map,
        )[term_offsets@[r].2 as int] && out[r].term == term_offsets@[r].0@ by {
            assert(writer.is_term_offset(*ctx, term_offsets@[r]));
            writer.lemma_term_at(*ctx, term_offsets@[r].2 as int);
            assert(out[r] == terms@[r]@);
        }
        assert forall|r: int, s: int| 0 <= r < s < out.len() implies lex_lt(
            (#[trigger] out[r]).term,
            (#[trigger] out[s]).term,
        ) by {
            assert(lex_lt(term_offsets@[r].0@, term_offsets@[s].0@));
        }
        assert forall|id: int| 0 <= id < st.terms.len() implies out.contains(
            #[trigger] all_terms(st, map)[id],
        ) by {
            assert(ids.contains(id as u64));
            let r = choose|r: int| 0 <= r < ids.len() && ids[r] == id as u64;
            assert(out[r] == all_terms(st, map)[id]);
        }
        assert forall|r: int| 0 <= r < out.len() implies all_terms(st, map).contains(
            #[trigger] out[r],
        ) by {
            assert(writer.is_term_offset(*ctx, term_offsets@[r]));
            assert(all_terms(st, map)[term_offsets@[r].2 as int] == out[r]);
        }
        match built {
            Some(m) => {
                lemma_ordinal_map_of(ids);
                assert forall|id: UnorderedTermId| #[trigger] m@.contains_key(id) <==> id
                    < st.terms.len() by {
                    if m@.contains_key(id) {
                        let r = choose|r: int| 0 <= r < ids.len() && ids[r] == id;
                        assert(writer.is_term_offset(*ctx, term_offsets@[r]));
                    }
                    if id < st.terms.len() {
                        assert(ids.contains(id));
                        let r = choose|r: int| 0 <= r < ids.len() && ids[r] == id;
                        assert(m@.contains_key(ids[r]));
                    }
                }
                assert forall|id: UnorderedTermId| id < st.terms.len() implies (#[trigger] m@[id])
                    < out.len() && out[m@[id] as int].term == st.terms[id as int].key by {
                    assert(ids.contains(id));
                    let r = choose|r: int| 0 <= r < ids.len() && ids[r] == id;
                    assert(m@.contains_key(ids[r]) && m@[ids[r]] == r);
                    assert(writer.is_term_offset(*ctx, term_offsets@[r]));
                    writer.lemma_term_at(*ctx, id as int);
                }
                assert forall|r: TermOrdinal| r < out.len() implies #[trigger] m@.contains_value(
                    r,
                ) by {
                    assert(m@.contains_key(ids[r as int]) && m@[ids[r as int]] == r);
                    assert(m@.dom().contains(ids[r as int]));
                }
            },
            None => {},
        }
    }
    (FieldPostings { field, total_num_tokens, terms }, mapping)
}

/// Hands out every field of `schema`, in the schema's order, as
/// `serialize_field` does, and collects the mappings of the string-like
/// fields under the fields' numbers.
pub fn serialize_postings(
    ctx: &IndexingContext,
    per_field_postings_writers: &PerFieldPostingsWriter,
    doc_id_map: Option<&DocIdMapping>,
    schema: &[FieldType],
) -> (out: SerializedPostings)
    requires
        per_field_postings_writers.wf(*ctx),
        schema@.len() <= per_field_postings_writers@.len(),
        schema@.len() <= u32::MAX,
    ensures
        out.fields@.len() == schema@.len(),
        forall|f: int|
            0 <= f < schema@.len() ==> is_field_postings(
                per_field_postings_writers@[f].state(*ctx),
                mapping_view(doc_id_map),
                f as Field,
                #[trigger] out.fields@[f],
            ),
        forall|f: Field| #[trigger]
            out.unordered_term_mappings@.contains_key(f) <==> f < schema@.len()
                && schema@[f as int].is_string_like(),
        forall|f: Field|
            f < schema@.len() && schema@[f as int].is_string_like() ==> is_ordinal_mapping(
                per_field_postings_writers@[f as int].state(*ctx),
                terms_of(out.fields@[f as int].terms@),
                (#[trigger] out.unordered_term_mappings@[f])@,
            ),
{
    let mut unordered_term_mappings: HashMap<Field, FnvHashMap<UnorderedTermId, TermOrdinal>> =
        HashMap::new();
    let mut fields: Vec<FieldPostings> = Vec::new();
    let mut i: usize = 0;
    while i < schema.len()
        invariant
            per_field_postings_writers.wf(*ctx),
            schema@.len() <= per_field_postings_writers@.len(),
            schema@.len() <= u32::MAX,
            i <= schema@.len(),
            fields@.len() == i,
            forall|f: int|
                0 <= f < i ==> is_field_postings(
                    per_field_postings_writers@[f].state(*ctx),
                    mapping_view(doc_id_map),
                    f as Field,
                    #[trigger] fields@[f],
                ),
            forall|f: Field| #[trigger]
                unordered_term_mappings@.contains_key(f) <==> f < i && schema@[f as int].is_string_like(),
            forall|f: Field|
                f < i && schema@[f as int].is_string_like() ==> is_ordinal_mapping(
                    per_field_postings_writers@[f as int].state(*ctx),
                    terms_of(fields@[f as int].terms@),
                    (#[trigger] unordered_term_mappings@[f])@,
                ),
        decreases schema@.len() - i,
    {
        let field: Field = i as u32;
        let postings_writer = per_field_postings_writers.get_for_field(field);
        let (field_postings, mapping) = serialize_field(
            postings_writer,
            field,
            schema[i],
            doc_id_map,
            ctx,
        );
        match mapping {
            Some(m) => {
                unordered_term_mappings.insert(field, m);
            },
            None => {},
        }
        fields.push(field_postings);
        i = i + 1;
    }
    SerializedPostings { fields, unordered_term_mappings }
}

} // verus!
