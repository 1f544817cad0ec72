//! What holds of every run of a postings writer.
use crate::field_writer::{IndexingContext, IndexingPosition, SpecializedPostingsWriter};
use crate::model::{IndexParams, IndexRun, TokenView, WriterState, POSITION_GAP};
use crate::posting::{DocId, RecorderKind, RecorderState};
use crate::serializer::{is_ordinal_mapping, is_sorted_terms, TermOrdinal, TermPostingsView};
use crate::term_map::UnorderedTermId;
use vstd::prelude::*;

verus! {

/// One call of `subscribe`.
pub ghost struct SubscribeCall {
    pub doc: DocId,
    pub position: u32,
    pub key: Seq<u8>,
}

/// The state that `calls`, made in their order, leave a writer in that was
/// in the state `start`.
pub open spec fn after_calls(start: WriterState, calls: Seq<SubscribeCall>) -> WriterState
    decreases calls.len(),
{
    if calls.len() == 0 {
        start
    } else {
        after_calls(start, calls.drop_last()).subscribe(
            calls.last().doc,
            calls.last().position,
            calls.last().key,
        )
    }
}

/// The documents that `calls` name together with `key`.
pub open spec fn docs_passed(calls: Seq<SubscribeCall>, key: Seq<u8>) -> Set<DocId> {
    Set::new(
        |d: DocId|
            exists|i: int| 0 <= i < calls.len() && (#[trigger] calls[i]).key == key && calls[i].doc == d,
    )
}

/// No call names a document smaller than that of an earlier call.
pub open spec fn docs_non_decreasing(calls: Seq<SubscribeCall>) -> bool {
    forall|i: int, j: int|
        0 <= i <= j < calls.len() ==> (#[trigger] calls[i]).doc <= (#[trigger] calls[j]).doc
}

/// What the calls with non-decreasing documents leave recorded for `key`:
/// as many documents as they named with it, the largest of them open.
proof fn lemma_recorded_after_calls(kind: RecorderKind, calls: Seq<SubscribeCall>, key: Seq<u8>)
    requires
        docs_non_decreasing(calls),
    ensures
        after_calls(WriterState::empty(kind), calls).distinct_keys(),
        after_calls(WriterState::empty(kind), calls).kind == kind,
        docs_passed(calls, key).finite(),
        after_calls(WriterState::empty(kind), calls).recorded(key).postings().len() == docs_passed(
            calls,
            key,
        ).len(),
        match after_calls(WriterState::empty(kind), calls).recorded(key).open {
            Some(p) => docs_passed(calls, key).contains(p.doc) && forall|d: DocId|
                docs_passed(calls, key).contains(d) ==> d <= p.doc,
            None => docs_passed(calls, key) == Set::<DocId>::empty() && after_calls(
                WriterState::empty(kind),
                calls,
            ).recorded(key).finalized.len() == 0,
        },
    decreases calls.len(),
{
    let start = WriterState::empty(kind);
    let docs = docs_passed(calls, key);
    if calls.len() == 0 {
        assert(docs =~= Set::<DocId>::empty());
        assert(!start.holds(key));
    } else {
        let front = calls.drop_last();
        let c = calls.last();
        assert forall|i: int, j: int| 0 <= i <= j < front.len() implies (#[trigger] front[i]).doc <= (
        #[trigger] front[j]).doc by {
            assert(calls[i].doc <= calls[j].doc);
        }
        lemma_recorded_after_calls(kind, front, key);
        let before = after_calls(start, front);
        let earlier = docs_passed(front, key);
        before.lemma_subscribe_recorded(c.doc, c.position, c.key, key);
        assert forall|d: DocId| earlier.contains(d) implies docs.contains(d) && d <= c.doc by {
            let i = choose|i: int|
                0 <= i < front.len() && (#[trigger] front[i]).key == key && front[i].doc == d;
            assert(calls[i].key == key && calls[i].doc == d);
            assert(calls[i].doc <= calls[calls.len() - 1].doc);
        }
        assert forall|d: DocId| docs.contains(d) implies earlier.contains(d) || (c.key == key && d
            == c.doc) by {
            let i = choose|i: int|
                0 <= i < calls.len() && (#[trigger] calls[i]).key == key && calls[i].doc == d;
            if i < front.len() {
                assert(front[i].key == key && front[i].doc == d);
            }
        }
        if c.key == key {
            assert(calls[calls.len() - 1].key == key);
            assert(docs.contains(c.doc));
            assert(docs =~= earlier.insert(c.doc));
        } else {
            assert(docs =~= earlier);
        }
    }
}

/// After calls of `subscribe` with non-decreasing documents, the number of
/// documents recorded for a term is the number of distinct documents that
/// the calls named with it.
pub proof fn lemma_doc_freq_counts_distinct_docs(
    kind: RecorderKind,
    calls: Seq<SubscribeCall>,
    key: Seq<u8>,
)
    requires
        docs_non_decreasing(calls),
    ensures
        docs_passed(calls, key).finite(),
        after_calls(WriterState::empty(kind), calls).doc_freq(key) == docs_passed(calls, key).len(),
{
    lemma_recorded_after_calls(kind, calls, key);
}

/// Every call of `subscribe` adds one to the number of recorded occurrences.
pub proof fn lemma_total_counts_calls(start: WriterState, calls: Seq<SubscribeCall>)
    ensures
        after_calls(start, calls).total_num_tokens == start.total_num_tokens + calls.len(),
    decreases calls.len(),
{
    if calls.len() > 0 {
        lemma_total_counts_calls(start, calls.drop_last());
    }
}

/// The tokens that `index_text` records: those not longer than the limit,
/// in their order.
pub open spec fn recorded_tokens(p: IndexParams, tokens: Seq<TokenView>) -> Seq<TokenView>
    decreases tokens.len(),
{
    if tokens.len() == 0 {
        tokens
    } else if IndexRun::is_dropped(p, tokens.last()) {
        recorded_tokens(p, tokens.drop_last())
    } else {
        recorded_tokens(p, tokens.drop_last()).push(tokens.last())
    }
}

/// A token longer than the limit leaves the term map as it was and sends no
/// identifier to the sink: it is noted as dropped, and that is all.
pub proof fn lemma_oversized_token_is_dropped(run: IndexRun, p: IndexParams, t: TokenView)
    requires
        t.text.len() > p.max_token_len,
    ensures
        run.step(p, t).writer == run.writer,
        run.step(p, t).term_ids == run.term_ids,
        run.step(p, t).num_tokens == run.num_tokens,
        run.step(p, t).end_position == run.end_position,
        run.step(p, t).dropped.len() == run.dropped.len() + 1,
{
}

/// Indexing a value comes to the same as indexing it without its oversized
/// tokens, but for the note of what was dropped.
pub proof fn lemma_oversized_tokens_leave_no_trace(
    start: IndexRun,
    p: IndexParams,
    tokens: Seq<TokenView>,
)
    ensures
        start.run(p, tokens).writer == start.run(p, recorded_tokens(p, tokens)).writer,
        start.run(p, tokens).term_ids == start.run(p, recorded_tokens(p, tokens)).term_ids,
        start.run(p, tokens).num_tokens == start.run(p, recorded_tokens(p, tokens)).num_tokens,
        start.run(p, tokens).end_position == start.run(p, recorded_tokens(p, tokens)).end_position,
        start.run(p, recorded_tokens(p, tokens)).dropped == start.dropped,
        start.run(p, tokens).num_tokens == start.num_tokens + recorded_tokens(p, tokens).len(),
    decreases tokens.len(),
{
    if tokens.len() > 0 {
        lemma_oversized_tokens_leave_no_trace(start, p, tokens.drop_last());
        if !IndexRun::is_dropped(p, tokens.last()) {
            let kept = recorded_tokens(p, tokens.drop_last());
            assert(kept.push(tokens.last()).drop_last() == kept);
        }
    }
}

/// Every recorded token adds one to the writer's count of occurrences.
pub proof fn lemma_index_text_counts_tokens(start: IndexRun, p: IndexParams, tokens: Seq<TokenView>)
    ensures
        start.run(p, tokens).writer.total_num_tokens - start.writer.total_num_tokens == start.run(
            p,
            tokens,
        ).num_tokens - start.num_tokens,
        start.run(p, tokens).term_ids.len() - start.term_ids.len() == start.run(
            p,
            tokens,
        ).num_tokens - start.num_tokens,
    decreases tokens.len(),
{
    if tokens.len() > 0 {
        lemma_index_text_counts_tokens(start, p, tokens.drop_last());
    }
}

/// A token of a field's second value is recorded one gap behind the end of
/// the first value plus its own position in the second; with a position
/// above zero that is more than one behind the end of the first value.
///
/// `first` is the run of `index_text` over the first value, which leaves
/// `first.end_position + POSITION_GAP` as the base of the second.
pub proof fn lemma_second_value_positions(
    first: IndexRun,
    second: IndexRun,
    p: IndexParams,
    t: TokenView,
)
    requires
        p.base == first.end_position + POSITION_GAP,
        t.text.len() <= p.max_token_len,
        t.position > 0,
        second.step_ok(p, t),
    ensures
        IndexRun::start_position(p, t) == first.end_position + POSITION_GAP + t.position,
        IndexRun::start_position(p, t) > first.end_position + 1,
        second.step(p, t).writer == second.writer.subscribe(
            p.doc,
            IndexRun::start_position(p, t) as u32,
            p.prefix + t.text,
        ),
        second.step(p, t).end_position == IndexRun::start_position(p, t) + t.position_length,
{
}

/// The mapping from term identifiers to term ordinals is one-to-one from
/// the identifiers `0..n` onto the ordinals `0..n`, where `n` is the number
/// of terms.
pub proof fn lemma_ordinal_mapping_is_bijection(
    st: WriterState,
    out: Seq<TermPostingsView>,
    mapping: Map<UnorderedTermId, TermOrdinal>,
)
    requires
        st.distinct_keys(),
        is_ordinal_mapping(st, out, mapping),
    ensures
        forall|id: UnorderedTermId| mapping.contains_key(id) <==> id < st.terms.len(),
        forall|id: UnorderedTermId| mapping.contains_key(id) ==> mapping[id] < st.terms.len(),
        forall|a: UnorderedTermId, b: UnorderedTermId|
            mapping.contains_key(a) && mapping.contains_key(b) && a != b ==> mapping[a]
                != mapping[b],
        forall|r: TermOrdinal| r < st.terms.len() ==> #[trigger] mapping.contains_value(r),
{
    assert forall|a: UnorderedTermId, b: UnorderedTermId|
        mapping.contains_key(a) && mapping.contains_key(b) && a != b implies mapping[a]
        != mapping[b] by {
        if mapping[a] == mapping[b] {
            assert(out[mapping[a] as int].term == st.terms[a as int].key);
            assert(out[mapping[b] as int].term == st.terms[b as int].key);
            if a < b {
                assert(st.terms[a as int].key != st.terms[b as int].key);
            } else {
                assert(st.terms[b as int].key != st.terms[a as int].key);
            }
        }
    }
}

/// Sorted terms are strictly ascending, so no key occurs twice among them.
pub proof fn lemma_sorted_terms_are_distinct(
    st: WriterState,
    map: Option<Seq<DocId>>,
    out: Seq<TermPostingsView>,
    r: int,
    s: int,
)
    requires
        is_sorted_terms(st, map, out),
        0 <= r < out.len(),
        0 <= s < out.len(),
        r != s,
    ensures
        out[r].term != out[s].term,
{
    if r < s {
        assert(crate::order::lex_lt(out[r].term, out[s].term));
    } else {
        assert(crate::order::lex_lt(out[s].term, out[r].term));
    }
    crate::order::lemma_lex_lt_irreflexive(out[r].term);
}

/// The recorder can take `n` more occurrences in `doc`.
pub open spec fn recorder_has_room(r: RecorderState, kind: RecorderKind, doc: DocId, n: nat) -> bool {
    match r.open {
        Some(p) => if p.doc == doc {
            kind.counts_occurrences() ==> p.term_freq + n <= u32::MAX
        } else {
            r.finalized.len() + 1 < u32::MAX
        },
        None => r.finalized.len() < u32::MAX,
    }
}

/// The writer can take `n` more occurrences in `doc`, whatever their terms.
pub open spec fn writer_has_room(st: WriterState, doc: DocId, n: nat) -> bool {
    &&& st.total_num_tokens + n <= u64::MAX
    &&& n <= u32::MAX
    &&& forall|i: int|
        0 <= i < st.terms.len() ==> recorder_has_room(
            (#[trigger] st.terms[i]).recorder,
            st.kind,
            doc,
            n,
        )
}

/// Every token that is not too long ends, gap included, inside the range of
/// positions.
pub open spec fn positions_fit(p: IndexParams, tokens: Seq<TokenView>) -> bool {
    forall|i: int|
        0 <= i < tokens.len() && !IndexRun::is_dropped(p, #[trigger] tokens[i]) ==> p.base
            + tokens[i].position + tokens[i].position_length + POSITION_GAP <= u32::MAX
}

/// Indexing tokens uses up no more room than one occurrence for each: a
/// writer with room for the tokens and `extra` more occurrences can take
/// every token in its turn and has room for `extra` more afterwards.
proof fn lemma_room_is_kept(
    st: WriterState,
    p: IndexParams,
    tokens: Seq<TokenView>,
    extra: nat,
)
    requires
        st.distinct_keys(),
        writer_has_room(st, p.doc, tokens.len() + extra),
        positions_fit(p, tokens),
    ensures
        IndexRun::start(st).run_ok(p, tokens),
        IndexRun::start(st).run(p, tokens).num_tokens <= tokens.len(),
        IndexRun::start(st).run(p, tokens).end_position + POSITION_GAP <= u32::MAX,
        IndexRun::start(st).run(p, tokens).writer.distinct_keys(),
        IndexRun::start(st).run(p, tokens).writer.kind == st.kind,
        IndexRun::start(st).run(p, tokens).writer.total_num_tokens <= st.total_num_tokens
            + tokens.len(),
        writer_has_room(
            WriterState {
                total_num_tokens: st.total_num_tokens + tokens.len(),
                ..IndexRun::start(st).run(p, tokens).writer
            },
            p.doc,
            extra,
        ),
    decreases tokens.len(),
{
    let start = IndexRun::start(st);
    if tokens.len() > 0 {
        let front = tokens.drop_last();
        let t = tokens.last();
        assert forall|i: int|
            0 <= i < front.len() && !IndexRun::is_dropped(p, #[trigger] front[i]) implies p.base
            + front[i].position + front[i].position_length + POSITION_GAP <= u32::MAX by {
            assert(front[i] == tokens[i]);
        }
        lemma_room_is_kept(st, p, front, extra + 1);
        let before = start.run(p, front);
        let w = before.writer;
        let roomy = WriterState { total_num_tokens: st.total_num_tokens + front.len(), ..w };
        if !IndexRun::is_dropped(p, t) {
            let key = p.prefix + t.text;
            let pos = IndexRun::start_position(p, t) as u32;
            assert(tokens[tokens.len() - 1] == t);
            w.lemma_subscribe_recorded(p.doc, pos, key, key);
            if w.holds(key) {
                let id = w.term_id(key);
                assert(recorder_has_room(roomy.terms[id].recorder, st.kind, p.doc, extra + 1));
            }
            let after = w.subscribe(p.doc, pos, key);
            let roomy_after = WriterState {
                total_num_tokens: st.total_num_tokens + tokens.len(),
                ..after
            };
            assert forall|i: int| 0 <= i < roomy_after.terms.len() implies recorder_has_room(
                (#[trigger] roomy_after.terms[i]).recorder,
                st.kind,
                p.doc,
                extra,
            ) by {
                if i < w.terms.len() {
                    assert(recorder_has_room(roomy.terms[i].recorder, st.kind, p.doc, extra + 1));
                }
            }
        } else {
            assert forall|i: int| 0 <= i < roomy.terms.len() implies recorder_has_room(
                (#[trigger] w.terms[i]).recorder,
                st.kind,
                p.doc,
                extra,
            ) by {
                assert(recorder_has_room(roomy.terms[i].recorder, st.kind, p.doc, extra + 1));
            }
        }
    }
}

/// A writer with room for as many occurrences as there are tokens can index
/// them, provided their positions fit and the document's token count stays
/// in its range: this is enough for what `index_text` requires.
pub proof fn lemma_room_to_index(
    writer: SpecializedPostingsWriter,
    ctx: IndexingContext,
    doc: DocId,
    prefix: Seq<u8>,
    position: IndexingPosition,
    tokens: Seq<TokenView>,
)
    requires
        writer.wf(ctx),
        writer_has_room(writer.state(ctx), doc, tokens.len()),
        positions_fit(writer.index_params(doc, prefix, position), tokens),
        position.num_tokens + tokens.len() <= u32::MAX,
    ensures
        writer.can_index(ctx, doc, prefix, position, tokens),
{
    writer.lemma_state_wf(ctx);
    lemma_room_is_kept(writer.state(ctx), writer.index_params(doc, prefix, position), tokens, 0);
}

} // verus!
