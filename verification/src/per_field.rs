//! The postings writers of all fields of a segment, which share the arenas
//! of one indexing context.
use crate::arena::is_prefix_of;
use crate::field_writer::{
    tokens_of, IndexingContext, IndexingPosition, SpecializedPostingsWriter, Token,
};
use crate::model::{DroppedToken, IndexRun};
use crate::posting::{DocId, RecorderKind};
use crate::term_map::UnorderedTermId;
use vstd::prelude::*;

verus! {

/// Number of a field in the schema.
pub type Field = u32;

/// One postings writer per field, by the field's number.
pub struct PerFieldPostingsWriter {
    pub per_field_postings_writers: Vec<SpecializedPostingsWriter>,
}

impl View for PerFieldPostingsWriter {
    type V = Seq<SpecializedPostingsWriter>;

    open spec fn view(&self) -> Seq<SpecializedPostingsWriter> {
        self.per_field_postings_writers@
    }
}

impl PerFieldPostingsWriter {
    /// Every writer is consistent with the arenas of `ctx`, and no byte of
    /// `ctx.arena_terms` belongs to two of them.
    pub open spec fn wf(&self, ctx: IndexingContext) -> bool {
        &&& forall|f: int| 0 <= f < self@.len() ==> (#[trigger] self@[f]).wf(ctx)
        &&& forall|f: int, g: int, p: int|
            0 <= f < g < self@.len() ==> !(#[trigger] self@[f].owns(ctx, p)
                && #[trigger] self@[g].owns(ctx, p))
    }

    /// One writer that has recorded nothing for each of `kinds`.
    pub fn for_kinds(kinds: &[RecorderKind]) -> (w: PerFieldPostingsWriter)
        ensures
            w@.len() == kinds@.len(),
            forall|f: int| 0 <= f < kinds@.len() ==> (#[trigger] w@[f]).spec_kind() == kinds@[f],
            forall|f: int, ctx: IndexingContext|
                0 <= f < kinds@.len() ==> (#[trigger] w@[f].state(ctx)).terms.len() == 0 && w@[f].state(
                    ctx,
                ).total_num_tokens == 0,
            forall|ctx: IndexingContext| #[trigger] w.wf(ctx),
    {
        let mut writers: Vec<SpecializedPostingsWriter> = Vec::new();
        let mut f: usize = 0;
        while f < kinds.len()
            invariant
                f <= kinds@.len(),
                writers@.len() == f,
                forall|g: int| 0 <= g < f ==> (#[trigger] writers@[g]).spec_kind() == kinds@[g],
                forall|g: int, ctx: IndexingContext|
                    0 <= g < f ==> (#[trigger] writers@[g].wf(ctx)),
                forall|g: int, ctx: IndexingContext|
                    0 <= g < f ==> (#[trigger] writers@[g].state(ctx)).terms.len() == 0
                        && writers@[g].state(ctx).total_num_tokens == 0,
                forall|g: int, ctx: IndexingContext, p: int|
                    0 <= g < f ==> !(#[trigger] writers@[g].owns(ctx, p)),
            decreases kinds@.len() - f,
        {
            let writer = SpecializedPostingsWriter::new(kinds[f]);
            proof {
                assert forall|ctx: IndexingContext, p: int| !(#[trigger] writer.owns(ctx, p)) by {
                    writer.lemma_owns_nothing(ctx, p);
                }
            }
            writers.push(writer);
            f = f + 1;
        }
        PerFieldPostingsWriter { per_field_postings_writers: writers }
    }

    pub fn get_for_field(&self, field: Field) -> (w: &SpecializedPostingsWriter)
        requires
            field < self@.len(),
        ensures
            *w == self@[field as int],
    {
        &self.per_field_postings_writers[field as usize]
    }

    /// Records in the writer of `field` that `doc` holds `term` at `position`.
    pub fn subscribe(
        &mut self,
        field: Field,
        doc: DocId,
        position: u32,
        term: &[u8],
        ctx: &mut IndexingContext,
    ) -> (id: UnorderedTermId)
        requires
            old(self).wf(*old(ctx)),
            field < old(self)@.len(),
            old(self)@[field as int].state(*old(ctx)).accepts(doc, term@),
        ensures
            final(self).wf(*final(ctx)),
            final(self)@.len() == old(self)@.len(),
            final(self)@[field as int].state(*final(ctx)) == old(self)@[field as int].state(
                *old(ctx),
            ).subscribe(doc, position, term@),
            id == old(self)@[field as int].state(*old(ctx)).term_id(term@),
            forall|g: int|
                0 <= g < old(self)@.len() && g != field ==> (#[trigger] final(self)@[g]).state(
                    *final(ctx),
                ) == old(self)@[g].state(*old(ctx)),
            forall|g: int|
                0 <= g < old(self)@.len() ==> (#[trigger] final(self)@[g]).spec_kind() == old(
                    self,
                )@[g].spec_kind(),
    {
        let ghost before = self@;
        let ghost ctx0 = *ctx;
        let id = self.per_field_postings_writers[field as usize].subscribe(doc, position, term, ctx);
        proof {
            self.lemma_others_kept(before, ctx0, *ctx, field as int);
        }
        id
    }

    /// Records the tokens of one value of `field` in `doc_id`, as the
    /// field's writer does.
    pub fn index_text(
        &mut self,
        field: Field,
        doc_id: DocId,
        tokens: &[Token],
        term_buffer: &mut Vec<u8>,
        ctx: &mut IndexingContext,
        indexing_position: &mut IndexingPosition,
        term_id_sink: Option<&mut Vec<UnorderedTermId>>,
        drops: &mut Vec<DroppedToken>,
    )
        requires
            old(self).wf(*old(ctx)),
            field < old(self)@.len(),
            old(self)@[field as int].can_index(
                *old(ctx),
                doc_id,
                old(term_buffer)@,
                *old(indexing_position),
                tokens_of(tokens@),
            ),
        ensures
            final(self).wf(*final(ctx)),
            final(self)@.len() == old(self)@.len(),
            ({
                let writer = old(self)@[field as int];
                let p = writer.index_params(doc_id, old(term_buffer)@, *old(indexing_position));
                let run = IndexRun::start(writer.state(*old(ctx))).run(p, tokens_of(tokens@));
                &&& final(self)@[field as int].state(*final(ctx)) == run.writer
                &&& final(indexing_position).end_position == run.end_position + 1
                &&& final(indexing_position).num_tokens == old(indexing_position).num_tokens
                    + run.num_tokens
                &&& final(drops)@ == old(drops)@ + run.dropped
                &&& match term_id_sink {
                    Some(sink) => final(sink)@ == sink@ + run.term_ids,
                    None => true,
                }
            }),
            final(term_buffer)@ == old(term_buffer)@,
            forall|g: int|
                0 <= g < old(self)@.len() && g != field ==> (#[trigger] final(self)@[g]).state(
                    *final(ctx),
                ) == old(self)@[g].state(*old(ctx)),
            forall|g: int|
                0 <= g < old(self)@.len() ==> (#[trigger] final(self)@[g]).spec_kind() == old(
                    self,
                )@[g].spec_kind(),
    {
        let ghost before = self@;
        let ghost ctx0 = *ctx;
        self.per_field_postings_writers[field as usize].index_text(
            doc_id,
            tokens,
            term_buffer,
            ctx,
            indexing_position,
            term_id_sink,
            drops,
        );
        proof {
            self.lemma_others_kept(before, ctx0, *ctx, field as int);
        }
    }

    /// After the writer of `field` has recorded something, the other writers
    /// read as before and the writers still own disjoint bytes.
    proof fn lemma_others_kept(
        &self,
        before: Seq<SpecializedPostingsWriter>,
        ctx: IndexingContext,
        later: IndexingContext,
        field: int,
    )
        requires
            0 <= field < before.len(),
            self@.len() == before.len(),
            forall|g: int| 0 <= g < before.len() && g != field ==> self@[g] == before[g],
            forall|f: int| 0 <= f < before.len() ==> (#[trigger] before[f]).wf(ctx),
            forall|f: int, g: int, p: int|
                0 <= f < g < before.len() ==> !(#[trigger] before[f].owns(ctx, p)
                    && #[trigger] before[g].owns(ctx, p)),
            self@[field].wf(later),
            is_prefix_of(ctx.arena@, later.arena@),
            ctx.arena_terms@.len() <= later.arena_terms@.len(),
            forall|p: int|
                self@[field].owns(later, p) == (before[field].owns(ctx, p)
                    || ctx.arena_terms@.len() <= p < later.arena_terms@.len()),
            forall|p: int|
                0 <= p < ctx.arena_terms@.len() && !before[field].owns(ctx, p)
                    ==> later.arena_terms@[p] == ctx.arena_terms@[p],
        ensures
            self.wf(later),
            forall|g: int|
                0 <= g < before.len() && g != field ==> (#[trigger] self@[g]).state(later)
                    == before[g].state(ctx),
    {
        assert forall|g: int| 0 <= g < before.len() && g != field implies (#[trigger] self@[g]).wf(
            later,
        ) && self@[g].state(later) == before[g].state(ctx) && (forall|p: int|
            self@[g].owns(later, p) == before[g].owns(ctx, p)) by {
            assert forall|p: int|
                0 <= p < ctx.arena_terms@.len() && before[g].owns(ctx, p) implies later.arena_terms@[p]
                == ctx.arena_terms@[p] by {
                if g < field {
                    assert(!(before[g].owns(ctx, p) && before[field].owns(ctx, p)));
                } else {
                    assert(!(before[field].owns(ctx, p) && before[g].owns(ctx, p)));
                }
            }
            before[g].lemma_stable(ctx, later);
        }
        assert forall|f: int, g: int, p: int| 0 <= f < g < self@.len() implies !(
        #[trigger] self@[f].owns(later, p) && #[trigger] self@[g].owns(later, p)) by {
            assert(!(before[f].owns(ctx, p) && before[g].owns(ctx, p)));
            if f != field && g != field {
                assert(self@[f].owns(later, p) == before[f].owns(ctx, p));
                assert(self@[g].owns(later, p) == before[g].owns(ctx, p));
            } else if f == field {
                assert(self@[g].owns(later, p) == before[g].owns(ctx, p));
                if before[g].owns(ctx, p) {
                    before[g].lemma_owned_in_bounds(ctx, p);
                }
            } else {
                assert(self@[f].owns(later, p) == before[f].owns(ctx, p));
                if before[f].owns(ctx, p) {
                    before[f].lemma_owned_in_bounds(ctx, p);
                }
            }
        }
    }
}

} // verus!
