//! The postings writer of one field: a term map whose recorders all keep the
//! same kind of information, and the count of recorded occurrences.
use crate::arena::{extend_bytes, is_prefix_of, lemma_prefix_refl, lemma_prefix_trans, Arena};
use crate::model::{
    DroppedToken, IndexParams, IndexRun, TermState, TokenView, WriterState, POSITION_GAP,
};
use crate::posting::{DocId, RecorderKind};
use crate::recorder::RecorderUpdate;
use crate::term_map::{TermMap, UnorderedTermId};
use vstd::prelude::*;

verus! {

/// The two arenas of one segment build: `arena` takes what recorders write,
/// `arena_terms` the buckets of the term maps.
pub struct IndexingContext {
    pub arena: Arena,
    pub arena_terms: Arena,
}

impl IndexingContext {
    pub fn new() -> (ctx: IndexingContext)
        ensures
            ctx.arena@ == Seq::<u8>::empty(),
            ctx.arena_terms@ == Seq::<u8>::empty(),
    {
        IndexingContext { arena: Arena::new(), arena_terms: Arena::new() }
    }

    /// Bytes consumed by both arenas; what does not fit in `usize` is cut off.
    pub fn mem_usage(&self) -> (n: usize)
        ensures
            n == if self.arena@.len() + self.arena_terms@.len() <= usize::MAX {
                self.arena@.len() + self.arena_terms@.len()
            } else {
                usize::MAX as nat
            },
    {
        self.arena.mem_usage().saturating_add(self.arena_terms.mem_usage())
    }
}

/// A token of a field's value: its bytes, its position counted from the start
/// of the value, and the number of positions it spans.
#[derive(Debug)]
pub struct Token {
    pub text: Vec<u8>,
    pub position: u32,
    pub position_length: u32,
}

impl View for Token {
    type V = TokenView;

    open spec fn view(&self) -> TokenView {
        TokenView {
            text: self.text@,
            position: self.position,
            position_length: self.position_length,
        }
    }
}

/// The tokens behind a slice of `Token`.
pub open spec fn tokens_of(v: Seq<Token>) -> Seq<TokenView> {
    Seq::new(v.len(), |i: int| v[i]@)
}

/// Where one field of one document stands after the values indexed so far.
#[derive(Clone, Copy, Debug)]
pub struct IndexingPosition {
    pub num_tokens: u32,
    pub end_position: u32,
}

impl Default for IndexingPosition {
    fn default() -> (p: IndexingPosition)
        ensures
            p.num_tokens == 0,
            p.end_position == 0,
    {
        IndexingPosition { num_tokens: 0, end_position: 0 }
    }
}

/// Longest token, in bytes, that `index_text` records unless told otherwise.
pub const MAX_TOKEN_LEN: usize = 65530;

/// The postings writer of one field, bound to one kind of recorder.
pub struct SpecializedPostingsWriter {
    total_num_tokens: u64,
    kind: RecorderKind,
    max_token_len: usize,
    term_map: TermMap,
}

impl SpecializedPostingsWriter {
    pub closed spec fn spec_kind(&self) -> RecorderKind {
        self.kind
    }

    pub closed spec fn spec_max_token_len(&self) -> usize {
        self.max_token_len
    }

    pub closed spec fn spec_term_map(&self) -> TermMap {
        self.term_map
    }

    /// What the writer has recorded, read from the arenas of `ctx`.
    pub closed spec fn state(&self, ctx: IndexingContext) -> WriterState {
        WriterState {
            kind: self.kind,
            terms: Seq::new(
                self.term_map.spec_len(),
                |i: int|
                    TermState {
                        key: self.term_map.key(ctx.arena_terms@, i),
                        recorder: self.term_map.recorder(ctx.arena_terms@, i).state(ctx.arena@),
                    },
            ),
            total_num_tokens: self.total_num_tokens as nat,
        }
    }

    /// The writer is consistent with the arenas of `ctx`.
    pub closed spec fn wf(&self, ctx: IndexingContext) -> bool {
        &&& self.term_map.wf(ctx.arena_terms@)
        &&& forall|i: int|
            0 <= i < self.term_map.spec_len() ==> {
                let r = #[trigger] self.term_map.recorder(ctx.arena_terms@, i);
                &&& r.wf(ctx.arena@)
                &&& r.spec_kind() == self.kind
                &&& r.state(ctx.arena@).in_use()
            }
    }

    /// The byte at `p` of `ctx.arena_terms` belongs to the writer's term map.
    pub closed spec fn owns(&self, ctx: IndexingContext, p: int) -> bool {
        self.term_map.owns(ctx.arena_terms@, p)
    }

    /// A consistent writer is in a well-formed state.
    pub proof fn lemma_state_wf(&self, ctx: IndexingContext)
        requires
            self.wf(ctx),
        ensures
            self.state(ctx).wf(),
            self.state(ctx).kind == self.spec_kind(),
            self.state(ctx).terms.len() == self.spec_term_map().spec_len(),
    {
        let st = self.state(ctx);
        let at = ctx.arena_terms@;
        assert forall|i: int, j: int| 0 <= i < j < st.terms.len() implies (#[trigger] st.terms[i]).key
            != (#[trigger] st.terms[j]).key by {
            if self.term_map.key(at, i) == self.term_map.key(at, j) {
                self.term_map.lemma_keys_distinct(at, i, j);
            }
        }
        assert forall|i: int| 0 <= i < st.terms.len() implies (
        #[trigger] st.terms[i]).recorder.in_use() by {
            assert(self.term_map.recorder(at, i).state(ctx.arena@).in_use());
        }
    }

    /// The term map and the state agree on which keys are held, and under
    /// which identifier.
    proof fn lemma_lookup_agrees(&self, ctx: IndexingContext, key: Seq<u8>)
        requires
            self.wf(ctx),
        ensures
            match self.term_map.index_of(ctx.arena_terms@, key) {
                Some(i) => self.state(ctx).holds(key) && self.state(ctx).term_id(key) == i && 0 <= i
                    < self.term_map.spec_len(),
                None => !self.state(ctx).holds(key),
            },
    {
        let st = self.state(ctx);
        let at = ctx.arena_terms@;
        self.lemma_state_wf(ctx);
        if exists|i: int| 0 <= i < self.term_map.spec_len() && self.term_map.key(at, i) == key {
            let i = choose|i: int|
                0 <= i < self.term_map.spec_len() && self.term_map.key(at, i) == key;
            assert(st.terms[i].key == key);
            st.lemma_term_id(i);
        } else {
            if st.holds(key) {
                let j = choose|j: int| 0 <= j < st.terms.len() && (#[trigger] st.terms[j]).key == key;
                assert(self.term_map.key(at, j) == key);
            }
        }
    }

    /// A writer that has recorded nothing, with recorders of `kind`.
    pub fn new(kind: RecorderKind) -> (w: SpecializedPostingsWriter)
        ensures
            w.spec_kind() == kind,
            w.spec_max_token_len() == MAX_TOKEN_LEN,
            forall|ctx: IndexingContext| #[trigger] w.wf(ctx),
            forall|ctx: IndexingContext| #[trigger] w.state(ctx) == WriterState::empty(kind),
    {
        Self::with_max_token_len(kind, MAX_TOKEN_LEN)
    }

    /// A writer that has recorded nothing, with recorders of `kind`, whose
    /// `index_text` drops the tokens longer than `max_token_len` bytes.
    pub fn with_max_token_len(kind: RecorderKind, max_token_len: usize) -> (w:
        SpecializedPostingsWriter)
        ensures
            w.spec_kind() == kind,
            w.spec_max_token_len() == max_token_len,
            forall|ctx: IndexingContext| #[trigger] w.wf(ctx),
            forall|ctx: IndexingContext| #[trigger] w.state(ctx) == WriterState::empty(kind),
    {
        let w = SpecializedPostingsWriter {
            total_num_tokens: 0,
            kind,
            max_token_len,
            term_map: TermMap::new(),
        };
        assert forall|ctx: IndexingContext| #[trigger] w.wf(ctx) by {
            assert(w.term_map.wf(ctx.arena_terms@));
        }
        assert forall|ctx: IndexingContext| #[trigger]
            w.state(ctx) == WriterState::empty(kind) by {
            assert(w.state(ctx).terms == Seq::<TermState>::empty());
        }
        w
    }

    /// The kind of the writer's recorders.
    #[verifier::when_used_as_spec(spec_kind)]
    pub fn kind(&self) -> (k: RecorderKind)
        ensures
            k == self.spec_kind(),
    {
        self.kind
    }

    /// Longest token, in bytes, that `index_text` records.
    #[verifier::when_used_as_spec(spec_max_token_len)]
    pub fn max_token_len(&self) -> (n: usize)
        ensures
            n == self.spec_max_token_len(),
    {
        self.max_token_len
    }

    /// Number of occurrences recorded so far.
    pub fn total_num_tokens(&self) -> (n: u64)
        ensures
            forall|ctx: IndexingContext| (#[trigger] self.state(ctx)).total_num_tokens == n,
    {
        self.total_num_tokens
    }

    /// The writer's term map.
    pub fn term_map(&self) -> (m: &TermMap)
        ensures
            *m == self.spec_term_map(),
    {
        &self.term_map
    }

    /// Bytes of `ctx.arena_terms` that the writer's term map takes.
    pub fn mem_usage(&self, ctx: &IndexingContext) -> (n: usize)
        requires
            self.wf(*ctx),
        ensures
            n == self.spec_term_map().bytes_used(
                ctx.arena_terms@,
                self.spec_term_map().spec_len(),
            ),
    {
        self.term_map.mem_usage(&ctx.arena_terms)
    }

    /// Records that `doc` holds `term` at `position`, and returns the
    /// identifier of the term.
    pub fn subscribe(
        &mut self,
        doc: DocId,
        position: u32,
        term: &[u8],
        ctx: &mut IndexingContext,
    ) -> (id: UnorderedTermId)
        requires
            old(self).wf(*old(ctx)),
            old(self).state(*old(ctx)).accepts(doc, term@),
        ensures
            final(self).wf(*final(ctx)),
            final(self).state(*final(ctx)) == old(self).state(*old(ctx)).subscribe(
                doc,
                position,
                term@,
            ),
            id == old(self).state(*old(ctx)).term_id(term@),
            final(self).spec_kind() == old(self).spec_kind(),
            final(self).spec_max_token_len() == old(self).spec_max_token_len(),
            is_prefix_of(old(ctx).arena@, final(ctx).arena@),
            old(ctx).arena_terms@.len() <= final(ctx).arena_terms@.len(),
            forall|p: int|
                final(self).owns(*final(ctx), p) == (old(self).owns(*old(ctx), p) || old(ctx).arena_terms@.len() <= p < final(ctx).arena_terms@.len()),
            forall|p: int|
                0 <= p < old(ctx).arena_terms@.len() && !old(self).owns(*old(ctx), p) ==> final(ctx).arena_terms@[p] == old(ctx).arena_terms@[p],
    {
        let ghost before = *self;
        let ghost ctx0 = *ctx;
        let ghost st = self.state(ctx0);
        proof {
            self.lemma_lookup_agrees(ctx0, term@);
            self.lemma_state_wf(ctx0);
        }
        self.total_num_tokens = self.total_num_tokens + 1;
        let update = RecorderUpdate { kind: self.kind, doc, position };
        let id = self.term_map.mutate_or_create(term, &mut ctx.arena_terms, update, &mut ctx.arena);
        proof {
            let ctx1 = *ctx;
            let at0 = ctx0.arena_terms@;
            let at1 = ctx1.arena_terms@;
            let after = self.state(ctx1);
            let model = st.subscribe(doc, position, term@);
            assert forall|i: int| 0 <= i < self.term_map.spec_len() implies {
                let r = #[trigger] self.term_map.recorder(at1, i);
                &&& r.wf(ctx1.arena@)
                &&& r.spec_kind() == self.kind
                &&& r.state(ctx1.arena@).in_use()
                &&& r.state(ctx1.arena@) == model.terms[i].recorder
                &&& self.term_map.key(at1, i) == model.terms[i].key
            } by {
                if i != id as int {
                    let r0 = before.term_map.recorder(at0, i);
                    assert(self.term_map.recorder(at1, i) == r0);
                    r0.lemma_stable(ctx0.arena@, ctx1.arena@);
                    assert(self.term_map.key(at1, i) == before.term_map.key(at0, i));
                    assert(st.terms[i].key == before.term_map.key(at0, i));
                } else {
                    if st.holds(term@) {
                        assert(before.term_map.recorder(at0, i).state(ctx0.arena@).in_use());
                    }
                }
            }
            assert(after.terms =~= model.terms);
        }
        id
    }

    /// What stays the same while the tokens of one value are indexed.
    pub open spec fn index_params(
        &self,
        doc: DocId,
        prefix: Seq<u8>,
        position: IndexingPosition,
    ) -> IndexParams {
        IndexParams {
            doc,
            prefix,
            base: position.end_position,
            max_token_len: self.spec_max_token_len(),
        }
    }

    /// The tokens can be indexed with every position and counter staying in
    /// its range.
    pub open spec fn can_index(
        &self,
        ctx: IndexingContext,
        doc: DocId,
        prefix: Seq<u8>,
        position: IndexingPosition,
        tokens: Seq<TokenView>,
    ) -> bool {
        let p = self.index_params(doc, prefix, position);
        let start = IndexRun::start(self.state(ctx));
        &&& start.run_ok(p, tokens)
        &&& start.run(p, tokens).end_position + POSITION_GAP <= u32::MAX
        &&& position.num_tokens + start.run(p, tokens).num_tokens <= u32::MAX
    }

    /// Records the tokens of one value of the field in `doc_id`, in their order.
    ///
    /// A token longer than the writer's limit is dropped and noted in `drops`.
    /// Any other is recorded under the key made of what `term_buffer` holds
    /// on entry followed by the token's bytes, at the position that
    /// `indexing_position` has reached plus the token's own; its identifier
    /// goes to `term_id_sink` where one is given. In the end
    /// `indexing_position` stands one gap behind the last recorded token, and
    /// `term_buffer` holds what it held on entry.
    pub fn index_text(
        &mut self,
        doc_id: DocId,
        tokens: &[Token],
        term_buffer: &mut Vec<u8>,
        ctx: &mut IndexingContext,
        indexing_position: &mut IndexingPosition,
        term_id_sink: Option<&mut Vec<UnorderedTermId>>,
        drops: &mut Vec<DroppedToken>,
    )
        requires
            old(self).wf(*old(ctx)),
            old(self).can_index(
                *old(ctx),
                doc_id,
                old(term_buffer)@,
                *old(indexing_position),
                tokens_of(tokens@),
            ),
        ensures
            final(self).wf(*final(ctx)),
            final(self).spec_kind() == old(self).spec_kind(),
            final(self).spec_max_token_len() == old(self).spec_max_token_len(),
            ({
                let p = old(self).index_params(doc_id, old(term_buffer)@, *old(indexing_position));
                let run = IndexRun::start(old(self).state(*old(ctx))).run(p, tokens_of(tokens@));
                &&& final(self).state(*final(ctx)) == run.writer
                &&& final(indexing_position).end_position == run.end_position + POSITION_GAP
                &&& final(indexing_position).num_tokens == old(indexing_position).num_tokens
                    + run.num_tokens
                &&& final(drops)@ == old(drops)@ + run.dropped
                &&& match term_id_sink {
                    Some(sink) => final(sink)@ == sink@ + run.term_ids,
                    None => true,
                }
            }),
            final(term_buffer)@ == old(term_buffer)@,
            is_prefix_of(old(ctx).arena@, final(ctx).arena@),
            old(ctx).arena_terms@.len() <= final(ctx).arena_terms@.len(),
            forall|p: int|
                final(self).owns(*final(ctx), p) == (old(self).owns(*old(ctx), p) || old(
                    ctx
                ).arena_terms@.len() <= p < final(ctx).arena_terms@.len()),
            forall|p: int|
                0 <= p < old(ctx).arena_terms@.len() && !old(self).owns(*old(ctx), p) ==> final(
                    ctx
                ).arena_terms@[p] == old(ctx).arena_terms@[p],
    {
        let ghost w0 = *self;
        let ghost ctx0 = *ctx;
        let ghost prefix = term_buffer@;
        let ghost views = tokens_of(tokens@);
        let ghost p = self.index_params(doc_id, prefix, *indexing_position);
        let ghost start = IndexRun::start(self.state(ctx0));
        let ghost drops0 = drops@;
        let ghost sink0 = term_id_sink;
        let end_of_path_idx: usize = term_buffer.len();
        let base: u32 = indexing_position.end_position;
        let mut num_tokens: u32 = 0;
        let mut end_position: u32 = 0;
        let mut sink = term_id_sink;
        let mut k: usize = 0;
        proof {
            lemma_prefix_refl(ctx0.arena@);
            assert(views.take(0) == Seq::<TokenView>::empty());
            assert(drops0 + Seq::<DroppedToken>::empty() == drops0);
            match sink0 {
                Some(s0) => {
                    assert(s0@ + Seq::<UnorderedTermId>::empty() == s0@);
                },
                None => {},
            }
        }
        while k < tokens.len()
            invariant
                k <= tokens@.len(),
                views == tokens_of(tokens@),
                p == w0.index_params(doc_id, prefix, *indexing_position),
                p.base == base,
                p.doc == doc_id,
                p.prefix == prefix,
                p.max_token_len == self.spec_max_token_len(),
                start == IndexRun::start(w0.state(ctx0)),
                start.run_ok(p, views),
                w0.wf(ctx0),
                self.wf(*ctx),
                self.spec_kind() == w0.spec_kind(),
                self.spec_max_token_len() == w0.spec_max_token_len(),
                end_of_path_idx == prefix.len(),
                term_buffer@.len() >= prefix.len(),
                term_buffer@.subrange(0, prefix.len() as int) == prefix,
                self.state(*ctx) == start.run(p, views.take(k as int)).writer,
                num_tokens == start.run(p, views.take(k as int)).num_tokens,
                end_position == start.run(p, views.take(k as int)).end_position,
                drops@ == drops0 + start.run(p, views.take(k as int)).dropped,
                sink is Some == sink0 is Some,
                match (sink, sink0) {
                    (Some(s), Some(s0)) => *final(s) == *final(s0) && s@ == s0@ + start.run(
                        p,
                        views.take(k as int),
                    ).term_ids,
                    _ => true,
                },
                is_prefix_of(ctx0.arena@, ctx.arena@),
                ctx0.arena_terms@.len() <= ctx.arena_terms@.len(),
                forall|q: int|
                    self.owns(*ctx, q) == (w0.owns(ctx0, q) || ctx0.arena_terms@.len() <= q
                        < ctx.arena_terms@.len()),
                forall|q: int|
                    0 <= q < ctx0.arena_terms@.len() && !w0.owns(ctx0, q) ==> ctx.arena_terms@[q]
                        == ctx0.arena_terms@[q],
            decreases tokens@.len() - k,
        {
            let token = &tokens[k];
            let ghost before = start.run(p, views.take(k as int));
            proof {
                assert(views.take(k + 1).drop_last() == views.take(k as int));
                assert(views.take(k + 1).last() == token@);
                start.lemma_run_ok_prefix(p, views, k + 1);
                assert(before.step_ok(p, token@));
                assert(start.run(p, views.take(k + 1)) == before.step(p, token@));
            }
            if token.text.len() > self.max_token_len {
                drops.push(DroppedToken { len: token.text.len(), max_len: self.max_token_len });
                proof {
                    assert(drops@ == drops0 + before.step(p, token@).dropped);
                }
            } else {
                term_buffer.truncate(end_of_path_idx);
                extend_bytes(term_buffer, token.text.as_slice());
                assert(term_buffer@ == prefix + token@.text);
                let start_position: u32 = base + token.position;
                end_position = start_position + token.position_length;
                let ghost mid = *ctx;
                let ghost wmid = *self;
                let id = self.subscribe(doc_id, start_position, term_buffer.as_slice(), ctx);
                match &mut sink {
                    Some(s) => {
                        s.push(id);
                    },
                    None => {},
                }
                num_tokens = num_tokens + 1;
                proof {
                    lemma_prefix_trans(ctx0.arena@, mid.arena@, ctx.arena@);
                    assert((prefix + token@.text).subrange(0, prefix.len() as int) == prefix);
                    assert forall|q: int|
                        self.owns(*ctx, q) == (w0.owns(ctx0, q) || ctx0.arena_terms@.len() <= q
                            < ctx.arena_terms@.len()) by {
                        if w0.owns(ctx0, q) {
                            w0.lemma_owned_in_bounds(ctx0, q);
                        }
                    }
                    assert forall|q: int|
                        0 <= q < ctx0.arena_terms@.len() && !w0.owns(ctx0, q) implies ctx.arena_terms@[q]
                            == ctx0.arena_terms@[q] by {
                        assert(!wmid.owns(mid, q));
                    }
                }
            }
            k = k + 1;
        }
        proof {
            assert(views.take(tokens@.len() as int) == views);
        }
        indexing_position.end_position = end_position + POSITION_GAP;
        indexing_position.num_tokens = indexing_position.num_tokens + num_tokens;
        term_buffer.truncate(end_of_path_idx);
    }

    /// Every byte the writer owns lies inside `ctx.arena_terms`.
    pub proof fn lemma_owned_in_bounds(&self, ctx: IndexingContext, p: int)
        requires
            self.wf(ctx),
            self.owns(ctx, p),
        ensures
            0 <= p < ctx.arena_terms@.len(),
    {
        self.term_map.lemma_owned_in_bounds(ctx.arena_terms@, p);
    }

    /// What the state says of the term with identifier `i` is what the term
    /// map holds for it.
    pub proof fn lemma_term_at(&self, ctx: IndexingContext, i: int)
        requires
            self.wf(ctx),
            0 <= i < self.spec_term_map().spec_len(),
        ensures
            self.state(ctx).terms.len() == self.spec_term_map().spec_len(),
            self.state(ctx).terms[i].key == self.spec_term_map().key(ctx.arena_terms@, i),
            self.state(ctx).terms[i].recorder == self.spec_term_map().recorder(
                ctx.arena_terms@,
                i,
            ).state(ctx.arena@),
            self.spec_term_map().recorder(ctx.arena_terms@, i).wf(ctx.arena@),
            self.state(ctx).terms[i].recorder.in_use(),
            self.spec_term_map().wf(ctx.arena_terms@),
    {
        assert(self.term_map.recorder(ctx.arena_terms@, i).wf(ctx.arena@));
    }

    /// The term map of a consistent writer is consistent with `ctx.arena_terms`.
    pub proof fn lemma_map_wf(&self, ctx: IndexingContext)
        requires
            self.wf(ctx),
        ensures
            self.spec_term_map().wf(ctx.arena_terms@),
    {
    }

    /// A writer reads the same in arenas that kept what it recorded: bytes
    /// may have been added to both, and bytes of `arena_terms` that the
    /// writer does not own may have changed.
    pub proof fn lemma_stable(&self, ctx: IndexingContext, later: IndexingContext)
        requires
            self.wf(ctx),
            is_prefix_of(ctx.arena@, later.arena@),
            ctx.arena_terms@.len() <= later.arena_terms@.len(),
            forall|p: int|
                0 <= p < ctx.arena_terms@.len() && self.owns(ctx, p) ==> later.arena_terms@[p]
                    == ctx.arena_terms@[p],
        ensures
            self.wf(later),
            self.state(later) == self.state(ctx),
            forall|p: int| self.owns(later, p) == self.owns(ctx, p),
    {
        let at = ctx.arena_terms@;
        let bt = later.arena_terms@;
        assert forall|p: int| 0 <= p < at.len() && self.term_map.owns(at, p) implies bt[p]
            == at[p] by {
            assert(self.owns(ctx, p));
        }
        self.term_map.lemma_stable(at, bt);
        assert forall|p: int| self.owns(later, p) == self.owns(ctx, p) by {
            assert(self.term_map.owns(bt, p) == self.term_map.owns(at, p));
        }
        assert forall|i: int| 0 <= i < self.term_map.spec_len() implies {
            let r = #[trigger] self.term_map.recorder(bt, i);
            &&& r.wf(later.arena@)
            &&& r.spec_kind() == self.kind
            &&& r.state(later.arena@).in_use()
            &&& r.state(later.arena@) == self.term_map.recorder(at, i).state(ctx.arena@)
        } by {
            let r0 = self.term_map.recorder(at, i);
            assert(self.term_map.recorder(bt, i) == r0);
            r0.lemma_stable(ctx.arena@, later.arena@);
        }
        assert(self.state(later).terms =~= self.state(ctx).terms);
    }

    /// A writer without terms owns no byte.
    pub proof fn lemma_owns_nothing(&self, ctx: IndexingContext, p: int)
        requires
            self.state(ctx).terms.len() == 0,
        ensures
            !self.owns(ctx, p),
    {
        self.term_map.lemma_owns_nothing(ctx.arena_terms@, p);
    }
}

} // verus!
