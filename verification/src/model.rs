//! The state of one field's postings writer as a mathematical value, and
//! what `subscribe` and `index_text` do to it.
use crate::posting::{DocId, RecorderKind, RecorderState};
use crate::term_map::UnorderedTermId;
use vstd::prelude::*;

verus! {

/// One term of a field with what was recorded for it.
pub ghost struct TermState {
    pub key: Seq<u8>,
    pub recorder: RecorderState,
}

/// The terms of a field in the order in which they were first seen, and the
/// number of occurrences recorded.
pub ghost struct WriterState {
    pub kind: RecorderKind,
    pub terms: Seq<TermState>,
    pub total_num_tokens: nat,
}

impl WriterState {
    pub open spec fn empty(kind: RecorderKind) -> WriterState {
        WriterState { kind, terms: Seq::empty(), total_num_tokens: 0 }
    }

    pub open spec fn holds(self, key: Seq<u8>) -> bool {
        exists|i: int| 0 <= i < self.terms.len() && (#[trigger] self.terms[i]).key == key
    }

    /// The identifier of `key`; for a key not yet seen, the one it will get.
    pub open spec fn term_id(self, key: Seq<u8>) -> int {
        if self.holds(key) {
            choose|i: int| 0 <= i < self.terms.len() && (#[trigger] self.terms[i]).key == key
        } else {
            self.terms.len() as int
        }
    }

    /// What is recorded for `key`; nothing for a key not yet seen.
    pub open spec fn recorded(self, key: Seq<u8>) -> RecorderState {
        if self.holds(key) {
            self.terms[self.term_id(key)].recorder
        } else {
            RecorderState::unopened()
        }
    }

    /// Number of documents recorded for `key`.
    pub open spec fn doc_freq(self, key: Seq<u8>) -> nat {
        self.recorded(key).postings().len()
    }

    /// No key occurs twice.
    pub open spec fn distinct_keys(self) -> bool {
        forall|i: int, j: int|
            0 <= i < j < self.terms.len() ==> (#[trigger] self.terms[i]).key
                != (#[trigger] self.terms[j]).key
    }

    /// No key occurs twice, and every term has an open document.
    pub open spec fn wf(self) -> bool {
        &&& self.distinct_keys()
        &&& forall|i: int| 0 <= i < self.terms.len() ==> (#[trigger] self.terms[i]).recorder.in_use()
    }

    /// One more occurrence of `key` in `doc` can be recorded with every
    /// counter staying in its range.
    pub open spec fn accepts(self, doc: DocId, key: Seq<u8>) -> bool {
        &&& self.total_num_tokens < u64::MAX
        &&& self.recorded(key).accepts(self.kind, doc)
    }

    /// The state after one occurrence of `key` at `pos` in `doc`.
    pub open spec fn subscribe(self, doc: DocId, pos: u32, key: Seq<u8>) -> WriterState {
        let term = TermState { key, recorder: self.recorded(key).subscribe(self.kind, doc, pos) };
        WriterState {
            kind: self.kind,
            terms: if self.holds(key) {
                self.terms.update(self.term_id(key), term)
            } else {
                self.terms.push(term)
            },
            total_num_tokens: self.total_num_tokens + 1,
        }
    }

    /// The identifier of a term is its place among the terms.
    pub proof fn lemma_term_id(self, i: int)
        requires
            self.distinct_keys(),
            0 <= i < self.terms.len(),
        ensures
            self.holds(self.terms[i].key),
            self.term_id(self.terms[i].key) == i,
    {
        let key = self.terms[i].key;
        let j = choose|j: int| 0 <= j < self.terms.len() && (#[trigger] self.terms[j]).key == key;
        if i < j {
            assert(self.terms[i].key != self.terms[j].key);
        } else if j < i {
            assert(self.terms[j].key != self.terms[i].key);
        }
    }

    /// Recording an occurrence of `key` changes what is recorded for `key`
    /// as the key's recorder says, and nothing of what is recorded for
    /// another key.
    pub proof fn lemma_subscribe_recorded(self, doc: DocId, pos: u32, key: Seq<u8>, other: Seq<u8>)
        requires
            self.distinct_keys(),
        ensures
            self.subscribe(doc, pos, key).distinct_keys(),
            self.subscribe(doc, pos, key).recorded(key) == self.recorded(key).subscribe(
                self.kind,
                doc,
                pos,
            ),
            other != key ==> self.subscribe(doc, pos, key).recorded(other) == self.recorded(other),
            self.subscribe(doc, pos, key).total_num_tokens == self.total_num_tokens + 1,
            self.subscribe(doc, pos, key).kind == self.kind,
    {
        let after = self.subscribe(doc, pos, key);
        let id = self.term_id(key);
        assert(after.terms[id].key == key);
        assert forall|i: int, j: int| 0 <= i < j < after.terms.len() implies (
        #[trigger] after.terms[i]).key != (#[trigger] after.terms[j]).key by {
            if self.holds(key) {
                assert(self.terms[i].key != self.terms[j].key);
            } else {
                if j < self.terms.len() {
                    assert(self.terms[i].key != self.terms[j].key);
                } else {
                    assert(self.terms[i].key != key);
                }
            }
        }
        after.lemma_term_id(id);
        if other != key {
            if self.holds(other) {
                let i = self.term_id(other);
                assert(after.terms[i].key == other);
                after.lemma_term_id(i);
            } else {
                if after.holds(other) {
                    let j = after.term_id(other);
                    if j < self.terms.len() {
                        assert(self.terms[j].key == other);
                    }
                }
            }
        }
    }

}

/// A token as `index_text` sees it: its bytes, its position counted from the
/// start of the value it was cut from, and the number of positions it spans.
pub ghost struct TokenView {
    pub text: Seq<u8>,
    pub position: u32,
    pub position_length: u32,
}

/// A token that `index_text` did not record, with the limit it exceeded.
#[derive(Clone, Copy, Debug, PartialEq, Eq, Structural)]
pub struct DroppedToken {
    pub len: usize,
    pub max_len: usize,
}

/// What stays the same during one call of `index_text`.
pub ghost struct IndexParams {
    pub doc: DocId,
    /// The field's prefix of every term key.
    pub prefix: Seq<u8>,
    /// The end position that earlier values of the field left behind.
    pub base: u32,
    pub max_token_len: usize,
}

/// Positions left free between two values of one field in one document.
pub const POSITION_GAP: u32 = 1;

/// How far one call of `index_text` has come.
pub ghost struct IndexRun {
    pub writer: WriterState,
    /// The identifiers of the recorded tokens, in the order of the tokens.
    pub term_ids: Seq<UnorderedTermId>,
    /// Where the last recorded token ends; `0` as long as none was recorded.
    pub end_position: u32,
    /// Number of recorded tokens.
    pub num_tokens: nat,
    pub dropped: Seq<DroppedToken>,
}

impl IndexRun {
    pub open spec fn start(writer: WriterState) -> IndexRun {
        IndexRun {
            writer,
            term_ids: Seq::empty(),
            end_position: 0,
            num_tokens: 0,
            dropped: Seq::empty(),
        }
    }

    pub open spec fn is_dropped(p: IndexParams, t: TokenView) -> bool {
        t.text.len() > p.max_token_len
    }

    /// The position under which the token is recorded.
    pub open spec fn start_position(p: IndexParams, t: TokenView) -> int {
        p.base + t.position
    }

    /// The token can be taken with every position and counter staying in its range.
    pub open spec fn step_ok(self, p: IndexParams, t: TokenView) -> bool {
        Self::is_dropped(p, t) || {
            &&& Self::start_position(p, t) + t.position_length <= u32::MAX
            &&& self.num_tokens < u32::MAX
            &&& self.writer.accepts(p.doc, p.prefix + t.text)
        }
    }

    /// The run after the token: a token that is too long is noted as dropped
    /// and nothing else changes; any other is recorded under the field's
    /// prefix followed by its bytes.
    pub open spec fn step(self, p: IndexParams, t: TokenView) -> IndexRun {
        if Self::is_dropped(p, t) {
            IndexRun {
                dropped: self.dropped.push(
                    DroppedToken { len: t.text.len() as usize, max_len: p.max_token_len },
                ),
                ..self
            }
        } else {
            let key = p.prefix + t.text;
            let start = Self::start_position(p, t) as u32;
            IndexRun {
                writer: self.writer.subscribe(p.doc, start, key),
                term_ids: self.term_ids.push(self.writer.term_id(key) as u64),
                end_position: (start + t.position_length) as u32,
                num_tokens: self.num_tokens + 1,
                dropped: self.dropped,
            }
        }
    }

    /// The run after `tokens`, taken in their order.
    pub open spec fn run(self, p: IndexParams, tokens: Seq<TokenView>) -> IndexRun
        decreases tokens.len(),
    {
        if tokens.len() == 0 {
            self
        } else {
            self.run(p, tokens.drop_last()).step(p, tokens.last())
        }
    }

    /// Every one of `tokens` can be taken in its turn.
    pub open spec fn run_ok(self, p: IndexParams, tokens: Seq<TokenView>) -> bool
        decreases tokens.len(),
    {
        tokens.len() > 0 ==> self.run_ok(p, tokens.drop_last()) && self.run(
            p,
            tokens.drop_last(),
        ).step_ok(p, tokens.last())
    }

    /// Tokens that can be taken can be taken up to any one of them.
    pub proof fn lemma_run_ok_prefix(self, p: IndexParams, tokens: Seq<TokenView>, k: int)
        requires
            self.run_ok(p, tokens),
            0 <= k <= tokens.len(),
        ensures
            self.run_ok(p, tokens.take(k)),
        decreases tokens.len(),
    {
        if k == tokens.len() {
            assert(tokens.take(k) == tokens);
        } else {
            assert(tokens.drop_last().take(k) == tokens.take(k));
            self.lemma_run_ok_prefix(p, tokens.drop_last(), k);
        }
    }
}

} // verus!
