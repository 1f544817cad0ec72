//! The per-term recorder: a small state machine whose closed documents live
//! in an arena as a chain of write-once records.
use crate::arena::{addr_at, is_prefix_of, lemma_prefix_keeps_values, u32_at, Addr, Arena};
use crate::arena::{extend_bytes, lemma_prefix_refl, lemma_prefix_trans};
use crate::arena::{lemma_read_appended_addr, lemma_read_appended_u32};
use crate::posting::{postings_of, DocId, DocPosting, Posting, RecorderKind, RecorderState};
use vstd::bytes::*;
use vstd::prelude::*;
use vstd::slice::*;

verus! {

/// Bytes of one recorded position: the previous cell, then the position.
pub const POSITION_CELL_SIZE: usize = 12;

/// Bytes of one closed document: the previous entry, the document, its term
/// frequency and the last cell of its positions.
pub const ENTRY_SIZE: usize = 24;

/// Bytes of a recorder stored in an arena.
pub const RECORDER_SIZE: usize = 30;

/// Number of positions kept for a document in which the term occurs
/// `term_freq` times.
pub open spec fn kept_positions(kind: RecorderKind, term_freq: u32) -> nat {
    if kind.keeps_positions() {
        term_freq as nat
    } else {
        0
    }
}

/// The chain of `n` position cells that ends at `tail` lies inside `a`.
pub closed spec fn positions_wf(a: Seq<u8>, tail: Addr, n: nat) -> bool
    decreases n,
{
    n > 0 ==> tail + 12 <= a.len() && positions_wf(a, addr_at(a, tail as int), (n - 1) as nat)
}

/// The positions held by the chain of `n` cells that ends at `tail`, oldest first.
pub closed spec fn positions_at(a: Seq<u8>, tail: Addr, n: nat) -> Seq<u32>
    decreases n,
{
    if n == 0 {
        Seq::empty()
    } else {
        positions_at(a, addr_at(a, tail as int), (n - 1) as nat).push(u32_at(a, tail + 8))
    }
}

/// The closed document stored at `at`.
pub closed spec fn entry_at(a: Seq<u8>, kind: RecorderKind, at: Addr) -> Posting {
    let term_freq = u32_at(a, at + 12);
    Posting {
        doc: u32_at(a, at + 8),
        term_freq,
        positions: positions_at(a, addr_at(a, at + 16), kept_positions(kind, term_freq)),
    }
}

/// The chain of `n` closed documents that ends at `tail` lies inside `a`,
/// with the positions of each.
pub closed spec fn entries_wf(a: Seq<u8>, kind: RecorderKind, tail: Addr, n: nat) -> bool
    decreases n,
{
    n > 0 ==> {
        &&& tail + 24 <= a.len()
        &&& positions_wf(a, addr_at(a, tail + 16), kept_positions(kind, u32_at(a, tail + 12)))
        &&& entries_wf(a, kind, addr_at(a, tail as int), (n - 1) as nat)
    }
}

/// The closed documents held by the chain of `n` entries that ends at `tail`,
/// oldest first.
pub closed spec fn entries_at(a: Seq<u8>, kind: RecorderKind, tail: Addr, n: nat) -> Seq<Posting>
    decreases n,
{
    if n == 0 {
        Seq::empty()
    } else {
        entries_at(a, kind, addr_at(a, tail as int), (n - 1) as nat).push(entry_at(a, kind, tail))
    }
}

/// A chain of positions reads the same in every extension of the arena.
pub proof fn lemma_positions_stable(a: Seq<u8>, b: Seq<u8>, tail: Addr, n: nat)
    requires
        is_prefix_of(a, b),
        positions_wf(a, tail, n),
    ensures
        positions_wf(b, tail, n),
        positions_at(b, tail, n) == positions_at(a, tail, n),
        positions_at(a, tail, n).len() == n,
    decreases n,
{
    if n > 0 {
        lemma_prefix_keeps_values(a, b, tail as int);
        lemma_prefix_keeps_values(a, b, tail + 8);
        lemma_positions_stable(a, b, addr_at(a, tail as int), (n - 1) as nat);
    }
}

/// A chain of closed documents reads the same in every extension of the arena.
pub proof fn lemma_entries_stable(a: Seq<u8>, b: Seq<u8>, kind: RecorderKind, tail: Addr, n: nat)
    requires
        is_prefix_of(a, b),
        entries_wf(a, kind, tail, n),
    ensures
        entries_wf(b, kind, tail, n),
        entries_at(b, kind, tail, n) == entries_at(a, kind, tail, n),
        entries_at(a, kind, tail, n).len() == n,
    decreases n,
{
    if n > 0 {
        lemma_prefix_keeps_values(a, b, tail as int);
        lemma_prefix_keeps_values(a, b, tail + 8);
        lemma_prefix_keeps_values(a, b, tail + 12);
        lemma_prefix_keeps_values(a, b, tail + 16);
        lemma_positions_stable(
            a,
            b,
            addr_at(a, tail + 16),
            kept_positions(kind, u32_at(a, tail + 12)),
        );
        lemma_entries_stable(a, b, kind, addr_at(a, tail as int), (n - 1) as nat);
    }
}

/// Reads the chain of `n` positions that ends at `tail`, oldest first.
pub fn read_positions(arena: &Arena, tail: Addr, n: u32) -> (v: Vec<u32>)
    requires
        positions_wf(arena@, tail, n as nat),
    ensures
        v@ == positions_at(arena@, tail, n as nat),
{
    let mut v: Vec<u32> = Vec::new();
    let mut i: u32 = 0;
    while i < n
        invariant
            i <= n,
            v@.len() == i,
        decreases n - i,
    {
        v.push(0u32);
        i = i + 1;
    }
    let mut k: usize = n as usize;
    let mut cur: Addr = tail;
    while k > 0
        invariant
            k <= n,
            v@.len() == n,
            positions_wf(arena@, cur, k as nat),
            positions_at(arena@, tail, n as nat) == positions_at(arena@, cur, k as nat)
                + v@.subrange(k as int, n as int),
        decreases k,
    {
        proof {
            arena.lemma_len_fits();
        }
        let pos: u32 = arena.read_u32(cur + 8);
        let prev: Addr = arena.read_addr(cur);
        let ghost before = v@;
        v.set(k - 1, pos);
        proof {
            let rest = positions_at(arena@, prev, (k - 1) as nat);
            assert(positions_at(arena@, cur, k as nat) == rest.push(pos));
            assert(v@.subrange(k - 1, n as int) == seq![pos] + before.subrange(k as int, n as int));
            assert(rest.push(pos) + before.subrange(k as int, n as int) == rest + v@.subrange(
                k - 1,
                n as int,
            ));
        }
        cur = prev;
        k = k - 1;
    }
    assert(v@.subrange(0, n as int) == v@);
    assert(positions_at(arena@, cur, 0) + v@ == v@);
    v
}

/// The accumulation state of one term. The closed documents and the positions
/// of the open one are chains in the arena; the recorder holds their ends.
#[derive(Clone, Copy, Debug)]
pub struct Recorder {
    kind: RecorderKind,
    current_doc: Option<DocId>,
    term_freq: u32,
    positions_tail: Addr,
    doc_count: u32,
    entries_tail: Addr,
}

impl Recorder {
    pub closed spec fn spec_kind(&self) -> RecorderKind {
        self.kind
    }

    /// The recorder's chains lie inside the arena `a`.
    pub closed spec fn wf(&self, a: Seq<u8>) -> bool {
        &&& positions_wf(a, self.positions_tail, kept_positions(self.kind, self.term_freq))
        &&& entries_wf(a, self.kind, self.entries_tail, self.doc_count as nat)
        &&& self.current_doc is None ==> self.term_freq == 0
        &&& !self.kind.counts_occurrences() ==> self.term_freq == 0
    }

    /// What the recorder holds, read from the arena `a`.
    pub closed spec fn state(&self, a: Seq<u8>) -> RecorderState {
        RecorderState {
            finalized: entries_at(a, self.kind, self.entries_tail, self.doc_count as nat),
            open: match self.current_doc {
                Some(doc) => Some(
                    Posting {
                        doc,
                        term_freq: self.term_freq,
                        positions: positions_at(
                            a,
                            self.positions_tail,
                            kept_positions(self.kind, self.term_freq),
                        ),
                    },
                ),
                None => None,
            },
        }
    }

    /// A recorder reads the same in every extension of the arena.
    pub proof fn lemma_stable(&self, a: Seq<u8>, b: Seq<u8>)
        requires
            self.wf(a),
            is_prefix_of(a, b),
        ensures
            self.wf(b),
            self.state(b) == self.state(a),
    {
        lemma_positions_stable(
            a,
            b,
            self.positions_tail,
            kept_positions(self.kind, self.term_freq),
        );
        lemma_entries_stable(a, b, self.kind, self.entries_tail, self.doc_count as nat);
    }

    /// The recorder as `RECORDER_SIZE` bytes: kind, open flag, open document,
    /// term frequency, number of closed documents, and the ends of both chains.
    pub closed spec fn encode(&self) -> Seq<u8> {
        seq![
            match self.kind {
                RecorderKind::DocOnly => 0u8,
                RecorderKind::DocFrequency => 1u8,
                RecorderKind::DocFrequencyAndPosition => 2u8,
            },
            if self.current_doc is Some {
                1u8
            } else {
                0u8
            },
        ] + spec_u32_to_le_bytes(
            match self.current_doc {
                Some(d) => d,
                None => 0u32,
            },
        ) + spec_u32_to_le_bytes(self.term_freq) + spec_u32_to_le_bytes(self.doc_count)
            + spec_u64_to_le_bytes(self.positions_tail as u64) + spec_u64_to_le_bytes(
            self.entries_tail as u64,
        )
    }

    /// The recorder that `bytes` stand for.
    pub closed spec fn decode(bytes: Seq<u8>) -> Recorder {
        Recorder {
            kind: if bytes[0] == 0 {
                RecorderKind::DocOnly
            } else if bytes[0] == 1 {
                RecorderKind::DocFrequency
            } else {
                RecorderKind::DocFrequencyAndPosition
            },
            current_doc: if bytes[1] == 0 {
                None
            } else {
                Some(u32_at(bytes, 2))
            },
            term_freq: u32_at(bytes, 6),
            doc_count: u32_at(bytes, 10),
            positions_tail: addr_at(bytes, 14),
            entries_tail: addr_at(bytes, 22),
        }
    }

    /// A stored recorder is read back unchanged.
    pub proof fn lemma_encode_decode(&self)
        ensures
            self.encode().len() == RECORDER_SIZE,
            Recorder::decode(self.encode()) == *self,
    {
        lemma_auto_spec_u32_to_from_le_bytes();
        lemma_auto_spec_u64_to_from_le_bytes();
        let doc = match self.current_doc {
            Some(d) => d,
            None => 0u32,
        };
        let e = self.encode();
        assert(e.len() == 30);
        assert(e.subrange(2, 6) == spec_u32_to_le_bytes(doc));
        assert(e.subrange(6, 10) == spec_u32_to_le_bytes(self.term_freq));
        assert(e.subrange(10, 14) == spec_u32_to_le_bytes(self.doc_count));
        assert(e.subrange(14, 22) == spec_u64_to_le_bytes(self.positions_tail as u64));
        assert(e.subrange(22, 30) == spec_u64_to_le_bytes(self.entries_tail as u64));
        let d = Recorder::decode(e);
        assert(d.kind == self.kind);
        assert(d.current_doc == self.current_doc);
    }

    /// The bytes under which the recorder is stored.
    pub fn to_bytes(&self) -> (v: Vec<u8>)
        ensures
            v@ == self.encode(),
    {
        let mut v: Vec<u8> = Vec::new();
        v.push(
            match self.kind {
                RecorderKind::DocOnly => 0u8,
                RecorderKind::DocFrequency => 1u8,
                RecorderKind::DocFrequencyAndPosition => 2u8,
            },
        );
        let doc: DocId = match self.current_doc {
            Some(d) => {
                v.push(1u8);
                d
            },
            None => {
                v.push(0u8);
                0u32
            },
        };
        extend_bytes(&mut v, u32_to_le_bytes(doc).as_slice());
        extend_bytes(&mut v, u32_to_le_bytes(self.term_freq).as_slice());
        extend_bytes(&mut v, u32_to_le_bytes(self.doc_count).as_slice());
        extend_bytes(&mut v, u64_to_le_bytes(self.positions_tail as u64).as_slice());
        extend_bytes(&mut v, u64_to_le_bytes(self.entries_tail as u64).as_slice());
        assert(v@ == self.encode());
        v
    }

    /// The recorder stored as `bytes`.
    pub fn from_bytes(bytes: &[u8]) -> (r: Recorder)
        requires
            bytes@.len() == RECORDER_SIZE,
        ensures
            r == Recorder::decode(bytes@),
    {
        let kind = if bytes[0] == 0 {
            RecorderKind::DocOnly
        } else if bytes[0] == 1 {
            RecorderKind::DocFrequency
        } else {
            RecorderKind::DocFrequencyAndPosition
        };
        let doc: u32 = u32_from_le_bytes(slice_subrange(bytes, 2, 6));
        let term_freq: u32 = u32_from_le_bytes(slice_subrange(bytes, 6, 10));
        let doc_count: u32 = u32_from_le_bytes(slice_subrange(bytes, 10, 14));
        let positions_tail: u64 = u64_from_le_bytes(slice_subrange(bytes, 14, 22));
        let entries_tail: u64 = u64_from_le_bytes(slice_subrange(bytes, 22, 30));
        Recorder {
            kind,
            current_doc: if bytes[1] == 0 {
                None
            } else {
                Some(doc)
            },
            term_freq,
            doc_count,
            positions_tail: #[verifier::truncate]
            (positions_tail as usize),
            entries_tail: #[verifier::truncate]
            (entries_tail as usize),
        }
    }

    /// Every document recorded so far, the open one last.
    pub fn postings(&self, arena: &Arena) -> (v: Vec<DocPosting>)
        requires
            self.wf(arena@),
        ensures
            postings_of(v@) == self.state(arena@).postings(),
    {
        let ghost a = arena@;
        let ghost target = self.state(a).postings();
        let ghost closed = entries_at(a, self.kind, self.entries_tail, self.doc_count as nat);
        proof {
            lemma_prefix_refl(a);
            lemma_entries_stable(a, a, self.kind, self.entries_tail, self.doc_count as nat);
            arena.lemma_len_fits();
        }
        let mut rev: Vec<DocPosting> = Vec::new();
        match self.current_doc {
            Some(doc) => {
                let n: u32 = if self.kind.has_positions() {
                    self.term_freq
                } else {
                    0
                };
                let positions = read_positions(arena, self.positions_tail, n);
                rev.push(DocPosting { doc, term_freq: self.term_freq, positions });
            },
            None => {},
        }
        let mut k: u32 = self.doc_count;
        let mut cur: Addr = self.entries_tail;
        while k > 0
            invariant
                a == arena@,
                a.len() <= usize::MAX,
                k <= self.doc_count,
                closed.len() == self.doc_count,
                target.len() >= closed.len(),
                target.subrange(0, closed.len() as int) == closed,
                entries_wf(a, self.kind, cur, k as nat),
                entries_at(a, self.kind, cur, k as nat) == closed.subrange(0, k as int),
                rev@.len() == target.len() - k,
                forall|j: int|
                    0 <= j < rev@.len() ==> (#[trigger] rev@[j])@ == target[target.len() - 1 - j],
            decreases k,
        {
            let doc: DocId = arena.read_u32(cur + 8);
            let term_freq: u32 = arena.read_u32(cur + 12);
            let tail: Addr = arena.read_addr(cur + 16);
            let prev: Addr = arena.read_addr(cur);
            let n: u32 = if self.kind.has_positions() {
                term_freq
            } else {
                0
            };
            let positions = read_positions(arena, tail, n);
            proof {
                let rest = entries_at(a, self.kind, prev, (k - 1) as nat);
                let e = entry_at(a, self.kind, cur);
                assert(entries_at(a, self.kind, cur, k as nat) == rest.push(e));
                assert(rest.push(e)[k - 1] == e);
                assert(closed.subrange(0, k as int)[k - 1] == closed[k - 1]);
                assert(rest == closed.subrange(0, k - 1)) by {
                    assert(rest == rest.push(e).subrange(0, k - 1));
                    assert(closed.subrange(0, k as int).subrange(0, k - 1) == closed.subrange(
                        0,
                        k - 1,
                    ));
                }
                assert(target[k - 1] == target.subrange(0, closed.len() as int)[k - 1]);
            }
            rev.push(DocPosting { doc, term_freq, positions });
            cur = prev;
            k = k - 1;
        }
        let mut v: Vec<DocPosting> = Vec::new();
        while rev.len() > 0
            invariant
                v@.len() + rev@.len() == target.len(),
                forall|j: int|
                    0 <= j < rev@.len() ==> (#[trigger] rev@[j])@ == target[target.len() - 1 - j],
                forall|j: int| 0 <= j < v@.len() ==> (#[trigger] v@[j])@ == target[j],
            decreases rev@.len(),
        {
            let p = rev.pop();
            match p {
                Some(posting) => {
                    v.push(posting);
                },
                None => {},
            }
        }
        assert(postings_of(v@) == target);
        v
    }

    /// A recorder in the state `unopened`.
    pub fn new(kind: RecorderKind) -> (r: Recorder)
        ensures
            r.spec_kind() == kind,
            forall|a: Seq<u8>| #[trigger] r.wf(a),
            forall|a: Seq<u8>| #[trigger] r.state(a) == RecorderState::unopened(),
    {
        let r = Recorder {
            kind,
            current_doc: None,
            term_freq: 0,
            positions_tail: 0,
            doc_count: 0,
            entries_tail: 0,
        };
        assert forall|a: Seq<u8>| #[trigger] r.wf(a) by {
            assert(positions_wf(a, 0, 0));
            assert(entries_wf(a, kind, 0, 0));
        }
        assert forall|a: Seq<u8>| #[trigger] r.state(a) == RecorderState::unopened() by {
            assert(entries_at(a, kind, 0, 0) == Seq::<Posting>::empty());
        }
        r
    }

    /// What the recorder keeps about each occurrence.
    #[verifier::when_used_as_spec(spec_kind)]
    pub fn kind(&self) -> (k: RecorderKind)
        ensures
            k == self.spec_kind(),
    {
        self.kind
    }

    /// The open document, if there is one.
    pub fn current_doc(&self) -> (doc: Option<DocId>)
        ensures
            forall|a: Seq<u8>| (#[trigger] self.state(a)).current_doc() == doc,
    {
        self.current_doc
    }

    /// Number of documents closed so far.
    pub fn term_doc_freq(&self) -> (n: u32)
        ensures
            forall|a: Seq<u8>| self.wf(a) ==> (#[trigger] self.state(a)).finalized.len() == n,
    {
        proof {
            assert forall|a: Seq<u8>| self.wf(a) implies (#[trigger] self.state(a)).finalized.len()
                == self.doc_count by {
                lemma_prefix_refl(a);
                lemma_entries_stable(a, a, self.kind, self.entries_tail, self.doc_count as nat);
            }
        }
        self.doc_count
    }

    /// Opens `doc` with no occurrence recorded yet.
    pub fn new_doc(&mut self, doc: DocId, arena: &mut Arena)
        requires
            old(self).wf(old(arena)@),
            old(self).state(old(arena)@).open is None,
        ensures
            final(arena)@ == old(arena)@,
            final(self).spec_kind() == old(self).spec_kind(),
            final(self).wf(final(arena)@),
            final(self).state(final(arena)@) == old(self).state(old(arena)@).new_doc(doc),
    {
        self.current_doc = Some(doc);
        self.term_freq = 0;
        self.positions_tail = 0;
        proof {
            assert(positions_wf(arena@, 0, 0));
            assert(positions_at(arena@, 0, 0) == Seq::<u32>::empty());
        }
    }

    /// Records one occurrence of the term at `pos` in the open document.
    pub fn record_position(&mut self, pos: u32, arena: &mut Arena)
        requires
            old(self).wf(old(arena)@),
            old(self).state(old(arena)@).open is Some,
            old(self).state(old(arena)@).accepts(
                old(self).spec_kind(),
                old(self).state(old(arena)@).open->0.doc,
            ),
        ensures
            is_prefix_of(old(arena)@, final(arena)@),
            final(self).spec_kind() == old(self).spec_kind(),
            final(self).wf(final(arena)@),
            final(self).state(final(arena)@) == old(self).state(old(arena)@).record_position(
                old(self).spec_kind(),
                pos,
            ),
    {
        let ghost a = arena@;
        let ghost before = *self;
        proof {
            lemma_prefix_refl(a);
        }
        match self.kind {
            RecorderKind::DocOnly => {},
            RecorderKind::DocFrequency => {
                self.term_freq = self.term_freq + 1;
                proof {
                    assert(positions_wf(a, self.positions_tail, 0));
                    assert(positions_at(a, self.positions_tail, 0) == positions_at(
                        a,
                        before.positions_tail,
                        0,
                    ));
                }
            },
            RecorderKind::DocFrequencyAndPosition => {
                let prev: Addr = self.positions_tail;
                let cell: Addr = arena.append_addr(prev);
                arena.append_u32(pos);
                self.positions_tail = cell;
                self.term_freq = self.term_freq + 1;
                proof {
                    let b = arena@;
                    lemma_auto_spec_u32_to_from_le_bytes();
                    lemma_auto_spec_u64_to_from_le_bytes();
                    assert(b == a + spec_u64_to_le_bytes(prev as u64) + spec_u32_to_le_bytes(pos));
                    assert(b.subrange(0, a.len() as int) == a);
                    before.lemma_stable(a, b);
                    lemma_read_appended_addr(a, prev, spec_u32_to_le_bytes(pos));
                    lemma_read_appended_u32(
                        a + spec_u64_to_le_bytes(prev as u64),
                        pos,
                        Seq::<u8>::empty(),
                    );
                    assert(a + spec_u64_to_le_bytes(prev as u64) + spec_u32_to_le_bytes(pos)
                        + Seq::<u8>::empty() == b);
                    assert(addr_at(b, cell as int) == prev);
                    assert(u32_at(b, cell + 8) == pos);
                    lemma_positions_stable(a, b, prev, before.term_freq as nat);
                }
            },
        }
    }

    /// Closes the open document: it becomes the last entry of the term's
    /// chain of closed documents.
    pub fn close_doc(&mut self, arena: &mut Arena)
        requires
            old(self).wf(old(arena)@),
            old(self).state(old(arena)@).open is Some,
            old(self).state(old(arena)@).finalized.len() < u32::MAX,
        ensures
            is_prefix_of(old(arena)@, final(arena)@),
            final(self).spec_kind() == old(self).spec_kind(),
            final(self).wf(final(arena)@),
            final(self).state(final(arena)@) == old(self).state(old(arena)@).close_doc(),
    {
        let ghost a = arena@;
        let ghost before = *self;
        proof {
            lemma_prefix_refl(a);
            lemma_entries_stable(a, a, self.kind, self.entries_tail, self.doc_count as nat);
        }
        let doc: DocId = match self.current_doc {
            Some(d) => d,
            None => 0,
        };
        let entry: Addr = arena.append_addr(self.entries_tail);
        arena.append_u32(doc);
        arena.append_u32(self.term_freq);
        arena.append_addr(self.positions_tail);
        proof {
            let b = arena@;
            let e0 = spec_u64_to_le_bytes(before.entries_tail as u64);
            let e1 = spec_u32_to_le_bytes(doc);
            let e2 = spec_u32_to_le_bytes(before.term_freq);
            let e3 = spec_u64_to_le_bytes(before.positions_tail as u64);
            lemma_auto_spec_u32_to_from_le_bytes();
            lemma_auto_spec_u64_to_from_le_bytes();
            assert(b == a + e0 + e1 + e2 + e3);
            assert(b.subrange(0, a.len() as int) == a);
            before.lemma_stable(a, b);
            lemma_read_appended_addr(a, before.entries_tail, e1 + e2 + e3);
            assert(a + e0 + (e1 + e2 + e3) == b);
            lemma_read_appended_u32(a + e0, doc, e2 + e3);
            assert(a + e0 + e1 + (e2 + e3) == b);
            lemma_read_appended_u32(a + e0 + e1, before.term_freq, e3);
            lemma_read_appended_addr(a + e0 + e1 + e2, before.positions_tail, Seq::<u8>::empty());
            assert(a + e0 + e1 + e2 + e3 + Seq::<u8>::empty() == b);
            assert(addr_at(b, entry as int) == before.entries_tail);
            assert(u32_at(b, entry + 8) == doc);
            assert(u32_at(b, entry + 12) == before.term_freq);
            assert(addr_at(b, entry + 16) == before.positions_tail);
            lemma_entries_stable(a, b, before.kind, before.entries_tail, before.doc_count as nat);
            lemma_positions_stable(
                a,
                b,
                before.positions_tail,
                kept_positions(before.kind, before.term_freq),
            );
            assert(positions_wf(b, 0, 0));
        }
        self.entries_tail = entry;
        self.doc_count = self.doc_count + 1;
        self.current_doc = None;
        self.term_freq = 0;
        self.positions_tail = 0;
    }
}

/// What one occurrence of a term does to the term's recorder. It stands for
/// the update function that a term map applies to the recorder it holds for
/// a key, or to none when the key is new.
#[derive(Clone, Copy, Debug)]
pub struct RecorderUpdate {
    pub kind: RecorderKind,
    pub doc: DocId,
    pub position: u32,
}

impl RecorderUpdate {
    /// The state that `existing` is in before the update; a new key starts unopened.
    pub open spec fn state_before(existing: Option<Recorder>, a: Seq<u8>) -> RecorderState {
        match existing {
            Some(rec) => rec.state(a),
            None => RecorderState::unopened(),
        }
    }

    /// The update can be applied to `existing`.
    pub open spec fn applies_to(&self, existing: Option<Recorder>, a: Seq<u8>) -> bool {
        match existing {
            Some(rec) => rec.wf(a) && rec.spec_kind() == self.kind && rec.state(a).accepts(
                self.kind,
                self.doc,
            ),
            None => true,
        }
    }

    /// Opens `self.doc` unless it is the open document already, closing
    /// another open document first, then records `self.position`.
    pub fn apply(&self, existing: Option<Recorder>, arena: &mut Arena) -> (r: Recorder)
        requires
            self.applies_to(existing, old(arena)@),
        ensures
            is_prefix_of(old(arena)@, final(arena)@),
            r.spec_kind() == self.kind,
            r.wf(final(arena)@),
            r.state(final(arena)@) == Self::state_before(existing, old(arena)@).subscribe(
                self.kind,
                self.doc,
                self.position,
            ),
    {
        let ghost a = arena@;
        let mut recorder = match existing {
            Some(rec) => rec,
            None => Recorder::new(self.kind),
        };
        let ghost start = recorder.state(a);
        assert(recorder.wf(a));
        assert(start == Self::state_before(existing, a));
        match recorder.current_doc() {
            Some(open_doc) => {
                assert(start.current_doc() == Some(open_doc));
                if open_doc != self.doc {
                    recorder.close_doc(arena);
                    let ghost mid = arena@;
                    recorder.new_doc(self.doc, arena);
                    recorder.record_position(self.position, arena);
                    proof {
                        lemma_prefix_trans(a, mid, arena@);
                    }
                } else {
                    recorder.record_position(self.position, arena);
                }
            },
            None => {
                assert(start.current_doc() == None::<DocId>);
                assert(start.close_doc() == start);
                recorder.new_doc(self.doc, arena);
                recorder.record_position(self.position, arena);
            },
        }
        recorder
    }
}

} // verus!
