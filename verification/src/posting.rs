//! What a term map records about one term, as plain mathematical values.
use vstd::prelude::*;

verus! {

/// Identifier of a document inside the segment being built.
pub type DocId = u32;

/// How much a field keeps about each occurrence of a term.
#[derive(Clone, Copy, Debug, PartialEq, Eq, Structural)]
pub enum RecorderKind {
    /// Only the fact that the document holds the term.
    DocOnly,
    /// The number of occurrences in the document.
    DocFrequency,
    /// The number of occurrences and the position of each.
    DocFrequencyAndPosition,
}

impl RecorderKind {
    pub open spec fn counts_occurrences(self) -> bool {
        self != RecorderKind::DocOnly
    }

    pub open spec fn keeps_positions(self) -> bool {
        self == RecorderKind::DocFrequencyAndPosition
    }

    #[verifier::when_used_as_spec(keeps_positions)]
    pub fn has_positions(self) -> (b: bool)
        ensures
            b == self.keeps_positions(),
    {
        match self {
            RecorderKind::DocFrequencyAndPosition => true,
            _ => false,
        }
    }
}

/// One document of a term's posting list.
pub ghost struct Posting {
    pub doc: DocId,
    pub term_freq: u32,
    pub positions: Seq<u32>,
}

/// The life of a recorder: documents already closed, and the one still open.
pub ghost struct RecorderState {
    pub finalized: Seq<Posting>,
    pub open: Option<Posting>,
}

impl RecorderState {
    /// No document was ever opened.
    pub open spec fn unopened() -> RecorderState {
        RecorderState { finalized: Seq::empty(), open: None }
    }

    pub open spec fn current_doc(self) -> Option<DocId> {
        match self.open {
            Some(p) => Some(p.doc),
            None => None,
        }
    }

    pub open spec fn new_doc(self, doc: DocId) -> RecorderState {
        RecorderState {
            finalized: self.finalized,
            open: Some(Posting { doc, term_freq: 0, positions: Seq::empty() }),
        }
    }

    pub open spec fn record_position(self, kind: RecorderKind, pos: u32) -> RecorderState {
        match self.open {
            Some(p) => RecorderState {
                finalized: self.finalized,
                open: Some(
                    Posting {
                        doc: p.doc,
                        term_freq: if kind.counts_occurrences() {
                            (p.term_freq + 1) as u32
                        } else {
                            p.term_freq
                        },
                        positions: if kind.keeps_positions() {
                            p.positions.push(pos)
                        } else {
                            p.positions
                        },
                    },
                ),
            },
            None => self,
        }
    }

    pub open spec fn close_doc(self) -> RecorderState {
        match self.open {
            Some(p) => RecorderState { finalized: self.finalized.push(p), open: None },
            None => self,
        }
    }

    /// Every document recorded so far, the open one last.
    pub open spec fn postings(self) -> Seq<Posting> {
        match self.open {
            Some(p) => self.finalized.push(p),
            None => self.finalized,
        }
    }

    /// Records one occurrence of the term in `doc`, closing the open document
    /// first when it is another one.
    pub open spec fn subscribe(self, kind: RecorderKind, doc: DocId, pos: u32) -> RecorderState {
        if self.current_doc() == Some(doc) {
            self.record_position(kind, pos)
        } else {
            self.close_doc().new_doc(doc).record_position(kind, pos)
        }
    }

    /// The recorder can take one more occurrence in `doc` with the term
    /// frequency and the number of documents staying in the range of `u32`.
    pub open spec fn accepts(self, kind: RecorderKind, doc: DocId) -> bool {
        match self.open {
            Some(p) => if p.doc == doc {
                kind.counts_occurrences() ==> p.term_freq < u32::MAX
            } else {
                self.finalized.len() + 1 < u32::MAX
            },
            None => self.finalized.len() < u32::MAX,
        }
    }

    /// A document is open, and the number of documents fits in `u32`.
    pub open spec fn in_use(self) -> bool {
        self.open is Some && self.finalized.len() < u32::MAX
    }
}

/// One document of a term's posting list, as handed to a serializer.
#[derive(Debug)]
pub struct DocPosting {
    pub doc: DocId,
    pub term_freq: u32,
    pub positions: Vec<u32>,
}

impl View for DocPosting {
    type V = Posting;

    open spec fn view(&self) -> Posting {
        Posting { doc: self.doc, term_freq: self.term_freq, positions: self.positions@ }
    }
}

/// The postings behind a vector of `DocPosting`.
pub open spec fn postings_of(v: Seq<DocPosting>) -> Seq<Posting> {
    Seq::new(v.len(), |i: int| v[i]@)
}

} // verus!
