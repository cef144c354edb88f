//! The mathematical model of subtitle data: what a record and a document
//! are, apart from how they are stored.

use vstd::prelude::*;

verus! {

/// One timed caption.
pub ghost struct Record {
    /// The sequence number that the source gave the caption.
    pub index: nat,
    /// The timecode at which the caption appears, as written in the source.
    pub start: Seq<char>,
    /// The timecode at which the caption disappears, as written in the source.
    pub end: Seq<char>,
    /// The caption's body; it may span several lines.
    pub text: Seq<char>,
}

/// An ordered collection of records with an optional language tag.
pub ghost struct Document {
    /// The records, in file order.
    pub records: Seq<Record>,
    /// The language of the captions, where it is known.
    pub language: Option<Seq<char>>,
}

impl Record {
    /// The same caption with another body.
    pub open spec fn with_text(self, text: Seq<char>) -> Record {
        Record { index: self.index, start: self.start, end: self.end, text }
    }
}

/// The records of each document.
pub open spec fn groups_of(docs: Seq<Document>) -> Seq<Seq<Record>> {
    docs.map_values(|d: Document| d.records)
}

/// The records of all the documents, document after document.
pub open spec fn all_records(docs: Seq<Document>) -> Seq<Record> {
    groups_of(docs).flatten()
}

/// The first language tag among the documents, if any has one.
pub open spec fn first_language(docs: Seq<Document>) -> Option<Seq<char>>
    decreases docs.len(),
{
    if docs.len() == 0 {
        None
    } else if first_language(docs.drop_last()) is Some {
        first_language(docs.drop_last())
    } else {
        docs.last().language
    }
}

/// The records of one more document come after those of the others.
pub proof fn lemma_all_records_push(docs: Seq<Document>, d: Document)
    ensures
        all_records(docs.push(d)) == all_records(docs) + d.records,
{
    assert(groups_of(docs.push(d)) =~= groups_of(docs).push(d.records));
    groups_of(docs).lemma_flatten_push(d.records);
}

} // verus!
