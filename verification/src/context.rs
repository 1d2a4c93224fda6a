//! The search context: the interners of one search request and the postings
//! that were read for it.

use crate::bitmap::DocIds;
use crate::interner::{DedupInterner, Interned};
use crate::query_graph::Phrase;
use vstd::prelude::*;

verus! {

/// What can go wrong in the ranking core.
#[derive(Debug, Clone, Copy)]
pub enum Error {
    /// The stored postings of a word are not a bitmap.
    Decoding,
    /// A document that was to be deleted is not in the index.
    UnknownInternalDocumentId { document_id: u32 },
}

impl Error {
    pub fn same(&self, other: &Self) -> (same: bool)
        ensures
            same == (*self == *other),
    {
        match (*self, *other) {
            (Error::Decoding, Error::Decoding) => true,
            (
                Error::UnknownInternalDocumentId { document_id: a },
                Error::UnknownInternalDocumentId { document_id: b },
            ) => a == b,
            _ => false,
        }
    }

    /// The message of the error.
    pub fn message(&self) -> (message: String)
        ensures
            *self is Decoding ==> message@ == "stored postings could not be decoded"@,
            *self is UnknownInternalDocumentId ==> message@
                == "the document to delete is not in the index"@,
    {
        match self {
            Error::Decoding => "stored postings could not be decoded".to_string(),
            Error::UnknownInternalDocumentId { .. } => {
                "the document to delete is not in the index".to_string()
            },
        }
    }
}

/// The interners and postings of one search request. Nothing in it is global:
/// it is handed to every function that resolves a condition.
pub struct SearchContext {
    pub word_interner: DedupInterner<String>,
    pub phrase_interner: DedupInterner<Phrase>,
    /// The serialized postings of each word, by the word's handle.
    pub db_word_docids: Vec<Option<Vec<u8>>>,
    /// The postings of each phrase, by the phrase's handle.
    pub phrase_docids: Vec<Option<DocIds>>,
}

impl SearchContext {
    /// The stored bytes of a word's postings; `None` for a word without
    /// postings.
    pub open spec fn word_bytes(&self, word: Interned<String>) -> Option<Seq<u8>> {
        if word.idx < self.db_word_docids@.len() {
            match self.db_word_docids@[word.idx as int] {
                Some(bytes) => Some(bytes@),
                None => None,
            }
        } else {
            None
        }
    }

    /// The documents that hold a phrase; empty for a phrase without postings.
    pub open spec fn phrase_postings(&self, phrase: Interned<Phrase>) -> Set<u32> {
        if phrase.idx < self.phrase_docids@.len() {
            match self.phrase_docids@[phrase.idx as int] {
                Some(bitmap) => bitmap@,
                None => Set::empty(),
            }
        } else {
            Set::empty()
        }
    }

    /// The context of a new search request: no word and no phrase is interned
    /// yet, and no postings are recorded.
    pub fn new() -> (ctx: Self)
        ensures
            ctx.word_interner.wf(),
            ctx.word_interner.stable_store@ == Seq::<String>::empty(),
            ctx.phrase_interner.wf(),
            ctx.phrase_interner.stable_store@ == Seq::<Phrase>::empty(),
            ctx.db_word_docids@ == Seq::<Option<Vec<u8>>>::empty(),
            ctx.phrase_docids@ == Seq::<Option<DocIds>>::empty(),
            forall|word: Interned<String>| ctx.word_bytes(word) is None,
            forall|phrase: Interned<Phrase>| ctx.phrase_postings(phrase) == Set::<u32>::empty(),
    {
        SearchContext {
            word_interner: DedupInterner::new(),
            phrase_interner: DedupInterner::new(),
            db_word_docids: Vec::new(),
            phrase_docids: Vec::new(),
        }
    }

    /// Records the serialized postings of a word, in place of any earlier ones.
    pub fn set_word_docids(&mut self, word: Interned<String>, bytes: Vec<u8>)
        ensures
            final(self).word_bytes(word) == Some(bytes@),
            forall|other: Interned<String>|
                other != word ==> final(self).word_bytes(other) == old(self).word_bytes(other),
            final(self).word_interner == old(self).word_interner,
            final(self).phrase_interner == old(self).phrase_interner,
            final(self).phrase_docids == old(self).phrase_docids,
    {
        while self.db_word_docids.len() <= word.idx
            invariant
                self.word_interner == old(self).word_interner,
                self.phrase_interner == old(self).phrase_interner,
                self.phrase_docids == old(self).phrase_docids,
                forall|other: Interned<String>|
                    self.word_bytes(other) == old(self).word_bytes(other),
            decreases word.idx + 1 - self.db_word_docids.len(),
        {
            let ghost before = *self;
            self.db_word_docids.push(None);
            proof {
                assert forall|other: Interned<String>|
                    self.word_bytes(other) == before.word_bytes(other) by {
                    if other.idx < before.db_word_docids@.len() {
                        assert(self.db_word_docids@[other.idx as int]
                            == before.db_word_docids@[other.idx as int]);
                    }
                }
            }
        }
        let ghost before = *self;
        self.db_word_docids[word.idx] = Some(bytes);
        proof {
            assert forall|other: Interned<String>| other != word implies self.word_bytes(other)
                == before.word_bytes(other) by {
                if other.idx < before.db_word_docids@.len() {
                    assert(other.idx != word.idx);
                    assert(self.db_word_docids@[other.idx as int]
                        == before.db_word_docids@[other.idx as int]);
                }
            }
        }
    }

    /// Records the postings of a phrase, in place of any earlier ones.
    pub fn set_phrase_docids(&mut self, phrase: Interned<Phrase>, postings: DocIds)
        ensures
            final(self).phrase_postings(phrase) == postings@,
            forall|other: Interned<Phrase>|
                other != phrase ==> final(self).phrase_postings(other) == old(
                    self,
                ).phrase_postings(other),
            final(self).word_interner == old(self).word_interner,
            final(self).phrase_interner == old(self).phrase_interner,
            final(self).db_word_docids == old(self).db_word_docids,
    {
        while self.phrase_docids.len() <= phrase.idx
            invariant
                self.word_interner == old(self).word_interner,
                self.phrase_interner == old(self).phrase_interner,
                self.db_word_docids == old(self).db_word_docids,
                forall|other: Interned<Phrase>|
                    self.phrase_postings(other) == old(self).phrase_postings(other),
            decreases phrase.idx + 1 - self.phrase_docids.len(),
        {
            let ghost before = *self;
            self.phrase_docids.push(None);
            proof {
                assert forall|other: Interned<Phrase>|
                    self.phrase_postings(other) == before.phrase_postings(other) by {
                    if other.idx < before.phrase_docids@.len() {
                        assert(self.phrase_docids@[other.idx as int]
                            == before.phrase_docids@[other.idx as int]);
                    }
                }
            }
        }
        let ghost before = *self;
        self.phrase_docids[phrase.idx] = Some(postings);
        proof {
            assert forall|other: Interned<Phrase>| other != phrase implies self.phrase_postings(
                other,
            ) == before.phrase_postings(other) by {
                if other.idx < before.phrase_docids@.len() {
                    assert(other.idx != phrase.idx);
                    assert(self.phrase_docids@[other.idx as int]
                        == before.phrase_docids@[other.idx as int]);
                }
            }
        }
    }

    /// The stored bytes of a word's postings, where it has any.
    pub fn get_db_word_docids(&self, word: Interned<String>) -> (bytes: Option<&Vec<u8>>)
        ensures
            match bytes {
                Some(stored) => self.word_bytes(word) == Some(stored@),
                None => self.word_bytes(word) is None,
            },
    {
        if word.idx < self.db_word_docids.len() {
            self.db_word_docids[word.idx].as_ref()
        } else {
            None
        }
    }

    /// The documents that hold a phrase.
    pub fn get_phrase_docids(&self, phrase: Interned<Phrase>) -> (postings: DocIds)
        ensures
            postings@ == self.phrase_postings(phrase),
    {
        if phrase.idx < self.phrase_docids.len() {
            match &self.phrase_docids[phrase.idx] {
                Some(bitmap) => bitmap.clone(),
                None => DocIds::new(),
            }
        } else {
            DocIds::new()
        }
    }
}

} // verus!
