//! Deleting documents: from the ids to delete to one deletion record for
//! each, which carries the document as it was.

use crate::bitmap::DocIds;
use crate::context::Error;
use vstd::prelude::*;

verus! {

/// The record of a deletion: the document's id and the document as it was
/// before.
pub struct Deletion {
    pub docid: u32,
    pub current: Vec<u8>,
}

impl Deletion {
    pub fn create(docid: u32, current: Vec<u8>) -> (deletion: Self)
        ensures
            deletion.docid == docid,
            deletion.current == current,
    {
        Deletion { docid, current }
    }

    pub fn docid(&self) -> (docid: u32)
        ensures
            docid == self.docid,
    {
        self.docid
    }

    pub fn current(&self) -> (current: &Vec<u8>)
        ensures
            *current == self.current,
    {
        &self.current
    }
}

/// The record of a replaced document: as it was, and as it is to be.
pub struct Update {
    pub docid: u32,
    pub current: Vec<u8>,
    pub new: Vec<u8>,
}

/// The record of a new document.
pub struct Insertion {
    pub docid: u32,
    pub new: Vec<u8>,
}

/// What happens to one document.
pub enum DocumentChange {
    Deletion(Deletion),
    Update(Update),
    Insertion(Insertion),
}

/// The stored documents, as the deletion reads them: each with its id.
pub struct Index {
    pub documents: Vec<(u32, Vec<u8>)>,
}

/// The first document stored under `docid`.
pub open spec fn stored_document(documents: Seq<(u32, Vec<u8>)>, docid: u32) -> Option<Seq<u8>>
    decreases documents.len(),
{
    if documents.len() == 0 {
        None
    } else if documents.first().0 == docid {
        Some(documents.first().1@)
    } else {
        stored_document(documents.drop_first(), docid)
    }
}

/// A copy of a document.
pub fn copy_document(document: &Vec<u8>) -> (copy: Vec<u8>)
    ensures
        copy@ == document@,
{
    let mut copy: Vec<u8> = Vec::new();
    let mut i: usize = 0;
    while i < document.len()
        invariant
            i <= document.len(),
            copy@ == document@.take(i as int),
        decreases document.len() - i,
    {
        copy.push(document[i]);
        proof {
            assert(document@.take(i + 1) =~= document@.take(i as int).push(document@[i as int]));
        }
        i += 1;
    }
    proof {
        assert(document@.take(document@.len() as int) =~= document@);
    }
    copy
}

impl Index {
    pub open spec fn document_of(&self, docid: u32) -> Option<Seq<u8>> {
        stored_document(self.documents@, docid)
    }

    pub fn new() -> (index: Self)
        ensures
            index.documents@.len() == 0,
    {
        Index { documents: Vec::new() }
    }

    /// The document stored under `docid`, where there is one.
    pub fn document(&self, docid: u32) -> (document: Option<&Vec<u8>>)
        ensures
            match document {
                Some(stored) => self.document_of(docid) == Some(stored@),
                None => self.document_of(docid) is None,
            },
    {
        let mut i: usize = 0;
        proof {
            assert(self.documents@.skip(0) =~= self.documents@);
        }
        while i < self.documents.len()
            invariant
                i <= self.documents.len(),
                stored_document(self.documents@, docid) == stored_document(
                    self.documents@.skip(i as int),
                    docid,
                ),
            decreases self.documents.len() - i,
        {
            proof {
                let rest = self.documents@.skip(i as int);
                assert(rest.first() == self.documents@[i as int]);
                assert(rest.drop_first() =~= self.documents@.skip(i + 1));
            }
            if self.documents[i].0 == docid {
                return Some(&self.documents[i].1);
            }
            i += 1;
        }
        None
    }
}

/// The record that deleting `docid` gives when the index holds `current`
/// under it: a deletion with the document as it was, or an error where the
/// index holds no such document.
pub open spec fn is_deletion_of(
    change: Result<DocumentChange, Error>,
    docid: u32,
    current: Option<Seq<u8>>,
) -> bool {
    match current {
        Some(document) => change matches Ok(DocumentChange::Deletion(deletion)) && deletion.docid
            == docid && deletion.current@ == document,
        None => change matches Err(error) && error == (Error::UnknownInternalDocumentId {
            document_id: docid,
        }),
    }
}

/// The documents that are to be deleted.
pub struct DocumentDeletion {
    pub to_delete: DocIds,
}

impl DocumentDeletion {
    pub fn new() -> (deletion: Self)
        ensures
            deletion.to_delete@ == Set::<u32>::empty(),
    {
        Self { to_delete: DocIds::new() }
    }

    /// Adds documents to those that are to be deleted.
    pub fn delete_documents_by_docids(&mut self, docids: DocIds)
        ensures
            final(self).to_delete@ == old(self).to_delete@.union(docids@),
    {
        self.to_delete.union_with(docids);
    }

    /// The record of the deletion of one document, given what the index holds
    /// under its id.
    pub fn document_change(docid: u32, current: Option<&Vec<u8>>) -> (change: Result<
        DocumentChange,
        Error,
    >)
        ensures
            is_deletion_of(
                change,
                docid,
                match current {
                    Some(document) => Some(document@),
                    None => None,
                },
            ),
    {
        match current {
            Some(document) => Ok(
                DocumentChange::Deletion(Deletion::create(docid, copy_document(document))),
            ),
            None => Err(Error::UnknownInternalDocumentId { document_id: docid }),
        }
    }

    /// One record for each document that is to be deleted, by ascending id.
    /// The record of a document that the index does not hold is an error,
    /// which leaves the other records as they are.
    pub fn document_changes(self, index: &Index) -> (changes: Vec<(u32, Result<DocumentChange, Error>)>)
        ensures
            forall|i: int, j: int|
                0 <= i < j < changes@.len() ==> changes@[i].0 < changes@[j].0,
            forall|docid: u32|
                self.to_delete@.contains(docid) <==> exists|i: int|
                    0 <= i < changes@.len() && (#[trigger] changes@[i]).0 == docid,
            forall|i: int|
                0 <= i < changes@.len() ==> is_deletion_of(
                    (#[trigger] changes@[i]).1,
                    changes@[i].0,
                    index.document_of(changes@[i].0),
                ),
    {
        let ids = self.to_delete.values();
        let mut changes: Vec<(u32, Result<DocumentChange, Error>)> = Vec::new();
        let mut i: usize = 0;
        while i < ids.len()
            invariant
                i <= ids.len(),
                changes@.len() == i,
                forall|k: int| 0 <= k < i ==> (#[trigger] changes@[k]).0 == ids@[k],
                forall|k: int|
                    0 <= k < i ==> is_deletion_of(
                        (#[trigger] changes@[k]).1,
                        ids@[k],
                        index.document_of(ids@[k]),
                    ),
            decreases ids.len() - i,
        {
            let docid = ids[i];
            let change = Self::document_change(docid, index.document(docid));
            changes.push((docid, change));
            i += 1;
        }
        proof {
            assert forall|docid: u32|
                self.to_delete@.contains(docid) <==> exists|i: int|
                    0 <= i < changes@.len() && (#[trigger] changes@[i]).0 == docid by {
                if self.to_delete@.contains(docid) {
                    assert(ids@.to_set().contains(docid));
                    let k = choose|k: int| 0 <= k < ids@.len() && ids@[k] == docid;
                    assert(changes@[k].0 == docid);
                }
                if exists|i: int| 0 <= i < changes@.len() && (#[trigger] changes@[i]).0 == docid {
                    let k = choose|k: int| 0 <= k < changes@.len() && (#[trigger] changes@[k]).0 == docid;
                    assert(ids@[k] == docid);
                    assert(ids@.contains(docid));
                }
            }
        }
        changes
    }
}

} // verus!
