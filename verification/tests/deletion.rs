use ranking_graph::context::Error;
use ranking_graph::document_deletion::{
    copy_document, Deletion, DocumentChange, DocumentDeletion, Index,
};
use ranking_graph::bitmap::DocIds;

fn ids(docids: &[u32]) -> DocIds {
    DocIds::from_values(&docids.to_vec())
}

fn index_of(documents: &[(u32, &str)]) -> Index {
    let mut index = Index::new();
    for (docid, document) in documents {
        index.documents.push((*docid, document.as_bytes().to_vec()));
    }
    index
}

#[test]
fn a_new_deletion_deletes_nothing() {
    let deletion = DocumentDeletion::new();
    assert!(deletion.to_delete.is_empty());
    assert!(deletion.document_changes(&Index::new()).is_empty());
}

#[test]
fn ids_to_delete_add_up() {
    let mut deletion = DocumentDeletion::new();
    deletion.delete_documents_by_docids(ids(&[10, 20]));
    assert_eq!(deletion.to_delete.values(), vec![10, 20]);
    deletion.delete_documents_by_docids(ids(&[5, 20, 100_000]));
    assert_eq!(deletion.to_delete.values(), vec![5, 10, 20, 100_000]);
    deletion.delete_documents_by_docids(ids(&[]));
    assert_eq!(deletion.to_delete.len(), 4);
}

#[test]
fn each_requested_id_gets_one_deletion_with_its_document() {
    let index = index_of(&[(10, "{\"id\":\"a\"}"), (20, "{\"id\":\"b\"}"), (30, "{\"id\":\"c\"}")]);
    let mut deletion = DocumentDeletion::new();
    deletion.delete_documents_by_docids(ids(&[10, 20]));
    let changes = deletion.document_changes(&index);
    assert_eq!(changes.len(), 2);
    let mut seen = Vec::new();
    for (docid, change) in &changes {
        match change {
            Ok(DocumentChange::Deletion(deletion)) => {
                assert_eq!(deletion.docid(), *docid);
                let expected = if *docid == 10 { "{\"id\":\"a\"}" } else { "{\"id\":\"b\"}" };
                assert_eq!(deletion.current(), &expected.as_bytes().to_vec());
                seen.push(deletion.docid());
            }
            _ => panic!("a deletion was expected"),
        }
    }
    seen.sort();
    assert_eq!(seen, vec![10, 20]);
}

#[test]
fn a_missing_document_fails_its_own_record_only() {
    let index = index_of(&[(10, "a"), (30, "c")]);
    let mut deletion = DocumentDeletion::new();
    deletion.delete_documents_by_docids(ids(&[10, 20, 30]));
    let changes = deletion.document_changes(&index);
    assert_eq!(changes.iter().map(|(docid, _)| *docid).collect::<Vec<u32>>(), vec![10, 20, 30]);
    assert!(matches!(&changes[0].1, Ok(DocumentChange::Deletion(d)) if d.current == b"a".to_vec()));
    match &changes[1].1 {
        Err(error) => {
            assert!(matches!(error, Error::UnknownInternalDocumentId { document_id: 20 }));
            assert!(error.same(&Error::UnknownInternalDocumentId { document_id: 20 }));
            assert!(!error.same(&Error::UnknownInternalDocumentId { document_id: 21 }));
            assert!(!error.same(&Error::Decoding));
            assert_eq!(error.message(), "the document to delete is not in the index");
        }
        Ok(_) => panic!("the document is not in the index"),
    }
    assert!(matches!(&changes[2].1, Ok(DocumentChange::Deletion(d)) if d.current == b"c".to_vec()));
}

#[test]
fn one_record_from_what_the_index_holds() {
    let document = b"doc".to_vec();
    match DocumentDeletion::document_change(7, Some(&document)) {
        Ok(DocumentChange::Deletion(deletion)) => {
            assert_eq!(deletion.docid, 7);
            assert_eq!(deletion.current, document);
        }
        _ => panic!("a deletion was expected"),
    }
    assert!(matches!(
        DocumentDeletion::document_change(7, None),
        Err(Error::UnknownInternalDocumentId { document_id: 7 })
    ));
}

#[test]
fn the_index_returns_the_first_document_under_an_id() {
    let index = index_of(&[(1, "one"), (2, "two"), (1, "uno")]);
    assert_eq!(index.document(1), Some(&b"one".to_vec()));
    assert_eq!(index.document(2), Some(&b"two".to_vec()));
    assert_eq!(index.document(3), None);
    assert_eq!(Index::new().document(1), None);
}

#[test]
fn deletion_records_hold_what_they_were_made_with() {
    let deletion = Deletion::create(42, vec![1, 2, 3]);
    assert_eq!(deletion.docid(), 42);
    assert_eq!(deletion.current(), &vec![1, 2, 3]);
    assert_eq!(copy_document(&vec![9, 8, 7]), vec![9, 8, 7]);
    assert_eq!(copy_document(&vec![]), Vec::<u8>::new());
}
