use discovery_engine_core::stack::{
    retain_top, validate_documents_stack_id, DocumentId, StackDocument, StackDocuments, StackError,
    StackId,
};

fn doc(id: u128, stack_id: StackId) -> StackDocument {
    StackDocument { id: DocumentId(id), stack_id }
}

#[test]
fn test_stack_validate_documents_stack_id_ok() {
    let stack_id = StackId::default();
    let doc_1 = doc(0, stack_id);
    let doc_2 = doc(1, stack_id);
    assert!(validate_documents_stack_id(&[], stack_id).is_ok());
    assert!(validate_documents_stack_id(&[doc_1], stack_id).is_ok());
    assert!(validate_documents_stack_id(&[doc_1, doc_2], stack_id).is_ok());
}

#[test]
fn test_stack_validate_documents_stack_id_ko() {
    let stack_id_ok = StackId::default();
    let stack_id_ko = StackId(stack_id_ok.0 + 1);
    let doc_ok = doc(0, stack_id_ok);
    let doc_ko = doc(1, stack_id_ko);
    let check = |docs: &[StackDocument]| {
        assert_eq!(
            validate_documents_stack_id(docs, stack_id_ok),
            Err(StackError::InvalidDocument {
                document_id: doc_ko.id,
                document_stack_id: doc_ko.stack_id,
                stack_id: stack_id_ok,
            })
        );
    };
    check(&[doc_ko]);
    check(&[doc_ko, doc_ok]);
    check(&[doc_ok, doc_ko]);
    check(&[doc_ok, doc_ok, doc_ko]);
    check(&[doc_ok, doc_ko, doc_ok]);
}

#[test]
fn stack_names() {
    assert_eq!(StackId::exploration().name(), Some("Exploration"));
    assert_eq!(StackId::personalized_news().name(), Some("PersonalizedNews"));
    assert_eq!(StackId::breaking_news().name(), Some("BreakingNews"));
    assert_eq!(StackId::trusted_news().name(), Some("TrustedNews"));
    assert_eq!(StackId::nil().name(), None);
    assert_eq!(StackId::exploration().0, 0x77cf9280_bb93_4158_b660_8732927e0dcc);
    assert!(StackId::nil().is_nil());
    assert!(!StackId::exploration().is_nil());
}

#[test]
fn retain_top_hands_back_the_oldest() {
    let mut docs = vec![1, 2, 3, 4, 5];
    assert_eq!(retain_top(&mut docs, 2), Some(vec![1, 2, 3]));
    assert_eq!(docs, vec![4, 5]);
    assert_eq!(retain_top(&mut docs, 2), None);
    assert_eq!(docs, vec![4, 5]);
}

fn entries(docs: &[StackDocument]) -> Vec<(StackDocument, &'static str)> {
    docs.iter().map(|d| (*d, "resource")).collect()
}

#[test]
fn test_stack_new_from_default() {
    assert!(StackDocuments::<()>::new(StackId::default(), vec![]).is_ok());
}

#[test]
fn test_stack_new_valid_documents() {
    let stack_id = StackId::default();
    let doc_1 = doc(0, stack_id);
    let doc_2 = doc(1, stack_id);
    assert!(StackDocuments::new(stack_id, entries(&[])).is_ok());
    assert!(StackDocuments::new(stack_id, entries(&[doc_1])).is_ok());
    assert!(StackDocuments::new(stack_id, entries(&[doc_1, doc_2])).is_ok());
}

#[test]
fn test_stack_new_invalid_documents() {
    let stack_id_ok = StackId::default();
    let stack_id_ko = StackId(stack_id_ok.0 + 1);
    let doc_ok = doc(0, stack_id_ok);
    let doc_ko = doc(1, stack_id_ko);
    let check = |docs: &[StackDocument]| {
        assert!(matches!(
            StackDocuments::new(stack_id_ok, entries(docs)),
            Err(StackError::InvalidDocument { document_id, document_stack_id, stack_id })
                if document_id == doc_ko.id && document_stack_id == doc_ko.stack_id && stack_id == stack_id_ok
        ));
    };
    check(&[doc_ko]);
    check(&[doc_ko, doc_ok]);
    check(&[doc_ok, doc_ko]);
    check(&[doc_ok, doc_ok, doc_ko]);
    check(&[doc_ok, doc_ko, doc_ok]);
}

#[test]
fn stack_update_merges_filters_and_refuses_foreign_documents() {
    let id = StackId::breaking_news();
    let mut stack = StackDocuments::new(id, vec![(doc(1, id), 'a'), (doc(2, id), 'b')]).unwrap();
    assert_eq!(stack.len(), 2);
    assert!(!stack.is_empty());

    let foreign = vec![(doc(3, id), 'c'), (doc(4, StackId::exploration()), 'd')];
    assert_eq!(
        stack.update(foreign, &vec![]),
        Err(StackError::InvalidDocument {
            document_id: DocumentId(4),
            document_stack_id: StackId::exploration(),
            stack_id: id,
        })
    );
    assert_eq!(stack.len(), 2);

    // the second document is too similar; the one beyond the flags is kept
    let new = vec![(doc(3, id), 'c'), (doc(4, id), 'd')];
    assert_eq!(stack.update(new, &vec![true, false, true]), Ok(()));
    let kept: Vec<char> = stack.as_slice().iter().map(|(_, c)| *c).collect();
    assert_eq!(kept, vec!['a', 'c', 'd']);

    stack.reverse();
    let kept: Vec<char> = stack.as_slice().iter().map(|(_, c)| *c).collect();
    assert_eq!(kept, vec!['d', 'c', 'a']);

    assert_eq!(stack.retain_top(2).map(|v| v.len()), Some(1));
    stack.retain_flagged(&vec![false, true]);
    let kept: Vec<char> = stack.as_slice().iter().map(|(_, c)| *c).collect();
    assert_eq!(kept, vec!['a']);

    let drained = stack.drain_documents();
    assert_eq!(drained.len(), 1);
    assert!(stack.is_empty());
    assert_eq!(stack.id(), id);
}
