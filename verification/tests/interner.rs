use ranking_graph::bitmap::DocIds;
use ranking_graph::context::SearchContext;
use ranking_graph::interner::{same_handle, DedupInterner, Internable, Interned, MappedInterner};
use ranking_graph::query_graph::Phrase;

#[test]
fn inserting_twice_returns_the_same_handle() {
    let mut interner: DedupInterner<String> = DedupInterner::new();
    let first = interner.insert("cat".to_string());
    let second = interner.insert("cat".to_string());
    assert_eq!(first.into_raw(), second.into_raw());
    assert!(first.same(second));
    assert_eq!(interner.len(), 1);
}

#[test]
fn different_values_get_different_handles() {
    let mut interner: DedupInterner<String> = DedupInterner::new();
    let cat = interner.insert("cat".to_string());
    let dog = interner.insert("dog".to_string());
    let cat_again = interner.insert("cat".to_string());
    assert_eq!(cat.into_raw(), 0);
    assert_eq!(dog.into_raw(), 1);
    assert_eq!(cat_again.into_raw(), 0);
    assert!(!cat.same(dog));
    assert_eq!(interner.len(), 2);
    assert_eq!(interner.get(cat), "cat");
    assert_eq!(interner.get(dog), "dog");
}

#[test]
fn find_does_not_store() {
    let mut interner: DedupInterner<String> = DedupInterner::new();
    assert!(interner.find(&"cat".to_string()).is_none());
    assert_eq!(interner.len(), 0);
    let cat = interner.insert("cat".to_string());
    let found = interner.find(&"cat".to_string()).unwrap();
    assert_eq!(found.into_raw(), cat.into_raw());
    assert!(interner.find(&"dog".to_string()).is_none());
}

#[test]
fn handles_compare_by_index() {
    let a: Interned<String> = Interned::from_raw(3);
    let b: Interned<String> = Interned::from_raw(3);
    let c: Interned<String> = Interned::from_raw(4);
    assert!(a.same(b));
    assert!(!a.same(c));
    assert!(same_handle(Some(a), Some(b)));
    assert!(!same_handle(Some(a), Some(c)));
    assert!(!same_handle(Some(a), None));
    assert!(same_handle::<String>(None, None));
    let copy = a.clone();
    assert_eq!(copy.into_raw(), 3);
}

#[test]
fn phrases_are_interned_by_their_words() {
    let mut ctx = SearchContext::new();
    let big = ctx.word_interner.insert("big".to_string());
    let cat = ctx.word_interner.insert("cat".to_string());
    let first = ctx.phrase_interner.insert(Phrase { words: vec![big, cat] });
    let second = ctx.phrase_interner.insert(Phrase { words: vec![big, cat] });
    let reversed = ctx.phrase_interner.insert(Phrase { words: vec![cat, big] });
    let shorter = ctx.phrase_interner.insert(Phrase { words: vec![big] });
    assert_eq!(first.into_raw(), second.into_raw());
    assert_eq!(reversed.into_raw(), 1);
    assert_eq!(shorter.into_raw(), 2);
    assert!(Phrase { words: vec![] }.same(&Phrase { words: vec![] }));
    assert!(!Phrase { words: vec![big] }.same(&Phrase { words: vec![cat] }));
}

#[test]
fn mapped_interner_holds_one_value_per_handle() {
    let mut mapped: MappedInterner<String, u64> = MappedInterner::from_values(vec![10, 20, 30]);
    assert_eq!(mapped.len(), 3);
    assert_eq!(*mapped.get(Interned::from_raw(1)), 20);
    mapped.set(Interned::from_raw(1), 25);
    assert_eq!(*mapped.get(Interned::from_raw(0)), 10);
    assert_eq!(*mapped.get(Interned::from_raw(1)), 25);
    assert_eq!(*mapped.get(Interned::from_raw(2)), 30);
}

#[test]
fn bitmap_from_values_holds_exactly_the_values() {
    let bitmap = DocIds::from_values(&vec![5, 1, 70_000, 5, 2]);
    assert_eq!(bitmap.values(), vec![1, 2, 5, 70_000]);
    assert_eq!(bitmap.len(), 4);
    assert!(DocIds::from_values(&vec![]).is_empty());
    let copy = bitmap.clone();
    assert_eq!(copy.values(), vec![1, 2, 5, 70_000]);
    let mut grown = bitmap.clone();
    assert!(grown.insert(3));
    assert!(!grown.insert(3));
    assert_eq!(grown.values(), vec![1, 2, 3, 5, 70_000]);
    assert_eq!(bitmap.values(), vec![1, 2, 5, 70_000]);
    assert!(bitmap.is_subset(&grown));
    assert!(!grown.is_subset(&bitmap));
    grown.intersect_with(&DocIds::from_values(&vec![3, 5, 8]));
    assert_eq!(grown.values(), vec![3, 5]);
    grown.union_with(DocIds::from_values(&vec![8, 1]));
    assert_eq!(grown.values(), vec![1, 3, 5, 8]);
    assert_eq!(grown.to_bitmap().iter().collect::<Vec<_>>(), vec![1, 3, 5, 8]);
    assert_eq!(DocIds::from_bitmap(&grown.to_bitmap()).values(), vec![1, 3, 5, 8]);
}

#[test]
fn context_keeps_postings_by_handle() {
    let mut ctx = SearchContext::new();
    let cat = ctx.word_interner.insert("cat".to_string());
    let dog = ctx.word_interner.insert("dog".to_string());
    assert!(ctx.get_db_word_docids(cat).is_none());
    ctx.set_word_docids(dog, vec![7, 8]);
    assert!(ctx.get_db_word_docids(cat).is_none());
    assert_eq!(ctx.get_db_word_docids(dog), Some(&vec![7, 8]));
    ctx.set_word_docids(dog, vec![9]);
    ctx.set_word_docids(cat, vec![1]);
    assert_eq!(ctx.get_db_word_docids(dog), Some(&vec![9]));
    assert_eq!(ctx.get_db_word_docids(cat), Some(&vec![1]));

    let phrase = ctx.phrase_interner.insert(Phrase { words: vec![cat, dog] });
    assert!(ctx.get_phrase_docids(phrase).is_empty());
    let mut postings = DocIds::new();
    postings.insert(4);
    postings.insert(6);
    ctx.set_phrase_docids(phrase, postings);
    assert_eq!(ctx.get_phrase_docids(phrase).values(), vec![4, 6]);
    assert!(ctx.get_phrase_docids(Interned::from_raw(9)).is_empty());
}
