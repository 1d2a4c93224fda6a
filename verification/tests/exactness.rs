use ranking_graph::bitmap::{docids_within, DocIds};
use ranking_graph::context::{Error, SearchContext};
use ranking_graph::exactness::{compute_docids, ExactnessCondition, ExactnessGraph};
use ranking_graph::interner::{DedupInterner, Internable, Interned};
use ranking_graph::query_graph::{ExactTerm, LocatedQueryTermSubset, Phrase, QueryTermSubset};
use ranking_graph::ranking_rule_graph::RankingRuleGraphTrait;
use roaring::RoaringBitmap;
use std::collections::HashSet;

fn bitmap_of(docids: &[u32]) -> DocIds {
    DocIds::from_values(&docids.to_vec())
}

fn serialized(docids: &[u32]) -> Vec<u8> {
    let mut bytes = Vec::new();
    bitmap_of(docids).to_bitmap().serialize_into(&mut bytes).unwrap();
    bytes
}

fn values(ids: &DocIds) -> Vec<u32> {
    ids.values()
}

/// Two containers with the keys 1 and 0, in that order, one value each.
fn out_of_order_bytes() -> Vec<u8> {
    vec![
        0x3a, 0x30, 0, 0, 2, 0, 0, 0, // cookie, two containers
        1, 0, 0, 0, 0, 0, 0, 0, // key 1 with one value, key 0 with one value
        24, 0, 0, 0, 26, 0, 0, 0, // offsets
        0, 0, 0, 0, // the value 0 in each
    ]
}

/// One run container without runs.
fn empty_container_bytes() -> Vec<u8> {
    vec![0x3b, 0x30, 0, 0, 1, 0, 0, 0, 0, 0, 0]
}

fn word_term(word: Interned<String>) -> LocatedQueryTermSubset {
    LocatedQueryTermSubset {
        term_subset: QueryTermSubset { phrase: None, exact: Some(word) },
        positions: (0, 0),
        term_ids: (0, 0),
    }
}

#[test]
fn exact_word_resolves_to_its_postings() {
    let mut ctx = SearchContext::new();
    let cat = ctx.word_interner.insert("cat".to_string());
    ctx.set_word_docids(cat, serialized(&[1, 2, 5]));
    let condition = ExactnessCondition::ExactInAttribute(word_term(cat));
    let universe = bitmap_of(&[1, 2, 3, 4, 5]);
    let computed = ExactnessGraph::resolve_condition(&ctx, &condition, &universe).unwrap();
    assert_eq!(values(&computed.docids), vec![1, 2, 5]);
    assert_eq!(computed.universe_len, 5);
    assert!(computed.start_term_subset.is_none());
    assert!(computed.end_term_subset.same(&word_term(cat)));
}

#[test]
fn skip_passes_the_universe_through() {
    let mut ctx = SearchContext::new();
    let cat = ctx.word_interner.insert("cat".to_string());
    ctx.set_word_docids(cat, serialized(&[1, 2, 5]));
    let condition = ExactnessCondition::Skip(word_term(cat));
    let universe = bitmap_of(&[1, 2, 3, 4, 5]);
    let computed = ExactnessGraph::resolve_condition(&ctx, &condition, &universe).unwrap();
    assert_eq!(values(&computed.docids), vec![1, 2, 3, 4, 5]);
    assert_eq!(computed.universe_len, 5);
}

#[test]
fn exact_postings_are_cut_to_the_universe() {
    let mut ctx = SearchContext::new();
    let cat = ctx.word_interner.insert("cat".to_string());
    ctx.set_word_docids(cat, serialized(&[1, 2, 5, 9, 70_000, 200_000]));
    let universe = bitmap_of(&[2, 3, 5, 70_000]);
    let found = compute_docids(&ctx, &word_term(cat), &universe).unwrap();
    assert_eq!(values(&found), vec![2, 5, 70_000]);
    assert!(found.is_subset(&universe));
}

#[test]
fn absent_word_resolves_to_nothing() {
    let mut ctx = SearchContext::new();
    let cat = ctx.word_interner.insert("cat".to_string());
    let dog = ctx.word_interner.insert("dog".to_string());
    ctx.set_word_docids(cat, serialized(&[1, 2, 5]));
    let condition = ExactnessCondition::ExactInAttribute(word_term(dog));
    let universe = bitmap_of(&[1, 2, 3, 4, 5]);
    let computed = ExactnessGraph::resolve_condition(&ctx, &condition, &universe);
    let computed = computed.unwrap();
    assert!(computed.docids.is_empty());
    assert_eq!(computed.universe_len, 5);
}

#[test]
fn term_without_exact_interpretation_resolves_to_nothing() {
    let ctx = SearchContext::new();
    let dest = LocatedQueryTermSubset {
        term_subset: QueryTermSubset { phrase: None, exact: None },
        positions: (1, 1),
        term_ids: (1, 1),
    };
    let found = compute_docids(&ctx, &dest, &bitmap_of(&[1, 2, 3])).unwrap();
    assert!(found.is_empty());
}

#[test]
fn phrase_resolves_to_its_postings() {
    let mut ctx = SearchContext::new();
    let big = ctx.word_interner.insert("big".to_string());
    let cat = ctx.word_interner.insert("cat".to_string());
    let phrase = ctx.phrase_interner.insert(Phrase { words: vec![big, cat] });
    ctx.set_phrase_docids(phrase, bitmap_of(&[3, 4, 8]));
    ctx.set_word_docids(cat, serialized(&[1]));
    let dest = LocatedQueryTermSubset {
        term_subset: QueryTermSubset { phrase: Some(phrase), exact: Some(cat) },
        positions: (0, 1),
        term_ids: (0, 1),
    };
    assert!(matches!(dest.term_subset.exact_term(), Some(ExactTerm::Phrase(p)) if p.idx == phrase.idx));
    let found = compute_docids(&ctx, &dest, &bitmap_of(&[1, 2, 3, 4, 5])).unwrap();
    assert_eq!(values(&found), vec![3, 4]);
}

#[test]
fn phrase_without_postings_resolves_to_nothing() {
    let mut ctx = SearchContext::new();
    let big = ctx.word_interner.insert("big".to_string());
    let cat = ctx.word_interner.insert("cat".to_string());
    let phrase = ctx.phrase_interner.insert(Phrase { words: vec![big, cat] });
    let dest = LocatedQueryTermSubset {
        term_subset: QueryTermSubset { phrase: Some(phrase), exact: None },
        positions: (0, 1),
        term_ids: (0, 1),
    };
    let condition = ExactnessCondition::ExactInAttribute(dest);
    for universe in [bitmap_of(&[1, 2, 3, 4, 5]), bitmap_of(&[7]), bitmap_of(&[])] {
        let computed = ExactnessGraph::resolve_condition(&ctx, &condition, &universe).unwrap();
        assert!(computed.docids.is_empty());
        assert_eq!(computed.universe_len, universe.len());
    }
}

#[test]
fn undecodable_postings_are_an_error() {
    let mut ctx = SearchContext::new();
    let cat = ctx.word_interner.insert("cat".to_string());
    ctx.set_word_docids(cat, vec![1, 2, 3]);
    let condition = ExactnessCondition::ExactInAttribute(word_term(cat));
    let universe = bitmap_of(&[1, 2, 3, 4, 5]);
    match ExactnessGraph::resolve_condition(&ctx, &condition, &universe) {
        Err(error) => {
            assert!(matches!(error, Error::Decoding));
            assert!(error.same(&Error::Decoding));
            assert_eq!(error.message(), "stored postings could not be decoded");
        }
        Ok(_) => panic!("undecodable postings were resolved"),
    }
    // The relaxed condition does not read the postings.
    let skip = ExactnessCondition::Skip(word_term(cat));
    assert!(ExactnessGraph::resolve_condition(&ctx, &skip, &universe).is_ok());
}

#[test]
fn resolution_stays_inside_the_universe() {
    let mut ctx = SearchContext::new();
    let cat = ctx.word_interner.insert("cat".to_string());
    ctx.set_word_docids(cat, serialized(&[0, 1, 2, 5, 100, 65_536, 1_000_000]));
    let universes = [
        bitmap_of(&[]),
        bitmap_of(&[1]),
        bitmap_of(&[3, 4]),
        bitmap_of(&[0, 5, 65_536, 65_537]),
    ];
    for universe in universes {
        for condition in [
            ExactnessCondition::ExactInAttribute(word_term(cat)),
            ExactnessCondition::Skip(word_term(cat)),
        ] {
            let computed = ExactnessGraph::resolve_condition(&ctx, &condition, &universe).unwrap();
            assert!(computed.docids.is_subset(&universe));
        }
    }
}

#[test]
fn build_edges_gives_exact_then_skip() {
    let ctx = SearchContext::new();
    let mut interner: DedupInterner<ExactnessCondition> = DedupInterner::new();
    let cat: Interned<String> = Interned::from_raw(0);
    let dest = word_term(cat);
    let edges = ExactnessGraph::build_edges(&ctx, &mut interner, None, &dest).unwrap();
    assert_eq!(edges.len(), 2);
    assert_eq!(edges[0].0, 0);
    assert_eq!(edges[1].0, 1);
    assert!(interner.get(edges[0].1).same(&ExactnessCondition::ExactInAttribute(dest)));
    assert!(interner.get(edges[1].1).same(&ExactnessCondition::Skip(dest)));
    // The same step again gives the same handles and stores nothing new.
    let again = ExactnessGraph::build_edges(&ctx, &mut interner, Some(&dest), &dest).unwrap();
    assert_eq!(again[0].1.into_raw(), edges[0].1.into_raw());
    assert_eq!(again[1].1.into_raw(), edges[1].1.into_raw());
    assert_eq!(interner.len(), 2);
}

#[test]
fn conditions_differ_by_kind_and_term() {
    let cat = word_term(Interned::from_raw(0));
    let dog = word_term(Interned::from_raw(1));
    let exact_cat = ExactnessCondition::ExactInAttribute(cat);
    assert!(exact_cat.same(&ExactnessCondition::ExactInAttribute(cat)));
    assert!(!exact_cat.same(&ExactnessCondition::Skip(cat)));
    assert!(!exact_cat.same(&ExactnessCondition::ExactInAttribute(dog)));
    let mut moved = cat;
    moved.positions = (2, 2);
    assert!(!exact_cat.same(&ExactnessCondition::ExactInAttribute(moved)));
}

#[test]
fn the_criterion_is_a_value() {
    assert!(matches!(ExactnessGraph::Exactness, ExactnessGraph::Exactness));
}

#[test]
fn postings_with_containers_out_of_order_are_read_as_a_set() {
    let decoded = RoaringBitmap::deserialize_from(&out_of_order_bytes()[..]).unwrap();
    assert_eq!(decoded.iter().collect::<Vec<u32>>(), vec![65_536, 0]);
    let ids = DocIds::from_bitmap(&decoded);
    assert_eq!(ids.values(), vec![0, 65_536]);
    assert_eq!(ids.len(), 2);

    let mut ctx = SearchContext::new();
    let cat = ctx.word_interner.insert("cat".to_string());
    ctx.set_word_docids(cat, out_of_order_bytes());
    let universe = bitmap_of(&[0, 1, 65_536, 65_537]);
    let found = compute_docids(&ctx, &word_term(cat), &universe).unwrap();
    assert_eq!(values(&found), vec![0, 65_536]);
    let only_low = compute_docids(&ctx, &word_term(cat), &bitmap_of(&[0, 1])).unwrap();
    assert_eq!(values(&only_low), vec![0]);
}

#[test]
fn postings_with_an_empty_container_hold_nothing() {
    let decoded = RoaringBitmap::deserialize_from(&empty_container_bytes()[..]).unwrap();
    let ids = DocIds::from_bitmap(&decoded);
    assert!(ids.is_empty());
    assert_eq!(ids.len(), 0);
    assert!(ids.is_subset(&bitmap_of(&[])));

    let mut ctx = SearchContext::new();
    let cat = ctx.word_interner.insert("cat".to_string());
    ctx.set_word_docids(cat, empty_container_bytes());
    let condition = ExactnessCondition::ExactInAttribute(word_term(cat));
    let computed =
        ExactnessGraph::resolve_condition(&ctx, &condition, &bitmap_of(&[1, 2])).unwrap();
    assert!(computed.docids.is_empty());
}

#[test]
fn decoded_ids_are_cut_to_the_universe() {
    let universe = bitmap_of(&[2, 3, 5, 70_000]);
    assert_eq!(docids_within(&vec![5, 1, 70_000, 5, 9], &universe).values(), vec![5, 70_000]);
    assert!(docids_within(&vec![], &universe).is_empty());
    assert!(docids_within(&vec![1, 2], &bitmap_of(&[])).is_empty());
}

#[test]
fn conditions_compare_and_hash_by_their_content() {
    let cat = word_term(Interned::from_raw(0));
    let dog = word_term(Interned::from_raw(1));
    assert!(ExactnessCondition::Skip(cat) == ExactnessCondition::Skip(cat));
    assert!(ExactnessCondition::Skip(cat) != ExactnessCondition::ExactInAttribute(cat));
    assert!(ExactnessCondition::Skip(cat) != ExactnessCondition::Skip(dog));
    let mut seen = HashSet::new();
    assert!(seen.insert(ExactnessCondition::Skip(cat)));
    assert!(!seen.insert(ExactnessCondition::Skip(cat)));
    assert!(seen.insert(ExactnessCondition::ExactInAttribute(cat)));
    assert_eq!(seen.len(), 2);
}
