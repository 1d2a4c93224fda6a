use ranking_graph::cheapest_paths::{PathState, RankedPath};
use ranking_graph::condition_docids_cache::ConditionDocIdsCache;
use ranking_graph::context::{Error, SearchContext};
use ranking_graph::costs::{has_cost, insert_cost};
use ranking_graph::dead_ends_cache::DeadEndsCache;
use ranking_graph::exactness::{ExactnessCondition, ExactnessGraph};
use ranking_graph::interner::{Internable, Interned};
use ranking_graph::query_graph::{
    LocatedQueryTermSubset, Phrase, QueryGraph, QueryNode, QueryNodeData, QueryTermSubset,
};
use ranking_graph::ranking_rule_graph::{insert_edge, source_term, Edge, RankingRuleGraph};
use ranking_graph::bitmap::DocIds;

fn docs(docids: &[u32]) -> DocIds {
    DocIds::from_values(&docids.to_vec())
}

fn bytes_of(docids: &[u32]) -> Vec<u8> {
    let mut bytes = Vec::new();
    docs(docids).to_bitmap().serialize_into(&mut bytes).unwrap();
    bytes
}

fn term(word: Interned<String>, position: u16) -> LocatedQueryTermSubset {
    LocatedQueryTermSubset {
        term_subset: QueryTermSubset { phrase: None, exact: Some(word) },
        positions: (position, position),
        term_ids: (position as u8, position as u8),
    }
}

fn node(data: QueryNodeData, successors: &[usize]) -> QueryNode {
    QueryNode { data, successors: successors.iter().map(|n| Interned::from_raw(*n)).collect() }
}

/// start -> term -> ... -> end, one node per term.
fn chain(terms: &[LocatedQueryTermSubset]) -> QueryGraph {
    let mut nodes = vec![node(QueryNodeData::Start, &[1])];
    for (i, t) in terms.iter().enumerate() {
        nodes.push(node(QueryNodeData::Term(*t), &[i + 2]));
    }
    nodes.push(node(QueryNodeData::End, &[]));
    let end = nodes.len() - 1;
    QueryGraph::from_nodes(nodes, Interned::from_raw(0), Interned::from_raw(end)).unwrap()
}

fn summary(paths: &[RankedPath<ExactnessCondition>]) -> Vec<(u64, Vec<usize>, Vec<u32>)> {
    paths
        .iter()
        .map(|p| {
            (
                p.cost,
                p.conditions.iter().map(|c| c.into_raw()).collect(),
                p.docids.values(),
            )
        })
        .collect()
}

fn cat_context() -> (SearchContext, Interned<String>) {
    let mut ctx = SearchContext::new();
    let cat = ctx.word_interner.insert("cat".to_string());
    ctx.set_word_docids(cat, bytes_of(&[1, 2, 5]));
    (ctx, cat)
}

#[test]
fn exact_path_comes_before_skip_path() {
    let (ctx, cat) = cat_context();
    let graph = RankingRuleGraph::<ExactnessGraph>::build(&ctx, chain(&[term(cat, 0)])).unwrap();
    let paths = graph.ranked_paths(&ctx, &docs(&[1, 2, 3, 4, 5])).unwrap();
    assert_eq!(
        summary(&paths),
        vec![(0, vec![0], vec![1, 2, 5]), (1, vec![1], vec![1, 2, 3, 4, 5])]
    );
    let exact = graph.conditions_interner.get(paths[0].conditions[0]);
    assert!(exact.same(&ExactnessCondition::ExactInAttribute(term(cat, 0))));
    let skip = graph.conditions_interner.get(paths[1].conditions[0]);
    assert!(skip.same(&ExactnessCondition::Skip(term(cat, 0))));
}

#[test]
fn paths_come_by_ascending_cost() {
    let (mut ctx, cat) = cat_context();
    let dog = ctx.word_interner.insert("dog".to_string());
    ctx.set_word_docids(dog, bytes_of(&[2, 3]));
    let graph = RankingRuleGraph::<ExactnessGraph>::build(&ctx, chain(&[term(cat, 0), term(dog, 1)]))
        .unwrap();
    let paths = graph.ranked_paths(&ctx, &docs(&[1, 2, 3, 4, 5])).unwrap();
    assert_eq!(
        summary(&paths),
        vec![
            (0, vec![0, 2], vec![2]),
            (1, vec![0, 3], vec![1, 2, 5]),
            (1, vec![1, 2], vec![2, 3]),
            (2, vec![1, 3], vec![1, 2, 3, 4, 5]),
        ]
    );
    for pair in paths.windows(2) {
        assert!(pair[0].cost <= pair[1].cost);
    }
}

#[test]
fn two_runs_yield_the_same() {
    let (mut ctx, cat) = cat_context();
    let dog = ctx.word_interner.insert("dog".to_string());
    ctx.set_word_docids(dog, bytes_of(&[2, 3]));
    let graph = RankingRuleGraph::<ExactnessGraph>::build(&ctx, chain(&[term(cat, 0), term(dog, 1)]))
        .unwrap();
    let universe = docs(&[1, 2, 3, 5, 8]);
    let first = graph.ranked_paths(&ctx, &universe).unwrap();
    let second = graph.ranked_paths(&ctx, &universe).unwrap();
    assert_eq!(summary(&first), summary(&second));
    assert_eq!(first.len(), 4);
    // The same graph built again gives the same paths too.
    let rebuilt = RankingRuleGraph::<ExactnessGraph>::build(&ctx, chain(&[term(cat, 0), term(dog, 1)]))
        .unwrap();
    assert_eq!(summary(&rebuilt.ranked_paths(&ctx, &universe).unwrap()), summary(&first));
}

#[test]
fn every_path_stays_inside_the_universe_and_matches_something() {
    let (mut ctx, cat) = cat_context();
    let dog = ctx.word_interner.insert("dog".to_string());
    ctx.set_word_docids(dog, bytes_of(&[2, 3]));
    let graph = RankingRuleGraph::<ExactnessGraph>::build(&ctx, chain(&[term(cat, 0), term(dog, 1)]))
        .unwrap();
    for universe in [docs(&[1, 2, 3, 4, 5]), docs(&[1, 4]), docs(&[3]), docs(&[4]), docs(&[])] {
        let paths = graph.ranked_paths(&ctx, &universe).unwrap();
        for path in &paths {
            assert!(path.docids.is_subset(&universe));
            assert!(!path.docids.is_empty());
        }
        if universe.is_empty() {
            assert!(paths.is_empty());
        }
    }
    // In {1, 4} no document holds "dog": only the paths that skip it are left.
    assert_eq!(
        summary(&graph.ranked_paths(&ctx, &docs(&[1, 4])).unwrap()),
        vec![(1, vec![0, 3], vec![1]), (2, vec![1, 3], vec![1, 4])]
    );
}

#[test]
fn a_phrase_without_postings_is_a_dead_end() {
    let mut ctx = SearchContext::new();
    let big = ctx.word_interner.insert("big".to_string());
    let cat = ctx.word_interner.insert("cat".to_string());
    let phrase = ctx.phrase_interner.insert(Phrase { words: vec![big, cat] });
    let dest = LocatedQueryTermSubset {
        term_subset: QueryTermSubset { phrase: Some(phrase), exact: None },
        positions: (0, 1),
        term_ids: (0, 1),
    };
    let graph = RankingRuleGraph::<ExactnessGraph>::build(&ctx, chain(&[dest])).unwrap();
    let universe = docs(&[1, 2, 3, 4, 5]);
    let paths = graph.ranked_paths(&ctx, &universe).unwrap();
    assert_eq!(summary(&paths), vec![(1, vec![1], vec![1, 2, 3, 4, 5])]);

    let costs = graph.compute_costs();
    let mut resolved = ConditionDocIdsCache::new();
    let mut cache = DeadEndsCache::new();
    let cheapest =
        graph.paths_of_cost(&ctx, &universe, &costs, &mut resolved, &mut cache, 0).unwrap();
    assert!(cheapest.is_empty());
    let exact = graph.edges_of_node[0][0].condition.unwrap();
    assert!(cache.is_dead(&vec![exact], &universe));
    assert!(cache.is_dead(&vec![exact], &docs(&[2, 3])));
    let skip = graph.edges_of_node[0][1].condition.unwrap();
    assert!(!cache.is_dead(&vec![skip], &universe));
    // The dead end is skipped from now on, and the result is the same.
    let again = graph.paths_of_cost(&ctx, &universe, &costs, &mut resolved, &mut cache, 0).unwrap();
    assert!(again.is_empty());
    let relaxed =
        graph.paths_of_cost(&ctx, &universe, &costs, &mut resolved, &mut cache, 1).unwrap();
    assert_eq!(summary(&relaxed), vec![(1, vec![1], vec![1, 2, 3, 4, 5])]);
}

#[test]
fn paths_of_one_cost() {
    let (mut ctx, cat) = cat_context();
    let dog = ctx.word_interner.insert("dog".to_string());
    ctx.set_word_docids(dog, bytes_of(&[2, 3]));
    let graph = RankingRuleGraph::<ExactnessGraph>::build(&ctx, chain(&[term(cat, 0), term(dog, 1)]))
        .unwrap();
    let universe = docs(&[1, 2, 3, 4, 5]);
    let costs = graph.compute_costs();
    let mut resolved = ConditionDocIdsCache::new();
    let mut cache = DeadEndsCache::new();
    let mut at = |cost: u64| {
        summary(&graph.paths_of_cost(&ctx, &universe, &costs, &mut resolved, &mut cache, cost).unwrap())
    };
    assert_eq!(at(1), vec![(1, vec![0, 3], vec![1, 2, 5]), (1, vec![1, 2], vec![2, 3])]);
    assert_eq!(at(0), vec![(0, vec![0, 2], vec![2])]);
    assert_eq!(at(2), vec![(2, vec![1, 3], vec![1, 2, 3, 4, 5])]);
    assert_eq!(at(3), vec![]);
    assert_eq!(at(u64::MAX), vec![]);
}

#[test]
fn the_resolution_cache_follows_the_universe() {
    let (ctx, cat) = cat_context();
    let graph = RankingRuleGraph::<ExactnessGraph>::build(&ctx, chain(&[term(cat, 0)])).unwrap();
    let costs = graph.compute_costs();
    let mut resolved = ConditionDocIdsCache::new();
    let mut cache = DeadEndsCache::new();
    let wide = docs(&[1, 2, 3, 4, 5]);
    let narrow = docs(&[2, 3]);
    let first = graph.paths_of_cost(&ctx, &wide, &costs, &mut resolved, &mut cache, 0).unwrap();
    assert_eq!(summary(&first), vec![(0, vec![0], vec![1, 2, 5])]);
    assert_eq!(resolved.universe.values(), wide.values());
    let second = graph.paths_of_cost(&ctx, &narrow, &costs, &mut resolved, &mut cache, 0).unwrap();
    assert_eq!(summary(&second), vec![(0, vec![0], vec![2])]);
    assert_eq!(resolved.universe.values(), narrow.values());
    let third = graph.paths_of_cost(&ctx, &wide, &costs, &mut resolved, &mut cache, 0).unwrap();
    assert_eq!(summary(&third), vec![(0, vec![0], vec![1, 2, 5])]);
    let exact = graph.edges_of_node[0][0].condition.unwrap();
    let kept = graph.get_computed_condition(&ctx, &mut resolved, exact, &wide).unwrap();
    assert_eq!(kept.values(), vec![1, 2, 5]);
    let mut other = ConditionDocIdsCache::new();
    other.rekey(&narrow);
    assert_eq!(other.universe.values(), narrow.values());
    let skip = graph.edges_of_node[0][1].condition.unwrap();
    let fresh = graph.get_computed_condition(&ctx, &mut other, skip, &narrow).unwrap();
    assert_eq!(fresh.values(), vec![2, 3]);
    assert!(other.cache[skip.into_raw()].is_some());
}

#[test]
fn an_undecodable_word_fails_the_search() {
    let mut ctx = SearchContext::new();
    let cat = ctx.word_interner.insert("cat".to_string());
    ctx.set_word_docids(cat, vec![0xde, 0xad]);
    let graph = RankingRuleGraph::<ExactnessGraph>::build(&ctx, chain(&[term(cat, 0)])).unwrap();
    match graph.ranked_paths(&ctx, &docs(&[1, 2])) {
        Err(error) => assert!(matches!(error, Error::Decoding)),
        Ok(_) => panic!("the search went on without the postings"),
    }
    // Nothing is resolved for an empty universe.
    assert!(graph.ranked_paths(&ctx, &docs(&[])).unwrap().is_empty());
}

#[test]
fn alternatives_are_searched_in_their_order() {
    let (mut ctx, cat) = cat_context();
    let dog = ctx.word_interner.insert("dog".to_string());
    ctx.set_word_docids(dog, bytes_of(&[2, 3]));
    // start -> cat -> end and start -> dog -> end.
    let nodes = vec![
        node(QueryNodeData::Start, &[1, 2]),
        node(QueryNodeData::Term(term(cat, 0)), &[3]),
        node(QueryNodeData::Term(term(dog, 0)), &[3]),
        node(QueryNodeData::End, &[]),
    ];
    let query_graph =
        QueryGraph::from_nodes(nodes, Interned::from_raw(0), Interned::from_raw(3)).unwrap();
    let graph = RankingRuleGraph::<ExactnessGraph>::build(&ctx, query_graph).unwrap();
    let paths = graph.ranked_paths(&ctx, &docs(&[1, 2, 3, 4])).unwrap();
    assert_eq!(
        summary(&paths),
        vec![
            (0, vec![0], vec![1, 2]),
            (0, vec![2], vec![2, 3]),
            (1, vec![1], vec![1, 2, 3, 4]),
            (1, vec![3], vec![1, 2, 3, 4]),
        ]
    );
}

#[test]
fn the_graph_has_the_edges_of_the_criterion() {
    let (ctx, cat) = cat_context();
    let nodes = vec![
        node(QueryNodeData::Start, &[1, 2, 3]),
        node(QueryNodeData::Term(term(cat, 0)), &[2, 3]),
        node(QueryNodeData::Deleted, &[3]),
        node(QueryNodeData::End, &[]),
    ];
    let query_graph =
        QueryGraph::from_nodes(nodes, Interned::from_raw(0), Interned::from_raw(3)).unwrap();
    let graph = RankingRuleGraph::<ExactnessGraph>::build(&ctx, query_graph).unwrap();
    let edges: Vec<Vec<(usize, usize, u32, Option<usize>)>> = graph
        .edges_of_node
        .iter()
        .map(|edges| {
            edges
                .iter()
                .map(|e| {
                    (
                        e.source_node.into_raw(),
                        e.dest_node.into_raw(),
                        e.cost,
                        e.condition.map(|c| c.into_raw()),
                    )
                })
                .collect()
        })
        .collect();
    assert_eq!(
        edges,
        vec![
            vec![(0, 1, 0, Some(0)), (0, 3, 0, None), (0, 1, 1, Some(1))],
            vec![(1, 3, 0, None)],
            vec![],
            vec![],
        ]
    );
    assert_eq!(graph.conditions_interner.len(), 2);
    assert_eq!(graph.query_graph.len(), 4);
    // The path that goes straight to the end has no condition and costs nothing.
    let paths = graph.ranked_paths(&ctx, &docs(&[1, 9])).unwrap();
    assert_eq!(
        summary(&paths),
        vec![(0, vec![0], vec![1]), (0, vec![], vec![1, 9]), (1, vec![1], vec![1, 9])]
    );
}

#[test]
fn the_cost_table_lists_what_paths_can_cost() {
    let (mut ctx, cat) = cat_context();
    let dog = ctx.word_interner.insert("dog".to_string());
    let graph = RankingRuleGraph::<ExactnessGraph>::build(&ctx, chain(&[term(cat, 0), term(dog, 1)]))
        .unwrap();
    let costs = graph.compute_costs();
    assert_eq!(costs.len(), 4);
    assert_eq!(costs.get(Interned::from_raw(0)), &vec![0, 1, 2]);
    assert_eq!(costs.get(Interned::from_raw(1)), &vec![0, 1]);
    assert_eq!(costs.get(Interned::from_raw(2)), &vec![0]);
    assert_eq!(costs.get(Interned::from_raw(3)), &vec![0]);
}

#[test]
fn costs_are_kept_in_ascending_order() {
    let mut list = Vec::new();
    for cost in [5, 1, 3, 5, 0, u64::MAX, 3] {
        insert_cost(&mut list, cost);
    }
    assert_eq!(list, vec![0, 1, 3, 5, u64::MAX]);
    assert!(has_cost(&list, 3));
    assert!(has_cost(&list, u64::MAX));
    assert!(!has_cost(&list, 2));
    assert!(!has_cost(&Vec::new(), 0));
}

#[test]
fn a_query_graph_must_be_numbered_topologically() {
    let ok = vec![node(QueryNodeData::Start, &[1]), node(QueryNodeData::End, &[])];
    assert!(QueryGraph::from_nodes(ok, Interned::from_raw(0), Interned::from_raw(1)).is_some());
    let back = vec![node(QueryNodeData::Start, &[1]), node(QueryNodeData::End, &[0])];
    assert!(QueryGraph::from_nodes(back, Interned::from_raw(0), Interned::from_raw(1)).is_none());
    let to_itself = vec![node(QueryNodeData::Start, &[0]), node(QueryNodeData::End, &[])];
    assert!(QueryGraph::from_nodes(to_itself, Interned::from_raw(0), Interned::from_raw(1)).is_none());
    let outside = vec![node(QueryNodeData::Start, &[2]), node(QueryNodeData::End, &[])];
    assert!(QueryGraph::from_nodes(outside, Interned::from_raw(0), Interned::from_raw(1)).is_none());
    let no_end = vec![node(QueryNodeData::Start, &[])];
    assert!(QueryGraph::from_nodes(no_end, Interned::from_raw(0), Interned::from_raw(1)).is_none());
    let no_root = vec![node(QueryNodeData::End, &[])];
    assert!(QueryGraph::from_nodes(no_root, Interned::from_raw(5), Interned::from_raw(0)).is_none());
}

#[test]
fn what_a_node_hands_over_as_source() {
    let cat = term(Interned::from_raw(0), 0);
    assert!(matches!(source_term(&QueryNodeData::Start), Some(None)));
    assert!(matches!(source_term(&QueryNodeData::Term(cat)), Some(Some(t)) if t.same(&cat)));
    assert!(source_term(&QueryNodeData::Deleted).is_none());
    assert!(source_term(&QueryNodeData::End).is_none());
}

#[test]
fn root_and_end_may_be_the_same_node() {
    let ctx = SearchContext::new();
    let nodes = vec![node(QueryNodeData::End, &[])];
    let query_graph =
        QueryGraph::from_nodes(nodes, Interned::from_raw(0), Interned::from_raw(0)).unwrap();
    let graph = RankingRuleGraph::<ExactnessGraph>::build(&ctx, query_graph).unwrap();
    let paths = graph.ranked_paths(&ctx, &docs(&[4, 5])).unwrap();
    assert_eq!(summary(&paths), vec![(0, vec![], vec![4, 5])]);
}

#[test]
fn a_path_extends_until_it_dies_or_completes() {
    let extending = || PathState::Extending;
    assert!(matches!(extending().next(false, false), PathState::Extending));
    assert!(matches!(extending().next(false, true), PathState::Complete));
    assert!(matches!(extending().next(true, false), PathState::Dead));
    assert!(matches!(extending().next(true, true), PathState::Dead));
    for (no_document_left, at_end) in [(false, false), (false, true), (true, false), (true, true)] {
        assert!(matches!(PathState::Dead.next(no_document_left, at_end), PathState::Dead));
        assert!(matches!(PathState::Complete.next(no_document_left, at_end), PathState::Complete));
    }
}

#[test]
fn edges_are_kept_in_ascending_order_of_cost() {
    let mut edges: Vec<Edge<ExactnessCondition>> = Vec::new();
    for (cost, dest) in [(1u32, 10usize), (0, 11), (1, 12), (0, 13), (2, 14), (0, 15)] {
        insert_edge(
            &mut edges,
            Edge {
                source_node: Interned::from_raw(0),
                dest_node: Interned::from_raw(dest),
                cost,
                condition: None,
            },
        );
    }
    let order: Vec<(u32, usize)> = edges.iter().map(|e| (e.cost, e.dest_node.into_raw())).collect();
    assert_eq!(order, vec![(0, 11), (0, 13), (0, 15), (1, 10), (1, 12), (2, 14)]);
}

#[test]
fn the_edges_of_a_node_ascend_by_cost() {
    let (mut ctx, cat) = cat_context();
    let dog = ctx.word_interner.insert("dog".to_string());
    ctx.set_word_docids(dog, bytes_of(&[2, 3]));
    let nodes = vec![
        node(QueryNodeData::Start, &[1, 2]),
        node(QueryNodeData::Term(term(cat, 0)), &[3]),
        node(QueryNodeData::Term(term(dog, 0)), &[3]),
        node(QueryNodeData::End, &[]),
    ];
    let query_graph =
        QueryGraph::from_nodes(nodes, Interned::from_raw(0), Interned::from_raw(3)).unwrap();
    let graph = RankingRuleGraph::<ExactnessGraph>::build(&ctx, query_graph).unwrap();
    let from_start: Vec<(u32, usize, Option<usize>)> = graph.edges_of_node[0]
        .iter()
        .map(|e| (e.cost, e.dest_node.into_raw(), e.condition.map(|c| c.into_raw())))
        .collect();
    assert_eq!(
        from_start,
        vec![(0, 1, Some(0)), (0, 2, Some(2)), (1, 1, Some(1)), (1, 2, Some(3))]
    );
}
