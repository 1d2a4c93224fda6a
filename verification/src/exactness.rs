//! The exactness criterion: a query step costs nothing where its term is
//! matched exactly, and one where any relaxed match is accepted.

use crate::bitmap::{decode_docids, decoded_docids, docids_within, DocIds};
use crate::context::{Error, SearchContext};
use crate::interner::{inserted, position_of, DedupInterner, Internable, Interned};
use crate::query_graph::{ExactTerm, LocatedQueryTermSubset, QueryNode};
use crate::ranking_rule_graph::{ComputedCondition, RankingRuleGraph, RankingRuleGraphTrait};
use vstd::prelude::*;

verus! {

#[derive(Clone, Copy, PartialEq, Eq, Hash)]
pub enum ExactnessCondition {
    /// The destination term must be matched exactly.
    ExactInAttribute(LocatedQueryTermSubset),
    /// Any match of the destination term is accepted.
    Skip(LocatedQueryTermSubset),
}

impl View for ExactnessCondition {
    type V = ExactnessCondition;

    open spec fn view(&self) -> ExactnessCondition {
        *self
    }
}

impl Internable for ExactnessCondition {
    fn same(&self, other: &Self) -> (same: bool) {
        match (self, other) {
            (ExactnessCondition::ExactInAttribute(a), ExactnessCondition::ExactInAttribute(b)) => {
                a.same(b)
            },
            (ExactnessCondition::Skip(a), ExactnessCondition::Skip(b)) => a.same(b),
            _ => false,
        }
    }
}

impl ExactnessCondition {
    /// The term that the condition is about.
    pub open spec fn dest_node(self) -> LocatedQueryTermSubset {
        match self {
            ExactnessCondition::ExactInAttribute(dest_node) => dest_node,
            ExactnessCondition::Skip(dest_node) => dest_node,
        }
    }
}

/// The exactness criterion. It holds no data: the type stands for the
/// criterion where a ranking-rule graph is built or searched.
pub enum ExactnessGraph {
    Exactness,
}

/// The documents that match the term of `dest_node` exactly: the postings of
/// its phrase or of its exact word. A term without an exact interpretation,
/// and a word without postings, match nothing; stored postings that cannot be
/// decoded are an error.
pub open spec fn exact_docids(ctx: &SearchContext, dest_node: LocatedQueryTermSubset) -> Result<
    Set<u32>,
    Error,
> {
    match dest_node.term_subset.exact_term_of() {
        None => Ok(Set::empty()),
        Some(ExactTerm::Phrase(phrase)) => Ok(ctx.phrase_postings(phrase)),
        Some(ExactTerm::Word(word)) => match ctx.word_bytes(word) {
            None => Ok(Set::empty()),
            Some(bytes) => match decoded_docids(bytes) {
                Some(values) => Ok(values.to_set()),
                None => Err(Error::Decoding),
            },
        },
    }
}

/// A condition that asks for the exact match of a word without postings is
/// resolved without error, and no document satisfies it.
pub proof fn lemma_absent_word_matches_nothing(
    ctx: &SearchContext,
    dest_node: LocatedQueryTermSubset,
    word: Interned<String>,
)
    requires
        dest_node.term_subset.exact_term_of() == Some(ExactTerm::Word(word)),
        ctx.word_bytes(word) is None,
    ensures
        ExactnessGraph::condition_docids(ctx, &ExactnessCondition::ExactInAttribute(dest_node))
            == Ok::<Set<u32>, Error>(Set::empty()),
{
}

/// The exactness criterion gives its edges for every step: building its graph
/// never fails.
pub proof fn lemma_exactness_graph_builds(ctx: &SearchContext, nodes: Seq<QueryNode>, upto: int)
    ensures
        RankingRuleGraph::<ExactnessGraph>::graph_edges(ctx, nodes, upto) is Ok,
    decreases upto,
{
    if upto > 0 {
        lemma_exactness_graph_builds(ctx, nodes, upto - 1);
        lemma_exactness_node_edges(
            ctx,
            nodes,
            upto - 1,
            nodes[upto - 1].successors@.len() as int,
        );
    }
}

/// The exactness criterion gives its edges for every step that leaves a node.
pub proof fn lemma_exactness_node_edges(
    ctx: &SearchContext,
    nodes: Seq<QueryNode>,
    source: int,
    upto: int,
)
    ensures
        RankingRuleGraph::<ExactnessGraph>::node_edges(ctx, nodes, source, upto) is Ok,
    decreases upto,
{
    if upto > 0 {
        lemma_exactness_node_edges(ctx, nodes, source, upto - 1);
    }
}

/// The documents of `universe` that match the term of `dest_node` exactly.
pub fn compute_docids(
    ctx: &SearchContext,
    dest_node: &LocatedQueryTermSubset,
    universe: &DocIds,
) -> (candidates: Result<DocIds, Error>)
    ensures
        candidates matches Ok(found) ==> found@.subset_of(universe@),
        forall|word: Interned<String>|
            dest_node.term_subset.exact_term_of() == Some(ExactTerm::Word(word)) && ctx.word_bytes(
                word,
            ) is None ==> (candidates matches Ok(found) && found@ == Set::<u32>::empty()),
        match exact_docids(ctx, *dest_node) {
            Ok(matching) => candidates matches Ok(found) && found@ == matching.intersect(
                universe@,
            ),
            Err(error) => candidates matches Err(e) && e == error,
        },
{
    let exact_term = if let Some(exact_term) = dest_node.term_subset.exact_term() {
        exact_term
    } else {
        proof {
            assert(Set::<u32>::empty().intersect(universe@) =~= Set::<u32>::empty());
        }
        return Ok(DocIds::new());
    };
    match exact_term {
        ExactTerm::Phrase(phrase) => {
            let mut candidates = ctx.get_phrase_docids(phrase);
            candidates.intersect_with(universe);
            Ok(candidates)
        },
        ExactTerm::Word(word) => {
            if let Some(word_candidates) = ctx.get_db_word_docids(word) {
                match decode_docids(word_candidates.as_slice()) {
                    Ok(values) => Ok(docids_within(&values, universe)),
                    Err(_) => Err(Error::Decoding),
                }
            } else {
                proof {
                    assert(Set::<u32>::empty().intersect(universe@) =~= Set::<u32>::empty());
                }
                Ok(DocIds::new())
            }
        },
    }
}

impl RankingRuleGraphTrait for ExactnessGraph {
    type Condition = ExactnessCondition;

    open spec fn condition_docids(ctx: &SearchContext, condition: &ExactnessCondition) -> Result<
        Set<u32>,
        Error,
    > {
        match *condition {
            ExactnessCondition::ExactInAttribute(dest_node) => exact_docids(ctx, dest_node),
            ExactnessCondition::Skip(_) => Ok(Set::full()),
        }
    }

    open spec fn edge_conditions(
        ctx: &SearchContext,
        source_node: Option<LocatedQueryTermSubset>,
        dest_node: LocatedQueryTermSubset,
    ) -> Result<Seq<(u32, ExactnessCondition)>, Error> {
        Ok(
            seq![
                (0u32, ExactnessCondition::ExactInAttribute(dest_node)),
                (1u32, ExactnessCondition::Skip(dest_node)),
            ],
        )
    }

    fn resolve_condition(
        ctx: &SearchContext,
        condition: &ExactnessCondition,
        universe: &DocIds,
    ) -> (computed: Result<ComputedCondition, Error>)
        ensures
            computed matches Ok(c) ==> c.start_term_subset is None && c.end_term_subset
                == condition.dest_node(),
    {
        let (docids, dest_node) = match condition {
            ExactnessCondition::ExactInAttribute(dest_node) => {
                match compute_docids(ctx, dest_node, universe) {
                    Ok(docids) => (docids, dest_node),
                    Err(error) => {
                        return Err(error);
                    },
                }
            },
            ExactnessCondition::Skip(dest_node) => (universe.clone(), dest_node),
        };
        Ok(
            ComputedCondition {
                docids,
                universe_len: universe.len(),
                start_term_subset: None,
                end_term_subset: *dest_node,
            },
        )
    }

    fn build_edges(
        ctx: &SearchContext,
        conditions_interner: &mut DedupInterner<ExactnessCondition>,
        source_node: Option<&LocatedQueryTermSubset>,
        dest_node: &LocatedQueryTermSubset,
    ) -> (edges: Result<Vec<(u32, Interned<ExactnessCondition>)>, Error>)
        ensures
            final(conditions_interner).stable_store@ == inserted(
                inserted(
                    old(conditions_interner).stable_store@,
                    ExactnessCondition::ExactInAttribute(*dest_node),
                ),
                ExactnessCondition::Skip(*dest_node),
            ),
            edges matches Ok(list) && list@.len() == 2 && list@[0].0 == 0 && list@[1].0 == 1
                && list@[0].1.idx == position_of(
                old(conditions_interner).stable_store@,
                ExactnessCondition::ExactInAttribute(*dest_node),
            ) && list@[1].1.idx == position_of(
                inserted(
                    old(conditions_interner).stable_store@,
                    ExactnessCondition::ExactInAttribute(*dest_node),
                ),
                ExactnessCondition::Skip(*dest_node),
            ),
    {
        let exact_condition = ExactnessCondition::ExactInAttribute(*dest_node);
        let exact_condition = conditions_interner.insert(exact_condition);

        let skip_condition = ExactnessCondition::Skip(*dest_node);
        let skip_condition = conditions_interner.insert(skip_condition);
        let mut edges = Vec::new();
        edges.push((0u32, exact_condition));
        edges.push((1u32, skip_condition));
        Ok(edges)
    }
}

} // verus!
