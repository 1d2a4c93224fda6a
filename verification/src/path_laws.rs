//! What holds of every path search: the paths that it yields are the paths of
//! the graph that match a document, each labelled with the sum of the costs of
//! its edges, and they come by ascending cost.

use crate::cheapest_paths::{extended, path_views, yields, PathView, RankedPath};
use crate::context::{Error, SearchContext};
use crate::interner::Interned;
use crate::ranking_rule_graph::{edges_wf, RankingRuleGraph, RankingRuleGraphTrait};
use vstd::prelude::*;

verus! {

impl<G: RankingRuleGraphTrait> RankingRuleGraph<G> {
    /// Whether `steps` leads from `node` to the end node, where each step is
    /// the position of an edge among those that leave the node reached so far.
    pub open spec fn is_path(&self, node: int, steps: Seq<int>) -> bool
        decreases steps.len(),
    {
        if steps.len() == 0 {
            node == self.query_graph.end_node.idx
        } else {
            &&& node != self.query_graph.end_node.idx
            &&& 0 <= node < self.edges_of_node@.len()
            &&& 0 <= steps[0] < self.edges(node).len()
            &&& node < self.edges(node)[steps[0]].dest_node.idx < self.query_graph.nodes@.len()
            &&& self.is_path(
                self.edges(node)[steps[0]].dest_node.idx as int,
                steps.drop_first(),
            )
        }
    }

    /// The sum of the costs of the edges of a path.
    pub open spec fn path_cost(&self, node: int, steps: Seq<int>) -> int
        decreases steps.len(),
    {
        if steps.len() == 0 {
            0
        } else {
            self.edges(node)[steps[0]].cost + self.path_cost(
                self.edges(node)[steps[0]].dest_node.idx as int,
                steps.drop_first(),
            )
        }
    }

    /// The conditions of the edges of a path, in order.
    pub open spec fn path_conditions(&self, node: int, steps: Seq<int>) -> Seq<
        Interned<G::Condition>,
    >
        decreases steps.len(),
    {
        if steps.len() == 0 {
            Seq::empty()
        } else {
            extended(Seq::empty(), self.edges(node)[steps[0]]) + self.path_conditions(
                self.edges(node)[steps[0]].dest_node.idx as int,
                steps.drop_first(),
            )
        }
    }

    /// The documents that satisfy the condition of every edge of a path, or
    /// the error of the first condition that cannot be resolved.
    pub open spec fn path_docids(&self, ctx: &SearchContext, node: int, steps: Seq<int>) -> Result<
        Set<u32>,
        Error,
    >
        decreases steps.len(),
    {
        if steps.len() == 0 {
            Ok(Set::full())
        } else {
            match self.edge_docids(ctx, self.edges(node)[steps[0]]) {
                Err(error) => Err(error),
                Ok(matching) => match self.path_docids(
                    ctx,
                    self.edges(node)[steps[0]].dest_node.idx as int,
                    steps.drop_first(),
                ) {
                    Err(error) => Err(error),
                    Ok(satisfying) => Ok(matching.intersect(satisfying)),
                },
            }
        }
    }

    /// `path` is what the search yields for the path `steps` from `node`, when
    /// it arrived at `node` with the conditions `prefix` and the documents
    /// `found`: the conditions of the whole path, the cost `total`, and the
    /// documents of `found` that satisfy every condition on the way.
    pub open spec fn is_yield_of(
        &self,
        ctx: &SearchContext,
        path: PathView<G::Condition>,
        total: u64,
        node: int,
        steps: Seq<int>,
        found: Set<u32>,
        prefix: Seq<Interned<G::Condition>>,
    ) -> bool {
        &&& path.cost == total
        &&& path.conditions == prefix + self.path_conditions(node, steps)
        &&& self.path_docids(ctx, node, steps) matches Ok(satisfying) && path.docids
            == found.intersect(satisfying)
    }

    /// Every path that the search yields is a path of the graph from `node` to
    /// the end node whose edges cost `budget` in all. It carries the
    /// documents that satisfy all of its conditions, and at least one.
    pub proof fn lemma_yielded_is_path(
        &self,
        ctx: &SearchContext,
        total: u64,
        node: int,
        k: int,
        budget: int,
        found: Set<u32>,
        prefix: Seq<Interned<G::Condition>>,
        i: int,
    ) -> (steps: Seq<int>)
        requires
            0 <= k,
            !(found =~= Set::<u32>::empty()),
            self.explore(ctx, total, node, k, budget, found, prefix) matches Ok(paths) && 0 <= i
                < paths.len(),
        ensures
            self.is_path(node, steps),
            self.path_cost(node, steps) == budget,
            steps.len() > 0 ==> steps[0] >= k,
            self.is_yield_of(
                ctx,
                self.explore(ctx, total, node, k, budget, found, prefix)->Ok_0[i],
                total,
                node,
                steps,
                found,
                prefix,
            ),
            !(self.explore(ctx, total, node, k, budget, found, prefix)->Ok_0[i].docids
                =~= Set::<u32>::empty()),
        decreases self.query_graph.nodes@.len() - node, self.edges(node).len() - k,
    {
        let paths = self.explore(ctx, total, node, k, budget, found, prefix)->Ok_0;
        if node == self.query_graph.end_node.idx {
            let steps = Seq::<int>::empty();
            assert(prefix + self.path_conditions(node, steps) =~= prefix);
            assert(found.intersect(Set::<u32>::full()) =~= found);
            steps
        } else {
            let edge = self.edges(node)[k];
            let dest = edge.dest_node.idx as int;
            let first = self.through_edge(ctx, total, node, k, budget, found, prefix);
            let rest = self.explore(ctx, total, node, k + 1, budget, found, prefix);
            self.lemma_explore_edge(ctx, total, node, k, budget, found, prefix);
            let head = first->Ok_0;
            let tail = rest->Ok_0;
            assert(paths == head + tail);
            if i < head.len() {
                let matching = self.edge_docids(ctx, edge)->Ok_0;
                let narrowed = found.intersect(matching);
                let longer = extended(prefix, edge);
                let onward = self.lemma_yielded_is_path(
                    ctx,
                    total,
                    dest,
                    0,
                    budget - edge.cost,
                    narrowed,
                    longer,
                    i,
                );
                let steps = seq![k] + onward;
                assert(steps.drop_first() =~= onward);
                assert(steps[0] == k);
                let satisfying = self.path_docids(ctx, dest, onward)->Ok_0;
                assert(narrowed.intersect(satisfying) =~= found.intersect(
                    matching.intersect(satisfying),
                ));
                assert(longer + self.path_conditions(dest, onward) =~= prefix + (extended(
                    Seq::empty(),
                    edge,
                ) + self.path_conditions(dest, onward)));
                assert(paths[i] == head[i]);
                steps
            } else {
                let steps = self.lemma_yielded_is_path(
                    ctx,
                    total,
                    node,
                    k + 1,
                    budget,
                    found,
                    prefix,
                    i - head.len(),
                );
                assert(paths[i] == tail[i - head.len()]);
                steps
            }
        }
    }

    /// The steps of a path are positions of edges.
    pub proof fn lemma_first_step(&self, node: int, steps: Seq<int>)
        requires
            self.is_path(node, steps),
        ensures
            steps.len() > 0 ==> 0 <= steps[0] < self.edges(node).len(),
    {
    }

    /// The end node can be reached at the cost of any path to it.
    pub proof fn lemma_path_reaches(&self, node: int, steps: Seq<int>)
        requires
            self.is_path(node, steps),
        ensures
            self.can_reach(node, self.path_cost(node, steps)),
        decreases steps.len(),
    {
        if steps.len() > 0 {
            let edge = self.edges(node)[steps[0]];
            self.lemma_path_reaches(edge.dest_node.idx as int, steps.drop_first());
            assert(self.step_reaches(node, steps[0], self.path_cost(node, steps)));
            self.lemma_can_reach(node, self.path_cost(node, steps));
        }
    }

    /// Every path of the graph from `node` to the end node that costs `budget`
    /// and matches a document of `found` is yielded, unless the search fails.
    pub proof fn lemma_path_is_yielded(
        &self,
        ctx: &SearchContext,
        total: u64,
        node: int,
        k: int,
        budget: int,
        found: Set<u32>,
        prefix: Seq<Interned<G::Condition>>,
        steps: Seq<int>,
    ) -> (i: int)
        requires
            0 <= k,
            self.explore(ctx, total, node, k, budget, found, prefix) is Ok,
            self.is_path(node, steps),
            self.path_cost(node, steps) == budget,
            steps.len() > 0 ==> steps[0] >= k,
            self.path_docids(ctx, node, steps) matches Ok(satisfying) && !(found.intersect(
                satisfying,
            ) =~= Set::<u32>::empty()),
        ensures
            0 <= i < self.explore(ctx, total, node, k, budget, found, prefix)->Ok_0.len(),
            self.is_yield_of(
                ctx,
                self.explore(ctx, total, node, k, budget, found, prefix)->Ok_0[i],
                total,
                node,
                steps,
                found,
                prefix,
            ),
        decreases self.query_graph.nodes@.len() - node, self.edges(node).len() - k,
    {
        let paths = self.explore(ctx, total, node, k, budget, found, prefix)->Ok_0;
        if node == self.query_graph.end_node.idx {
            assert(prefix + self.path_conditions(node, steps) =~= prefix);
            assert(found.intersect(Set::<u32>::full()) =~= found);
            0
        } else {
            let edge = self.edges(node)[k];
            let dest = edge.dest_node.idx as int;
            let first = self.through_edge(ctx, total, node, k, budget, found, prefix);
            let rest = self.explore(ctx, total, node, k + 1, budget, found, prefix);
            self.lemma_explore_edge(ctx, total, node, k, budget, found, prefix);
            let head = first->Ok_0;
            let tail = rest->Ok_0;
            assert(paths == head + tail);
            if steps[0] == k {
                let onward = steps.drop_first();
                self.lemma_first_step(dest, onward);
                self.lemma_path_reaches(dest, onward);
                assert(self.step_reaches(node, k, budget));
                let matching = self.edge_docids(ctx, edge)->Ok_0;
                let satisfying = self.path_docids(ctx, dest, onward)->Ok_0;
                let narrowed = found.intersect(matching);
                let longer = extended(prefix, edge);
                assert(narrowed.intersect(satisfying) =~= found.intersect(
                    matching.intersect(satisfying),
                ));
                let i = self.lemma_path_is_yielded(
                    ctx,
                    total,
                    dest,
                    0,
                    budget - edge.cost,
                    narrowed,
                    longer,
                    onward,
                );
                assert(longer + self.path_conditions(dest, onward) =~= prefix + (extended(
                    Seq::empty(),
                    edge,
                ) + self.path_conditions(dest, onward)));
                assert(paths[i] == head[i]);
                i
            } else {
                let i = self.lemma_path_is_yielded(
                    ctx,
                    total,
                    node,
                    k + 1,
                    budget,
                    found,
                    prefix,
                    steps,
                );
                assert(paths[head.len() + i] == tail[i]);
                head.len() + i
            }
        }
    }

    /// Every path that is yielded for one cost is labelled with that cost,
    /// and its documents are documents of the universe.
    pub proof fn lemma_paths_of_cost(&self, ctx: &SearchContext, universe: Set<u32>, cost: u64, i: int)
        requires
            self.paths_of_cost_in(ctx, universe, cost) matches Ok(paths) && 0 <= i < paths.len(),
        ensures
            self.paths_of_cost_in(ctx, universe, cost)->Ok_0[i].cost == cost,
            self.paths_of_cost_in(ctx, universe, cost)->Ok_0[i].docids.subset_of(universe),
            !(self.paths_of_cost_in(ctx, universe, cost)->Ok_0[i].docids =~= Set::<u32>::empty()),
    {
        let steps = self.lemma_yielded_is_path(
            ctx,
            cost,
            self.query_graph.root_node.idx as int,
            0,
            cost as int,
            universe,
            Seq::empty(),
            i,
        );
    }

    /// In the ranking, a path never costs more than a path that comes after
    /// it.
    pub proof fn lemma_costs_ascend(&self, ctx: &SearchContext, universe: Set<u32>, bound: int)
        requires
            bound <= u64::MAX + 1,
            self.ranked_below(ctx, universe, bound) is Ok,
        ensures
            forall|i: int, j: int|
                0 <= i <= j < self.ranked_below(ctx, universe, bound)->Ok_0.len()
                    ==> self.ranked_below(ctx, universe, bound)->Ok_0[i].cost
                    <= self.ranked_below(ctx, universe, bound)->Ok_0[j].cost,
            forall|i: int|
                0 <= i < self.ranked_below(ctx, universe, bound)->Ok_0.len() ==> (
                #[trigger] self.ranked_below(ctx, universe, bound)->Ok_0[i]).cost < bound,
        decreases bound,
    {
        if bound > 0 {
            self.lemma_costs_ascend(ctx, universe, bound - 1);
            let cheaper = self.ranked_below(ctx, universe, bound - 1)->Ok_0;
            let last = self.paths_of_cost_in(ctx, universe, (bound - 1) as u64)->Ok_0;
            let all = self.ranked_below(ctx, universe, bound)->Ok_0;
            assert(all == cheaper + last);
            assert forall|i: int| 0 <= i < all.len() implies (#[trigger] all[i]).cost < bound
                && (i >= cheaper.len() ==> all[i].cost == bound - 1) by {
                if i >= cheaper.len() {
                    self.lemma_paths_of_cost(
                        ctx,
                        universe,
                        (bound - 1) as u64,
                        i - cheaper.len(),
                    );
                    assert(all[i] == last[i - cheaper.len()]);
                } else {
                    assert(all[i] == cheaper[i]);
                }
            }
            assert forall|i: int, j: int| 0 <= i <= j < all.len() implies all[i].cost
                <= all[j].cost by {
                if j < cheaper.len() {
                    assert(all[i] == cheaper[i] && all[j] == cheaper[j]);
                } else {
                    assert(all[j].cost == bound - 1);
                    assert(all[i].cost < bound);
                }
            }
        }
    }

    /// Every path of the ranking carries documents of the universe, and at
    /// least one.
    pub proof fn lemma_ranked_within_universe(
        &self,
        ctx: &SearchContext,
        universe: Set<u32>,
        bound: int,
        i: int,
    )
        requires
            bound <= u64::MAX + 1,
            self.ranked_below(ctx, universe, bound) matches Ok(paths) && 0 <= i < paths.len(),
        ensures
            self.ranked_below(ctx, universe, bound)->Ok_0[i].docids.subset_of(universe),
            !(self.ranked_below(ctx, universe, bound)->Ok_0[i].docids =~= Set::<u32>::empty()),
        decreases bound,
    {
        if bound > 0 {
            let cheaper = self.ranked_below(ctx, universe, bound - 1)->Ok_0;
            let last = self.paths_of_cost_in(ctx, universe, (bound - 1) as u64)->Ok_0;
            let all = self.ranked_below(ctx, universe, bound)->Ok_0;
            assert(all == cheaper + last);
            if i < cheaper.len() {
                self.lemma_ranked_within_universe(ctx, universe, bound - 1, i);
                assert(all[i] == cheaper[i]);
            } else {
                self.lemma_paths_of_cost(ctx, universe, (bound - 1) as u64, i - cheaper.len());
                assert(all[i] == last[i - cheaper.len()]);
            }
        }
    }
}

impl<G: RankingRuleGraphTrait> RankingRuleGraph<G> {
    /// Every condition of the graph can be resolved.
    pub open spec fn all_resolvable(&self, ctx: &SearchContext) -> bool {
        forall|i: int|
            0 <= i < self.conditions_interner.stable_store@.len() ==> (#[trigger] G::condition_docids(
                ctx,
                &self.conditions_interner.stable_store@[i],
            )) is Ok
    }

    /// Where every condition of the graph can be resolved, the search from a
    /// node succeeds.
    pub proof fn lemma_explore_succeeds(
        &self,
        ctx: &SearchContext,
        total: u64,
        node: int,
        k: int,
        budget: int,
        found: Set<u32>,
        prefix: Seq<Interned<G::Condition>>,
    )
        requires
            self.wf(),
            self.all_resolvable(ctx),
            0 <= k,
        ensures
            self.explore(ctx, total, node, k, budget, found, prefix) is Ok,
        decreases self.query_graph.nodes@.len() - node, self.edges(node).len() - k,
    {
        if node != self.query_graph.end_node.idx && 0 <= node < self.edges_of_node@.len() && k
            < self.edges(node).len() {
            let edge = self.edges(node)[k];
            self.lemma_explore_edge(ctx, total, node, k, budget, found, prefix);
            self.lemma_explore_succeeds(ctx, total, node, k + 1, budget, found, prefix);
            if self.step_reaches(node, k, budget) {
                assert(edges_wf(
                    self.edges_of_node@[node]@,
                    node,
                    self.query_graph.nodes@.len() as int,
                    self.conditions_interner,
                ));
                assert(self.edge_docids(ctx, edge) is Ok);
                let matching = self.edge_docids(ctx, edge)->Ok_0;
                self.lemma_explore_succeeds(
                    ctx,
                    total,
                    edge.dest_node.idx as int,
                    0,
                    budget - edge.cost,
                    found.intersect(matching),
                    extended(prefix, edge),
                );
            }
        }
    }

    /// Where every condition of the graph can be resolved, the path search
    /// succeeds.
    pub proof fn lemma_search_succeeds(&self, ctx: &SearchContext, universe: Set<u32>, bound: int)
        requires
            self.wf(),
            self.all_resolvable(ctx),
        ensures
            self.ranked_below(ctx, universe, bound) is Ok,
        decreases bound,
    {
        if bound > 0 {
            self.lemma_search_succeeds(ctx, universe, bound - 1);
            self.lemma_explore_succeeds(
                ctx,
                (bound - 1) as u64,
                self.query_graph.root_node.idx as int,
                0,
                (bound - 1) as u64 as int,
                universe,
                Seq::empty(),
            );
        }
    }

    /// An error of the search from a node is the error of a condition of the
    /// graph.
    pub proof fn lemma_explore_error(
        &self,
        ctx: &SearchContext,
        total: u64,
        node: int,
        k: int,
        budget: int,
        found: Set<u32>,
        prefix: Seq<Interned<G::Condition>>,
    ) -> (i: int)
        requires
            self.wf(),
            0 <= k,
            self.explore(ctx, total, node, k, budget, found, prefix) is Err,
        ensures
            0 <= i < self.conditions_interner.stable_store@.len(),
            G::condition_docids(ctx, &self.conditions_interner.stable_store@[i]) == Err::<
                Set<u32>,
                Error,
            >(self.explore(ctx, total, node, k, budget, found, prefix)->Err_0),
        decreases self.query_graph.nodes@.len() - node, self.edges(node).len() - k,
    {
        let edge = self.edges(node)[k];
        self.lemma_explore_edge(ctx, total, node, k, budget, found, prefix);
        let first = self.through_edge(ctx, total, node, k, budget, found, prefix);
        if first is Err {
            assert(edges_wf(
                self.edges_of_node@[node]@,
                node,
                self.query_graph.nodes@.len() as int,
                self.conditions_interner,
            ));
            if self.edge_docids(ctx, edge) is Err {
                edge.condition->Some_0.idx as int
            } else {
                let matching = self.edge_docids(ctx, edge)->Ok_0;
                self.lemma_explore_error(
                    ctx,
                    total,
                    edge.dest_node.idx as int,
                    0,
                    budget - edge.cost,
                    found.intersect(matching),
                    extended(prefix, edge),
                )
            }
        } else {
            self.lemma_explore_error(ctx, total, node, k + 1, budget, found, prefix)
        }
    }

    /// An error of the path search is the error of a condition of the graph.
    pub proof fn lemma_search_error(&self, ctx: &SearchContext, universe: Set<u32>, bound: int) -> (i:
        int)
        requires
            self.wf(),
            self.ranked_below(ctx, universe, bound) is Err,
        ensures
            0 <= i < self.conditions_interner.stable_store@.len(),
            G::condition_docids(ctx, &self.conditions_interner.stable_store@[i]) == Err::<
                Set<u32>,
                Error,
            >(self.ranked_below(ctx, universe, bound)->Err_0),
        decreases bound,
    {
        if self.ranked_below(ctx, universe, bound - 1) is Err {
            self.lemma_search_error(ctx, universe, bound - 1)
        } else {
            self.lemma_explore_error(
                ctx,
                (bound - 1) as u64,
                self.query_graph.root_node.idx as int,
                0,
                (bound - 1) as u64 as int,
                universe,
                Seq::empty(),
            )
        }
    }
}

/// Two runs of the path search on the same graph, context and universe yield
/// the same paths in the same order, with the same costs and documents, or the
/// same error.
pub proof fn lemma_search_is_deterministic<G: RankingRuleGraphTrait>(
    graph: RankingRuleGraph<G>,
    ctx: SearchContext,
    universe: Set<u32>,
    first: Result<Vec<RankedPath<G::Condition>>, Error>,
    second: Result<Vec<RankedPath<G::Condition>>, Error>,
)
    requires
        yields(first, graph.ranked_in(&ctx, universe)),
        yields(second, graph.ranked_in(&ctx, universe)),
    ensures
        match (first, second) {
            (Ok(a), Ok(b)) => path_views(a@) == path_views(b@),
            (Err(a), Err(b)) => a == b,
            _ => false,
        },
{
}

/// The paths of one cost do not depend on what the caches held before, nor on
/// the run.
pub proof fn lemma_paths_of_cost_are_deterministic<G: RankingRuleGraphTrait>(
    graph: RankingRuleGraph<G>,
    ctx: SearchContext,
    universe: Set<u32>,
    cost: u64,
    first: Result<Vec<RankedPath<G::Condition>>, Error>,
    second: Result<Vec<RankedPath<G::Condition>>, Error>,
)
    requires
        yields(first, graph.paths_of_cost_in(&ctx, universe, cost)),
        yields(second, graph.paths_of_cost_in(&ctx, universe, cost)),
    ensures
        match (first, second) {
            (Ok(a), Ok(b)) => path_views(a@) == path_views(b@),
            (Err(a), Err(b)) => a == b,
            _ => false,
        },
{
}

} // verus!
