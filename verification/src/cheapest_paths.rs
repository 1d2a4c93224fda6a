//! Path search: the paths from the root of a ranking-rule graph to its end
//! node, from the cheapest to the most expensive, each with the documents of
//! the universe that satisfy all of its conditions.

use crate::bitmap::DocIds;
use crate::condition_docids_cache::ConditionDocIdsCache;
use crate::context::{Error, SearchContext};
use crate::costs::has_cost;
use crate::dead_ends_cache::{copy_path, DeadEndsCache};
use crate::interner::{Interned, MappedInterner};
use crate::query_graph::QueryNode;
use crate::ranking_rule_graph::{
    in_turn, prepend, Edge, RankingRuleGraph, RankingRuleGraphTrait,
};
use vstd::prelude::*;

verus! {

/// A path from the root node to the end node: its conditions in order, the sum
/// of the costs of its edges, and the documents that satisfy every condition.
pub struct RankedPath<C> {
    pub conditions: Vec<Interned<C>>,
    pub cost: u64,
    pub docids: DocIds,
}

/// Where a path stands while it is searched. A dead path and a complete path
/// stay what they are.
pub enum PathState {
    /// The path has not reached the end node and still matches a document.
    Extending,
    /// No document satisfies the conditions of the path.
    Dead,
    /// The path has reached the end node and matches a document.
    Complete,
}

impl PathState {
    /// The state of a path after one more edge, given whether a document is
    /// left and whether the edge leads to the end node.
    pub open spec fn after_edge(self, no_document_left: bool, at_end: bool) -> PathState {
        match self {
            PathState::Extending => if no_document_left {
                PathState::Dead
            } else if at_end {
                PathState::Complete
            } else {
                PathState::Extending
            },
            PathState::Dead => PathState::Dead,
            PathState::Complete => PathState::Complete,
        }
    }

    pub fn next(self, no_document_left: bool, at_end: bool) -> (state: PathState)
        ensures
            state == self.after_edge(no_document_left, at_end),
    {
        match self {
            PathState::Extending => if no_document_left {
                PathState::Dead
            } else if at_end {
                PathState::Complete
            } else {
                PathState::Extending
            },
            PathState::Dead => PathState::Dead,
            PathState::Complete => PathState::Complete,
        }
    }
}

/// What a [`RankedPath`] stands for.
pub struct PathView<C> {
    pub conditions: Seq<Interned<C>>,
    pub cost: u64,
    pub docids: Set<u32>,
}

impl<C> View for RankedPath<C> {
    type V = PathView<C>;

    open spec fn view(&self) -> PathView<C> {
        PathView { conditions: self.conditions@, cost: self.cost, docids: self.docids@ }
    }
}

pub open spec fn path_views<C>(paths: Seq<RankedPath<C>>) -> Seq<PathView<C>> {
    paths.map_values(|path: RankedPath<C>| path@)
}

/// The search returned what was expected of it: the expected paths, or the
/// expected error.
pub open spec fn yields<C>(
    result: Result<Vec<RankedPath<C>>, Error>,
    expected: Result<Seq<PathView<C>>, Error>,
) -> bool {
    match expected {
        Ok(paths) => result matches Ok(found) && path_views(found@) == paths,
        Err(error) => result matches Err(e) && e == error,
    }
}

/// The cache treats every one of `prefixes` as dead for `universe`.
pub open spec fn all_dead<C>(
    cache: &DeadEndsCache<C>,
    prefixes: Seq<Seq<Interned<C>>>,
    universe: Set<u32>,
) -> bool {
    forall|i: int| 0 <= i < prefixes.len() ==> cache.is_dead_for(#[trigger] prefixes[i], universe)
}

/// The conditions of a path after it took `edge`.
pub open spec fn extended<C>(prefix: Seq<Interned<C>>, edge: Edge<C>) -> Seq<Interned<C>> {
    match edge.condition {
        Some(condition) => prefix.push(condition),
        None => prefix,
    }
}

impl<G: RankingRuleGraphTrait> RankingRuleGraph<G> {
    /// The documents that satisfy the condition of `edge`, whatever the
    /// universe. An edge without a condition is satisfied by every document.
    pub open spec fn edge_docids(&self, ctx: &SearchContext, edge: Edge<G::Condition>) -> Result<
        Set<u32>,
        Error,
    > {
        match edge.condition {
            Some(condition) => G::condition_docids(
                ctx,
                &self.conditions_interner.value(condition),
            ),
            None => Ok(Set::full()),
        }
    }

    /// The documents that satisfy all of `conditions`, or the error of the
    /// first one that cannot be resolved.
    pub open spec fn conditions_docids(
        &self,
        ctx: &SearchContext,
        conditions: Seq<Interned<G::Condition>>,
    ) -> Result<Set<u32>, Error>
        decreases conditions.len(),
    {
        if conditions.len() == 0 {
            Ok(Set::full())
        } else {
            match self.conditions_docids(ctx, conditions.drop_last()) {
                Err(error) => Err(error),
                Ok(satisfying) => match G::condition_docids(
                    ctx,
                    &self.conditions_interner.value(conditions.last()),
                ) {
                    Err(error) => Err(error),
                    Ok(matching) => Ok(satisfying.intersect(matching)),
                },
            }
        }
    }

    /// The paths of cost `total` that continue a path which has reached
    /// `node` with conditions `prefix`, documents `found` and `budget` left to
    /// spend, and which leave `node` by its `k`-th edge or a later one. The
    /// paths come in depth-first order, the edges of a node in their stored
    /// order, which in a built graph is the ascending order of their costs.
    /// An edge is followed only where a path of exactly the remaining
    /// cost goes through it; a path is given up as soon as no document is
    /// left. Resolving a condition may fail: the first failure in that order
    /// is the result.
    pub open spec fn explore(
        &self,
        ctx: &SearchContext,
        total: u64,
        node: int,
        k: int,
        budget: int,
        found: Set<u32>,
        prefix: Seq<Interned<G::Condition>>,
    ) -> Result<Seq<PathView<G::Condition>>, Error>
        decreases self.query_graph.nodes@.len() - node, self.edges(node).len() - k,
    {
        if node == self.query_graph.end_node.idx {
            if budget == 0 {
                Ok(seq![PathView { conditions: prefix, cost: total, docids: found }])
            } else {
                Ok(Seq::empty())
            }
        } else if !(0 <= node < self.edges_of_node@.len()) || k < 0 || k >= self.edges(node).len() {
            Ok(Seq::empty())
        } else {
            let edge = self.edges(node)[k];
            let first = if self.step_reaches(node, k, budget) {
                match self.edge_docids(ctx, edge) {
                    Err(error) => Err(error),
                    Ok(matching) => if found.intersect(matching) =~= Set::<u32>::empty() {
                        Ok(Seq::empty())
                    } else {
                        self.explore(
                            ctx,
                            total,
                            edge.dest_node.idx as int,
                            0,
                            budget - edge.cost,
                            found.intersect(matching),
                            extended(prefix, edge),
                        )
                    },
                }
            } else {
                Ok(Seq::empty())
            };
            in_turn(first, self.explore(ctx, total, node, k + 1, budget, found, prefix))
        }
    }

    /// The paths that leave `node` by its `k`-th edge.
    pub open spec fn through_edge(
        &self,
        ctx: &SearchContext,
        total: u64,
        node: int,
        k: int,
        budget: int,
        found: Set<u32>,
        prefix: Seq<Interned<G::Condition>>,
    ) -> Result<Seq<PathView<G::Condition>>, Error> {
        let edge = self.edges(node)[k];
        if self.step_reaches(node, k, budget) {
            match self.edge_docids(ctx, edge) {
                Err(error) => Err(error),
                Ok(matching) => if found.intersect(matching) =~= Set::<u32>::empty() {
                    Ok(Seq::empty())
                } else {
                    self.explore(
                        ctx,
                        total,
                        edge.dest_node.idx as int,
                        0,
                        budget - edge.cost,
                        found.intersect(matching),
                        extended(prefix, edge),
                    )
                },
            }
        } else {
            Ok(Seq::empty())
        }
    }

    /// The prefixes that the search from `node` finds dead, in the order in
    /// which it meets them: each continues a path that still matched a
    /// document by one edge whose condition none of these documents
    /// satisfies.
    pub open spec fn dead_ends(
        &self,
        ctx: &SearchContext,
        node: int,
        k: int,
        budget: int,
        found: Set<u32>,
        prefix: Seq<Interned<G::Condition>>,
    ) -> Seq<Seq<Interned<G::Condition>>>
        decreases self.query_graph.nodes@.len() - node, self.edges(node).len() - k,
    {
        if node == self.query_graph.end_node.idx || !(0 <= node < self.edges_of_node@.len()) || k
            < 0 || k >= self.edges(node).len() {
            Seq::empty()
        } else {
            let edge = self.edges(node)[k];
            let first = if self.step_reaches(node, k, budget) {
                match self.edge_docids(ctx, edge) {
                    Err(_) => Seq::empty(),
                    Ok(matching) => if found.intersect(matching) =~= Set::<u32>::empty() {
                        seq![extended(prefix, edge)]
                    } else {
                        self.dead_ends(
                            ctx,
                            edge.dest_node.idx as int,
                            0,
                            budget - edge.cost,
                            found.intersect(matching),
                            extended(prefix, edge),
                        )
                    },
                }
            } else {
                Seq::empty()
            };
            first + self.dead_ends(ctx, node, k + 1, budget, found, prefix)
        }
    }

    /// The prefixes that the search finds dead through the `k`-th edge that
    /// leaves `node`.
    pub open spec fn dead_ends_through(
        &self,
        ctx: &SearchContext,
        node: int,
        k: int,
        budget: int,
        found: Set<u32>,
        prefix: Seq<Interned<G::Condition>>,
    ) -> Seq<Seq<Interned<G::Condition>>> {
        let edge = self.edges(node)[k];
        if self.step_reaches(node, k, budget) {
            match self.edge_docids(ctx, edge) {
                Err(_) => Seq::empty(),
                Ok(matching) => if found.intersect(matching) =~= Set::<u32>::empty() {
                    seq![extended(prefix, edge)]
                } else {
                    self.dead_ends(
                        ctx,
                        edge.dest_node.idx as int,
                        0,
                        budget - edge.cost,
                        found.intersect(matching),
                        extended(prefix, edge),
                    )
                },
            }
        } else {
            Seq::empty()
        }
    }

    /// The dead ends from the `k`-th edge on are those through the `k`-th
    /// edge, then those from the next edge on.
    pub proof fn lemma_dead_ends_edge(
        &self,
        ctx: &SearchContext,
        node: int,
        k: int,
        budget: int,
        found: Set<u32>,
        prefix: Seq<Interned<G::Condition>>,
    )
        requires
            node != self.query_graph.end_node.idx,
            0 <= node < self.edges_of_node@.len(),
            0 <= k < self.edges(node).len(),
        ensures
            self.dead_ends(ctx, node, k, budget, found, prefix) == self.dead_ends_through(
                ctx,
                node,
                k,
                budget,
                found,
                prefix,
            ) + self.dead_ends(ctx, node, k + 1, budget, found, prefix),
    {
    }

    /// The paths from the `k`-th edge on are those through the `k`-th edge,
    /// then those from the next edge on.
    pub proof fn lemma_explore_edge(
        &self,
        ctx: &SearchContext,
        total: u64,
        node: int,
        k: int,
        budget: int,
        found: Set<u32>,
        prefix: Seq<Interned<G::Condition>>,
    )
        requires
            node != self.query_graph.end_node.idx,
            0 <= node < self.edges_of_node@.len(),
            0 <= k < self.edges(node).len(),
        ensures
            self.explore(ctx, total, node, k, budget, found, prefix) == in_turn(
                self.through_edge(ctx, total, node, k, budget, found, prefix),
                self.explore(ctx, total, node, k + 1, budget, found, prefix),
            ),
    {
    }

    /// `conditions` is resolved without error and no document of `universe`
    /// satisfies all of it.
    pub open spec fn dead_in(
        &self,
        ctx: &SearchContext,
        conditions: Seq<Interned<G::Condition>>,
        universe: Set<u32>,
    ) -> bool {
        self.conditions_docids(ctx, conditions) matches Ok(satisfying) && satisfying.intersect(
            universe,
        ) =~= Set::<u32>::empty()
    }

    /// Every mark of `cache` is true of this graph: the marked prefix matches
    /// no document of the universe that the cache recorded.
    pub open spec fn cache_sound(
        &self,
        ctx: &SearchContext,
        cache: &DeadEndsCache<G::Condition>,
    ) -> bool {
        forall|i: int|
            0 <= i < cache.marked().len() ==> self.dead_in(
                ctx,
                #[trigger] cache.marked()[i],
                cache.universe@,
            )
    }

    /// Where a sequence of conditions is resolved without error, so is each of
    /// its prefixes, and the prefix is satisfied by at least the same
    /// documents.
    pub proof fn lemma_prefix_docids(
        &self,
        ctx: &SearchContext,
        prefix: Seq<Interned<G::Condition>>,
        conditions: Seq<Interned<G::Condition>>,
    )
        requires
            prefix.is_prefix_of(conditions),
            self.conditions_docids(ctx, conditions) is Ok,
        ensures
            self.conditions_docids(ctx, prefix) is Ok,
            self.conditions_docids(ctx, conditions)->Ok_0.subset_of(
                self.conditions_docids(ctx, prefix)->Ok_0,
            ),
        decreases conditions.len(),
    {
        if prefix.len() == conditions.len() {
            assert(prefix =~= conditions);
        } else {
            let shorter = conditions.drop_last();
            assert(prefix =~= shorter.subrange(0, prefix.len() as int));
            self.lemma_prefix_docids(ctx, prefix, shorter);
        }
    }

    /// A path that the cache treats as dead for a universe matches no
    /// document of it, whenever the cache is sound.
    pub proof fn lemma_dead_is_empty(
        &self,
        ctx: &SearchContext,
        cache: &DeadEndsCache<G::Condition>,
        conditions: Seq<Interned<G::Condition>>,
        universe: Set<u32>,
    )
        requires
            self.cache_sound(ctx, cache),
            cache.is_dead_for(conditions, universe),
            self.conditions_docids(ctx, conditions) is Ok,
        ensures
            self.conditions_docids(ctx, conditions)->Ok_0.intersect(universe) =~= Set::<u32>::empty(),
    {
        let i = choose|i: int|
            0 <= i < cache.marked().len() && (#[trigger] cache.marked()[i]).is_prefix_of(
                conditions,
            );
        let marked = cache.marked()[i];
        assert(self.dead_in(ctx, marked, cache.universe@));
        self.lemma_prefix_docids(ctx, marked, conditions);
    }

    /// Searches from `node` on, and appends what it finds to `out`.
    fn visit(
        &self,
        ctx: &SearchContext,
        universe: &DocIds,
        costs: &MappedInterner<QueryNode, Vec<u64>>,
        resolved: &mut ConditionDocIdsCache,
        cache: &mut DeadEndsCache<G::Condition>,
        total: u64,
        node: usize,
        budget: u64,
        found: &DocIds,
        prefix: &mut Vec<Interned<G::Condition>>,
        out: &mut Vec<RankedPath<G::Condition>>,
    ) -> (outcome: Result<(), Error>)
        requires
            self.wf(),
            self.costs_ok(costs),
            node < self.query_graph.nodes@.len(),
            node != self.query_graph.end_node.idx,
            self.resolutions_sound(ctx, old(resolved)),
            old(resolved).universe@ == universe@,
            self.cache_sound(ctx, old(cache)),
            self.conditions_docids(ctx, old(prefix)@) matches Ok(satisfying) && found@
                == satisfying.intersect(universe@),
            !(found@ =~= Set::<u32>::empty()),
        ensures
            self.resolutions_sound(ctx, final(resolved)),
            final(resolved).universe@ == universe@,
            self.cache_sound(ctx, final(cache)),
            final(cache).keeps_marks_of(old(cache), universe@),
            match self.explore(
                ctx,
                total,
                node as int,
                0,
                budget as int,
                found@,
                old(prefix)@,
            ) {
                Ok(paths) => outcome is Ok && path_views(final(out)@) == path_views(old(out)@)
                    + paths && final(prefix)@ == old(prefix)@,
                Err(error) => outcome matches Err(e) && e == error,
            },
            outcome is Ok ==> all_dead(
                final(cache),
                self.dead_ends(ctx, node as int, 0, budget as int, found@, old(prefix)@),
                universe@,
            ),
        decreases self.query_graph.nodes@.len() - node,
    {
        let ghost whole = self.explore(
            ctx,
            total,
            node as int,
            0,
            budget as int,
            found@,
            old(prefix)@,
        );
        let ghost mut acc: Seq<PathView<G::Condition>> = Seq::empty();
        let ghost mut dead_acc: Seq<Seq<Interned<G::Condition>>> = Seq::empty();
        let edges = &self.edges_of_node[node];
        let end = self.query_graph.end_node.idx;
        let mut k: usize = 0;
        proof {
            assert(dead_acc + self.dead_ends(
                ctx,
                node as int,
                0,
                budget as int,
                found@,
                old(prefix)@,
            ) =~= self.dead_ends(ctx, node as int, 0, budget as int, found@, old(prefix)@));
            assert(path_views(out@) =~= path_views(old(out)@) + acc);
            match whole {
                Ok(paths) => {
                    assert(acc + paths =~= paths);
                },
                Err(_) => {},
            }
        }
        while k < edges.len()
            invariant
                self.wf(),
                self.costs_ok(costs),
                node < self.query_graph.nodes@.len(),
                node != self.query_graph.end_node.idx,
                end == self.query_graph.end_node.idx,
                *edges == self.edges_of_node@[node as int],
                k <= edges.len(),
                self.resolutions_sound(ctx, resolved),
                resolved.universe@ == universe@,
                self.cache_sound(ctx, cache),
                cache.keeps_marks_of(old(cache), universe@),
                self.conditions_docids(ctx, old(prefix)@) matches Ok(satisfying) && found@
                    == satisfying.intersect(universe@),
                !(found@ =~= Set::<u32>::empty()),
                prefix@ == old(prefix)@,
                path_views(out@) == path_views(old(out)@) + acc,
                whole == self.explore(
                    ctx,
                    total,
                    node as int,
                    0,
                    budget as int,
                    found@,
                    old(prefix)@,
                ),
                whole == prepend(
                    acc,
                    self.explore(
                        ctx,
                        total,
                        node as int,
                        k as int,
                        budget as int,
                        found@,
                        old(prefix)@,
                    ),
                ),
                all_dead(cache, dead_acc, universe@),
                self.dead_ends(ctx, node as int, 0, budget as int, found@, old(prefix)@)
                    == dead_acc + self.dead_ends(
                    ctx,
                    node as int,
                    k as int,
                    budget as int,
                    found@,
                    old(prefix)@,
                ),
            decreases edges.len() - k,
        {
            let ghost first = self.through_edge(
                ctx,
                total,
                node as int,
                k as int,
                budget as int,
                found@,
                old(prefix)@,
            );
            let ghost rest = self.explore(
                ctx,
                total,
                node as int,
                k + 1,
                budget as int,
                found@,
                old(prefix)@,
            );
            let ghost out_before = path_views(out@);
            let ghost dead_first = self.dead_ends_through(
                ctx,
                node as int,
                k as int,
                budget as int,
                found@,
                old(prefix)@,
            );
            let ghost dead_rest = self.dead_ends(
                ctx,
                node as int,
                k + 1,
                budget as int,
                found@,
                old(prefix)@,
            );
            let ghost cache_at_edge = *cache;
            proof {
                self.lemma_dead_ends_edge(
                    ctx,
                    node as int,
                    k as int,
                    budget as int,
                    found@,
                    old(prefix)@,
                );
                self.lemma_explore_edge(
                    ctx,
                    total,
                    node as int,
                    k as int,
                    budget as int,
                    found@,
                    old(prefix)@,
                );
                assert(whole == prepend(acc, in_turn(first, rest)));
            }
            let edge = &edges[k];
            let dest = edge.dest_node.idx;
            let step: u64 = edge.cost as u64;
            let follow = step <= budget && has_cost(costs.get(edge.dest_node), budget - step);
            proof {
                assert(follow == self.step_reaches(node as int, k as int, budget as int)) by {
                    if step <= budget {
                        assert(self.node_costs_ok(dest as int, costs.stable_store@[dest as int]@));
                    }
                }
            }
            // The paths that this edge contributed.
            let ghost mut head: Seq<PathView<G::Condition>> = Seq::empty();
            if follow {
                match edge.condition {
                    None => {
                        proof {
                            assert(found@.intersect(Set::<u32>::full()) =~= found@);
                        }
                        match PathState::Extending.next(false, dest == end) {
                            PathState::Complete => {
                                let path = RankedPath {
                                    conditions: copy_path(prefix),
                                    cost: total,
                                    docids: found.clone(),
                                };
                                out.push(path);
                                proof {
                                    head = seq![path@];
                                }
                            },
                            PathState::Extending => {
                                match self.visit(
                                    ctx,
                                    universe,
                                    costs,
                                    resolved,
                                    cache,
                                    total,
                                    dest,
                                    budget - step,
                                    found,
                                    prefix,
                                    out,
                                ) {
                                    Err(error) => {
                                        return Err(error);
                                    },
                                    Ok(()) => {},
                                }
                                proof {
                                    head = first->Ok_0;
                                }
                            },
                            PathState::Dead => {},
                        }
                    },
                    Some(condition) => {
                        prefix.push(condition);
                        if cache.is_dead(prefix, universe) {
                            proof {
                                self.lemma_dead_edge(
                                    ctx,
                                    cache,
                                    old(prefix)@,
                                    condition,
                                    found@,
                                    universe@,
                                );
                            }
                        } else {
                            match self.get_computed_condition(ctx, resolved, condition, universe) {
                                Err(error) => {
                                    return Err(error);
                                },
                                Ok(computed) => {
                                    let mut narrowed = computed;
                                    narrowed.intersect_with(found);
                                    let ghost matching = G::condition_docids(
                                        ctx,
                                        &self.conditions_interner.value(condition),
                                    )->Ok_0;
                                    proof {
                                        assert(narrowed@ =~= found@.intersect(
                                            matching,
                                        ));
                                        assert(prefix@.drop_last() =~= old(prefix)@);
                                        assert(prefix@.last() == condition);
                                        let satisfying = self.conditions_docids(
                                            ctx,
                                            old(prefix)@,
                                        )->Ok_0;
                                        assert(narrowed@ =~= satisfying.intersect(
                                            matching,
                                        ).intersect(universe@));
                                    }
                                    let state = PathState::Extending.next(
                                        narrowed.is_empty(),
                                        dest == end,
                                    );
                                    match state {
                                        PathState::Dead => {
                                            let ghost cache_before = *cache;
                                            cache.mark_dead(prefix, universe);
                                            proof {
                                                self.lemma_mark_keeps_sound(
                                                    ctx,
                                                    cache_before,
                                                    *cache,
                                                    prefix@,
                                                    universe@,
                                                );
                                            }
                                        },
                                        PathState::Complete => {
                                            let path = RankedPath {
                                                conditions: copy_path(prefix),
                                                cost: total,
                                                docids: narrowed,
                                            };
                                            out.push(path);
                                            proof {
                                                head = seq![path@];
                                            }
                                        },
                                        PathState::Extending => {
                                            match self.visit(
                                                ctx,
                                                universe,
                                                costs,
                                                resolved,
                                                cache,
                                                total,
                                                dest,
                                                budget - step,
                                                &narrowed,
                                                prefix,
                                                out,
                                            ) {
                                                Err(error) => {
                                                    return Err(error);
                                                },
                                                Ok(()) => {},
                                            }
                                            proof {
                                                head = first->Ok_0;
                                            }
                                        },
                                    }
                                },
                            }
                        }
                        prefix.pop();
                        proof {
                            assert(prefix@ =~= old(prefix)@);
                        }
                    },
                }
            }
            proof {
                assert(first == Ok::<Seq<PathView<G::Condition>>, Error>(head));
                assert(path_views(out@) =~= out_before + head);
                assert((path_views(old(out)@) + acc) + head =~= path_views(old(out)@) + (acc
                    + head));
                match rest {
                    Ok(tail) => {
                        assert(acc + (head + tail) =~= (acc + head) + tail);
                    },
                    Err(_) => {},
                }
                acc = acc + head;
                assert(all_dead(cache, dead_first, universe@));
                assert(cache.keeps_marks_of(&cache_at_edge, universe@));
                assert forall|i: int| 0 <= i < (dead_acc + dead_first).len() implies cache.is_dead_for(
                    #[trigger] (dead_acc + dead_first)[i],
                    universe@,
                ) by {
                    if i < dead_acc.len() {
                        assert(cache_at_edge.is_dead_for(dead_acc[i], universe@));
                    } else {
                        assert(cache.is_dead_for(
                            dead_first[i - dead_acc.len()],
                            universe@,
                        ));
                    }
                }
                assert(dead_acc + (dead_first + dead_rest) =~= (dead_acc + dead_first)
                    + dead_rest);
                dead_acc = dead_acc + dead_first;
            }
            k += 1;
        }
        proof {
            assert(acc + Seq::<PathView<G::Condition>>::empty() =~= acc);
            assert(dead_acc + Seq::<Seq<Interned<G::Condition>>>::empty() =~= dead_acc);
        }
        Ok(())
    }

    /// Where the cache treats a path as dead that continues a live path by
    /// one condition, no document of the live path satisfies that condition.
    pub proof fn lemma_dead_edge(
        &self,
        ctx: &SearchContext,
        cache: &DeadEndsCache<G::Condition>,
        prefix: Seq<Interned<G::Condition>>,
        condition: Interned<G::Condition>,
        found: Set<u32>,
        universe: Set<u32>,
    )
        requires
            self.cache_sound(ctx, cache),
            cache.is_dead_for(prefix.push(condition), universe),
            self.conditions_docids(ctx, prefix) matches Ok(satisfying) && found
                == satisfying.intersect(universe),
            !(found =~= Set::<u32>::empty()),
        ensures
            G::condition_docids(ctx, &self.conditions_interner.value(condition)) matches Ok(
                matching,
            ) && found.intersect(matching) =~= Set::<u32>::empty(),
    {
        let longer = prefix.push(condition);
        let i = choose|i: int|
            0 <= i < cache.marked().len() && (#[trigger] cache.marked()[i]).is_prefix_of(longer);
        let marked = cache.marked()[i];
        assert(self.dead_in(ctx, marked, cache.universe@));
        if marked.len() <= prefix.len() {
            assert(marked =~= prefix.subrange(0, marked.len() as int));
            self.lemma_prefix_docids(ctx, marked, prefix);
            assert(false);
        } else {
            assert(marked =~= longer);
            assert(longer.drop_last() =~= prefix);
            assert(longer.last() == condition);
        }
    }

    /// Marking a prefix that matches no document of a universe keeps the cache
    /// sound.
    pub proof fn lemma_mark_keeps_sound(
        &self,
        ctx: &SearchContext,
        before: DeadEndsCache<G::Condition>,
        after: DeadEndsCache<G::Condition>,
        prefix: Seq<Interned<G::Condition>>,
        universe: Set<u32>,
    )
        requires
            self.cache_sound(ctx, &before),
            self.dead_in(ctx, prefix, universe),
            after.universe@ == universe,
            universe.subset_of(before.universe@) ==> after.marked() == before.marked().push(
                prefix,
            ),
            !universe.subset_of(before.universe@) ==> after.marked() == seq![prefix],
        ensures
            self.cache_sound(ctx, &after),
    {
        assert forall|i: int| 0 <= i < after.marked().len() implies self.dead_in(
            ctx,
            #[trigger] after.marked()[i],
            after.universe@,
        ) by {
            if universe.subset_of(before.universe@) && i < before.marked().len() {
                assert(after.marked()[i] == before.marked()[i]);
                assert(self.dead_in(ctx, before.marked()[i], before.universe@));
            }
        }
    }
}

impl<G: RankingRuleGraphTrait> RankingRuleGraph<G> {
    /// The paths from the root node to the end node that cost exactly `cost`
    /// and match a document of `universe`, in depth-first order.
    pub open spec fn paths_of_cost_in(
        &self,
        ctx: &SearchContext,
        universe: Set<u32>,
        cost: u64,
    ) -> Result<Seq<PathView<G::Condition>>, Error> {
        if universe =~= Set::<u32>::empty() {
            Ok(Seq::empty())
        } else {
            self.explore(
                ctx,
                cost,
                self.query_graph.root_node.idx as int,
                0,
                cost as int,
                universe,
                Seq::empty(),
            )
        }
    }

    /// The prefixes that the search for the paths of one cost finds dead.
    pub open spec fn dead_ends_of_cost(
        &self,
        ctx: &SearchContext,
        universe: Set<u32>,
        cost: u64,
    ) -> Seq<Seq<Interned<G::Condition>>> {
        if universe =~= Set::<u32>::empty() {
            Seq::empty()
        } else {
            self.dead_ends(
                ctx,
                self.query_graph.root_node.idx as int,
                0,
                cost as int,
                universe,
                Seq::empty(),
            )
        }
    }

    /// The paths that cost less than `bound`, the cheaper ones first.
    pub open spec fn ranked_below(&self, ctx: &SearchContext, universe: Set<u32>, bound: int) -> Result<
        Seq<PathView<G::Condition>>,
        Error,
    >
        decreases bound,
    {
        if bound <= 0 {
            Ok(Seq::empty())
        } else {
            in_turn(
                self.ranked_below(ctx, universe, bound - 1),
                self.paths_of_cost_in(ctx, universe, (bound - 1) as u64),
            )
        }
    }

    /// All the paths from the root node to the end node that match a document
    /// of `universe`: those of cost 0 first, then those of cost 1, and so on;
    /// paths of the same cost in depth-first order.
    pub open spec fn ranked_in(&self, ctx: &SearchContext, universe: Set<u32>) -> Result<
        Seq<PathView<G::Condition>>,
        Error,
    > {
        self.ranked_below(ctx, universe, u64::MAX + 1)
    }

    /// The paths of one cost. `costs` is the graph's cost table; the cache may
    /// hold marks of earlier searches and receives those of this one.
    pub fn paths_of_cost(
        &self,
        ctx: &SearchContext,
        universe: &DocIds,
        costs: &MappedInterner<QueryNode, Vec<u64>>,
        resolved: &mut ConditionDocIdsCache,
        cache: &mut DeadEndsCache<G::Condition>,
        cost: u64,
    ) -> (paths: Result<Vec<RankedPath<G::Condition>>, Error>)
        requires
            self.wf(),
            self.costs_ok(costs),
            self.resolutions_sound(ctx, old(resolved)),
            self.cache_sound(ctx, old(cache)),
        ensures
            self.resolutions_sound(ctx, final(resolved)),
            self.cache_sound(ctx, final(cache)),
            final(cache).keeps_marks_of(old(cache), universe@),
            yields(paths, self.paths_of_cost_in(ctx, universe@, cost)),
            paths is Ok ==> all_dead(
                final(cache),
                self.dead_ends_of_cost(ctx, universe@, cost),
                universe@,
            ),
    {
        let mut out: Vec<RankedPath<G::Condition>> = Vec::new();
        let root = self.query_graph.root_node.idx;
        proof {
            assert(path_views(out@) =~= Seq::empty());
        }
        match PathState::Extending.next(
            universe.is_empty(),
            root == self.query_graph.end_node.idx,
        ) {
            PathState::Dead => Ok(out),
            PathState::Complete => {
                if cost == 0 {
                    let path = RankedPath {
                        conditions: Vec::new(),
                        cost,
                        docids: universe.clone(),
                    };
                    out.push(path);
                    proof {
                        assert(path_views(out@) =~= seq![path@]);
                    }
                }
                Ok(out)
            },
            PathState::Extending => {
                resolved.rekey(universe);
                let found = universe.clone();
                let mut prefix: Vec<Interned<G::Condition>> = Vec::new();
                proof {
                    assert(found@ =~= Set::<u32>::full().intersect(universe@));
                }
                match self.visit(
                    ctx,
                    universe,
                    costs,
                    resolved,
                    cache,
                    cost,
                    root,
                    cost,
                    &found,
                    &mut prefix,
                    &mut out,
                ) {
                    Err(error) => Err(error),
                    Ok(()) => {
                        proof {
                            let expected = self.paths_of_cost_in(ctx, universe@, cost)->Ok_0;
                            assert(Seq::<PathView<G::Condition>>::empty() + expected =~= expected);
                        }
                        Ok(out)
                    },
                }
            },
        }
    }

    /// Where no path from `node` costs `budget`, the search from `node` finds
    /// nothing and resolves nothing.
    pub proof fn lemma_unreachable(
        &self,
        ctx: &SearchContext,
        total: u64,
        node: int,
        k: int,
        budget: int,
        found: Set<u32>,
        prefix: Seq<Interned<G::Condition>>,
    )
        requires
            !self.can_reach(node, budget),
            0 <= k,
        ensures
            self.explore(ctx, total, node, k, budget, found, prefix) == Ok::<
                Seq<PathView<G::Condition>>,
                Error,
            >(Seq::empty()),
        decreases self.edges(node).len() - k,
    {
        if node != self.query_graph.end_node.idx && 0 <= node < self.edges_of_node@.len() && k
            < self.edges(node).len() {
            self.lemma_can_reach(node, budget);
            assert(!self.step_reaches(node, k, budget));
            self.lemma_unreachable(ctx, total, node, k + 1, budget, found, prefix);
            assert(Seq::<PathView<G::Condition>>::empty() + Seq::<PathView<G::Condition>>::empty()
                =~= Seq::<PathView<G::Condition>>::empty());
        }
    }

    /// Costs that no path has add nothing to the ranking.
    pub proof fn lemma_ranked_skip(&self, ctx: &SearchContext, universe: Set<u32>, lo: int, hi: int)
        requires
            0 <= lo <= hi <= u64::MAX + 1,
            forall|cost: int|
                lo <= cost < hi ==> !self.can_reach(self.query_graph.root_node.idx as int, cost),
        ensures
            self.ranked_below(ctx, universe, hi) == self.ranked_below(ctx, universe, lo),
        decreases hi - lo,
    {
        if lo < hi {
            self.lemma_ranked_skip(ctx, universe, lo, hi - 1);
            self.lemma_unreachable(
                ctx,
                (hi - 1) as u64,
                self.query_graph.root_node.idx as int,
                0,
                hi - 1,
                universe,
                Seq::empty(),
            );
            match self.ranked_below(ctx, universe, hi - 1) {
                Ok(cheaper) => {
                    assert(cheaper + Seq::<PathView<G::Condition>>::empty() =~= cheaper);
                },
                Err(_) => {},
            }
        }
    }

    /// An error at one cost is the result whatever the later costs hold.
    pub proof fn lemma_ranked_error(&self, ctx: &SearchContext, universe: Set<u32>, lo: int, hi: int)
        requires
            lo <= hi,
            self.ranked_below(ctx, universe, lo) is Err,
        ensures
            self.ranked_below(ctx, universe, hi) == self.ranked_below(ctx, universe, lo),
        decreases hi - lo,
    {
        if lo < hi {
            self.lemma_ranked_error(ctx, universe, lo, hi - 1);
        }
    }

    /// Path search: all the paths from the root node to the end node that
    /// match a document of `universe`, from the cheapest to the most
    /// expensive.
    pub fn ranked_paths(&self, ctx: &SearchContext, universe: &DocIds) -> (paths: Result<
        Vec<RankedPath<G::Condition>>,
        Error,
    >)
        requires
            self.wf(),
        ensures
            yields(paths, self.ranked_in(ctx, universe@)),
    {
        let costs = self.compute_costs();
        let mut resolved = ConditionDocIdsCache::new();
        let mut cache: DeadEndsCache<G::Condition> = DeadEndsCache::new();
        let mut out: Vec<RankedPath<G::Condition>> = Vec::new();
        let root_costs = costs.get(self.query_graph.root_node);
        let ghost root = self.query_graph.root_node.idx as int;
        let ghost mut bound: int = 0;
        let mut i: usize = 0;
        proof {
            assert(path_views(out@) =~= Seq::empty());
            assert(self.node_costs_ok(root, costs.stable_store@[root]@));
        }
        while i < root_costs.len()
            invariant
                self.wf(),
                self.costs_ok(&costs),
                self.resolutions_sound(ctx, &resolved),
                self.cache_sound(ctx, &cache),
                root == self.query_graph.root_node.idx,
                self.node_costs_ok(root, root_costs@),
                i <= root_costs.len(),
                i == 0 ==> bound == 0,
                i > 0 ==> bound == root_costs@[i - 1] + 1,
                self.ranked_below(ctx, universe@, bound) == Ok::<
                    Seq<PathView<G::Condition>>,
                    Error,
                >(path_views(out@)),
            decreases root_costs.len() - i,
        {
            let cost = root_costs[i];
            proof {
                assert forall|c: int| bound <= c < cost implies !self.can_reach(root, c) by {
                    if self.can_reach(root, c) {
                        assert(root_costs@.contains(c as u64));
                        let j = choose|j: int| 0 <= j < root_costs@.len() && root_costs@[j] == c as u64;
                        if j < i {
                            if j < i - 1 {
                                assert(root_costs@[j] < root_costs@[i - 1]);
                            }
                        } else if j > i {
                            assert(root_costs@[i as int] < root_costs@[j]);
                        }
                    }
                }
                if i > 0 {
                    assert(root_costs@[i - 1] < root_costs@[i as int]);
                }
                self.lemma_ranked_skip(ctx, universe@, bound, cost as int);
            }
            match self.paths_of_cost(ctx, universe, &costs, &mut resolved, &mut cache, cost) {
                Err(error) => {
                    proof {
                        self.lemma_ranked_error(ctx, universe@, cost + 1, u64::MAX + 1);
                    }
                    return Err(error);
                },
                Ok(mut found) => {
                    let ghost before = out@;
                    let ghost added = found@;
                    out.append(&mut found);
                    proof {
                        assert(path_views(before + added) =~= path_views(before) + path_views(added));
                    }
                },
            }
            proof {
                bound = cost + 1;
            }
            i += 1;
        }
        proof {
            assert forall|c: int| bound <= c < u64::MAX + 1 implies !self.can_reach(root, c) by {
                if self.can_reach(root, c) {
                    assert(root_costs@.contains(c as u64));
                    let j = choose|j: int| 0 <= j < root_costs@.len() && root_costs@[j] == c as u64;
                    if j < i - 1 {
                        assert(root_costs@[j] < root_costs@[i - 1]);
                    }
                }
            }
            self.lemma_ranked_skip(ctx, universe@, bound, u64::MAX + 1);
        }
        Ok(out)
    }
}

} // verus!
