//! The graph of one ranking criterion: the query graph with each of its edges
//! expanded into the criterion's conditions.

use crate::bitmap::DocIds;
use crate::context::{Error, SearchContext};
use crate::interner::{DedupInterner, Internable, Interned};
use crate::query_graph::{
    successors_follow, LocatedQueryTermSubset, QueryGraph, QueryNode, QueryNodeData,
};
use vstd::prelude::*;

verus! {

/// A condition resolved against one universe.
pub struct ComputedCondition {
    /// The documents of the universe that satisfy the condition.
    pub docids: DocIds,
    /// The size of the universe at the time of the resolution.
    pub universe_len: u64,
    pub start_term_subset: Option<LocatedQueryTermSubset>,
    pub end_term_subset: LocatedQueryTermSubset,
}

/// A ranking criterion: which conditions it puts between two query nodes, and
/// which documents satisfy a condition.
pub trait RankingRuleGraphTrait: Sized {
    /// What the criterion may ask of a step from one query node to the next.
    type Condition: Internable;

    /// The documents that satisfy `condition` whatever the universe, or the
    /// error that resolving it meets.
    spec fn condition_docids(ctx: &SearchContext, condition: &Self::Condition) -> Result<
        Set<u32>,
        Error,
    >;

    /// The conditions that the criterion puts on the step to `dest_node`, each
    /// with its cost, or the error that building them meets.
    spec fn edge_conditions(
        ctx: &SearchContext,
        source_node: Option<LocatedQueryTermSubset>,
        dest_node: LocatedQueryTermSubset,
    ) -> Result<Seq<(u32, Self::Condition)>, Error>;

    /// The documents of `universe` that satisfy `condition`.
    fn resolve_condition(
        ctx: &SearchContext,
        condition: &Self::Condition,
        universe: &DocIds,
    ) -> (computed: Result<ComputedCondition, Error>)
        ensures
            computed matches Ok(c) ==> c.docids@.subset_of(universe@),
            match Self::condition_docids(ctx, condition) {
                Ok(matching) => computed matches Ok(c) && c.docids@ == matching.intersect(
                    universe@,
                ) && c.universe_len == universe@.len(),
                Err(error) => computed matches Err(e) && e == error,
            },
    ;

    /// Interns the conditions of the step to `dest_node` and returns their
    /// handles with their costs, in the criterion's order.
    fn build_edges(
        ctx: &SearchContext,
        conditions_interner: &mut DedupInterner<Self::Condition>,
        source_node: Option<&LocatedQueryTermSubset>,
        dest_node: &LocatedQueryTermSubset,
    ) -> (edges: Result<Vec<(u32, Interned<Self::Condition>)>, Error>)
        requires
            old(conditions_interner).wf(),
        ensures
            final(conditions_interner).wf(),
            final(conditions_interner).extends(old(conditions_interner)),
            match Self::edge_conditions(ctx, deref_option(source_node), *dest_node) {
                Ok(conditions) => edges matches Ok(list) && interned_as(
                    *final(conditions_interner),
                    list@,
                    conditions,
                ),
                Err(error) => edges matches Err(e) && e == error,
            },
    ;
}

pub open spec fn deref_option<T>(value: Option<&T>) -> Option<T> {
    match value {
        Some(v) => Some(*v),
        None => None,
    }
}

/// `list` holds, cost by cost, the handles that `interner` has for
/// `conditions`.
pub open spec fn interned_as<T: Internable>(
    interner: DedupInterner<T>,
    list: Seq<(u32, Interned<T>)>,
    conditions: Seq<(u32, T)>,
) -> bool {
    &&& list.len() == conditions.len()
    &&& forall|k: int|
        0 <= k < list.len() ==> {
            &&& (#[trigger] list[k]).0 == conditions[k].0
            &&& interner.has(list[k].1)
            &&& interner.value(list[k].1)@ == conditions[k].1@
        }
}

/// `found` followed by what `rest` found, unless `rest` failed.
pub open spec fn prepend<T>(found: Seq<T>, rest: Result<Seq<T>, Error>) -> Result<Seq<T>, Error> {
    match rest {
        Ok(tail) => Ok(found + tail),
        Err(error) => Err(error),
    }
}

/// What `first` found followed by what `rest` found, unless one of them
/// failed; the failure of `first` comes before that of `rest`.
pub open spec fn in_turn<T>(first: Result<Seq<T>, Error>, rest: Result<Seq<T>, Error>) -> Result<
    Seq<T>,
    Error,
> {
    match first {
        Ok(head) => prepend(head, rest),
        Err(error) => Err(error),
    }
}

/// An edge of the ranking-rule graph. An edge to the end node carries no
/// condition.
pub struct Edge<E> {
    pub source_node: Interned<QueryNode>,
    pub dest_node: Interned<QueryNode>,
    pub cost: u32,
    pub condition: Option<Interned<E>>,
}

/// The graph of one criterion over one query graph.
pub struct RankingRuleGraph<G: RankingRuleGraphTrait> {
    pub query_graph: QueryGraph,
    /// The edges that leave each node, in ascending order of cost.
    pub edges_of_node: Vec<Vec<Edge<G::Condition>>>,
    pub conditions_interner: DedupInterner<G::Condition>,
}

/// What the edges that leave one node must satisfy in a graph of `n_nodes`
/// nodes whose conditions are in `interner`.
pub open spec fn edges_wf<E: Internable>(
    edges: Seq<Edge<E>>,
    node: int,
    n_nodes: int,
    interner: DedupInterner<E>,
) -> bool {
    forall|k: int|
        0 <= k < edges.len() ==> {
            &&& (#[trigger] edges[k]).source_node.idx == node
            &&& node < edges[k].dest_node.idx < n_nodes
            &&& edges[k].condition matches Some(handle) ==> interner.has(handle)
        }
}

/// What an edge stands for: where it leads, what it costs, and the condition
/// that its handle stands for.
pub struct EdgeView<V> {
    pub dest_node: Interned<QueryNode>,
    pub cost: u32,
    pub condition: Option<V>,
}

pub open spec fn edge_view<E: Internable>(interner: DedupInterner<E>, edge: Edge<E>) -> EdgeView<
    E::V,
> {
    EdgeView {
        dest_node: edge.dest_node,
        cost: edge.cost,
        condition: match edge.condition {
            Some(handle) => Some(interner.value(handle)@),
            None => None,
        },
    }
}

pub open spec fn edge_views<E: Internable>(
    interner: DedupInterner<E>,
    edges: Seq<Edge<E>>,
) -> Seq<EdgeView<E::V>> {
    edges.map_values(|edge: Edge<E>| edge_view(interner, edge))
}

/// What a node hands to the criterion as the source of a step: its term, or
/// nothing for the start node. No edge leaves a deleted node or the end node.
pub open spec fn source_of(data: QueryNodeData) -> Option<Option<LocatedQueryTermSubset>> {
    match data {
        QueryNodeData::Term(term) => Some(Some(term)),
        QueryNodeData::Start => Some(None),
        QueryNodeData::Deleted => None,
        QueryNodeData::End => None,
    }
}

pub fn source_term(data: &QueryNodeData) -> (source: Option<Option<LocatedQueryTermSubset>>)
    ensures
        source == source_of(*data),
{
    match data {
        QueryNodeData::Term(term) => Some(Some(*term)),
        QueryNodeData::Start => Some(None),
        QueryNodeData::Deleted => None,
        QueryNodeData::End => None,
    }
}

/// Edges whose handles are in an interner stand for the same in an interner
/// that extends it.
pub proof fn lemma_views_stable<E: Internable>(
    earlier: DedupInterner<E>,
    later: DedupInterner<E>,
    edges: Seq<Edge<E>>,
    node: int,
    n_nodes: int,
)
    requires
        later.extends(&earlier),
        edges_wf(edges, node, n_nodes, earlier),
    ensures
        edges_wf(edges, node, n_nodes, later),
        edge_views(later, edges) == edge_views(earlier, edges),
{
    assert forall|k: int| 0 <= k < edges.len() implies edge_view(later, edges[k]) == edge_view(
        earlier,
        edges[k],
    ) by {
        assert(edges[k].condition matches Some(handle) ==> earlier.has(handle));
    }
    assert(edge_views(later, edges) =~= edge_views(earlier, edges));
}

/// Where an edge of cost `cost` goes among edges that ascend by cost: behind
/// the last edge that costs no more.
pub open spec fn cost_slot(costs: Seq<u32>, cost: u32) -> int
    decreases costs.len(),
{
    if costs.len() == 0 {
        0
    } else if costs.first() > cost {
        0
    } else {
        1 + cost_slot(costs.drop_first(), cost)
    }
}

pub open spec fn costs_of<V>(edges: Seq<EdgeView<V>>) -> Seq<u32> {
    edges.map_values(|edge: EdgeView<V>| edge.cost)
}

pub open spec fn edge_costs<E>(edges: Seq<Edge<E>>) -> Seq<u32> {
    edges.map_values(|edge: Edge<E>| edge.cost)
}

/// The edges in ascending order of cost, edges of the same cost in the order
/// in which they stand in `edges`.
pub open spec fn by_cost<V>(edges: Seq<EdgeView<V>>) -> Seq<EdgeView<V>>
    decreases edges.len(),
{
    if edges.len() == 0 {
        Seq::empty()
    } else {
        let sorted = by_cost(edges.drop_last());
        sorted.insert(cost_slot(costs_of(sorted), edges.last().cost), edges.last())
    }
}

/// The slot of a cost is the position of the first cost above it.
pub proof fn lemma_cost_slot(costs: Seq<u32>, cost: u32)
    ensures
        0 <= cost_slot(costs, cost) <= costs.len(),
        cost_slot(costs, cost) < costs.len() ==> costs[cost_slot(costs, cost)] > cost,
        forall|i: int| 0 <= i < cost_slot(costs, cost) ==> costs[i] <= cost,
    decreases costs.len(),
{
    if costs.len() > 0 && costs.first() <= cost {
        let rest = costs.drop_first();
        lemma_cost_slot(rest, cost);
        let p = cost_slot(rest, cost);
        assert forall|i: int| 0 <= i < 1 + p implies costs[i] <= cost by {
            if i > 0 {
                assert(rest[i - 1] == costs[i]);
            }
        }
        if p < rest.len() {
            assert(rest[p] == costs[p + 1]);
        }
    }
}

/// `by_cost` keeps every edge and puts the edges in ascending order of cost.
pub proof fn lemma_by_cost<V>(edges: Seq<EdgeView<V>>)
    ensures
        by_cost(edges).len() == edges.len(),
        forall|i: int, j: int|
            0 <= i <= j < by_cost(edges).len() ==> by_cost(edges)[i].cost <= by_cost(edges)[j].cost,
    decreases edges.len(),
{
    if edges.len() > 0 {
        let sorted = by_cost(edges.drop_last());
        let last = edges.last();
        lemma_by_cost(edges.drop_last());
        lemma_cost_slot(costs_of(sorted), last.cost);
        let p = cost_slot(costs_of(sorted), last.cost);
        let all = sorted.insert(p, last);
        assert forall|i: int, j: int| 0 <= i <= j < all.len() implies all[i].cost
            <= all[j].cost by {
            if i < p {
                assert(all[i] == sorted[i]);
                assert(costs_of(sorted)[i] <= last.cost);
            } else if i > p {
                assert(all[i] == sorted[i - 1]);
            }
            if j < p {
                assert(all[j] == sorted[j]);
            } else if j > p {
                assert(all[j] == sorted[j - 1]);
                if p < sorted.len() {
                    assert(costs_of(sorted)[p] > last.cost);
                    assert(sorted[p].cost <= sorted[j - 1].cost);
                }
            }
        }
    }
}

/// Puts an edge among edges that ascend by cost: behind the last edge that
/// costs no more.
pub fn insert_edge<E>(edges: &mut Vec<Edge<E>>, edge: Edge<E>)
    ensures
        final(edges)@ == old(edges)@.insert(
            cost_slot(edge_costs(old(edges)@), edge.cost),
            edge,
        ),
        0 <= cost_slot(edge_costs(old(edges)@), edge.cost) <= old(edges)@.len(),
{
    let mut i: usize = 0;
    proof {
        assert(edge_costs(edges@).skip(0) =~= edge_costs(edges@));
    }
    while i < edges.len() && edges[i].cost <= edge.cost
        invariant
            i <= edges.len(),
            *edges == *old(edges),
            cost_slot(edge_costs(edges@), edge.cost) == i + cost_slot(
                edge_costs(edges@).skip(i as int),
                edge.cost,
            ),
        decreases edges.len() - i,
    {
        proof {
            let rest = edge_costs(edges@).skip(i as int);
            assert(rest.first() == edges@[i as int].cost);
            assert(rest.drop_first() =~= edge_costs(edges@).skip(i + 1));
        }
        i += 1;
    }
    proof {
        let rest = edge_costs(edges@).skip(i as int);
        if i < edges.len() {
            assert(rest.first() == edges@[i as int].cost);
        }
    }
    edges.insert(i, edge);
}

/// Putting a well-formed edge in its slot keeps the edges well-formed, and
/// what they stand for is `by_cost` of what was built, in building order.
pub proof fn lemma_inserted_edge<E: Internable>(
    interner: DedupInterner<E>,
    before: Seq<Edge<E>>,
    edge: Edge<E>,
    node: int,
    n_nodes: int,
    done: Seq<EdgeView<E::V>>,
)
    requires
        edges_wf(before, node, n_nodes, interner),
        edge.source_node.idx == node,
        node < edge.dest_node.idx < n_nodes,
        edge.condition matches Some(handle) ==> interner.has(handle),
        edge_views(interner, before) == by_cost(done),
    ensures
        0 <= cost_slot(edge_costs(before), edge.cost) <= before.len(),
        edges_wf(
            before.insert(cost_slot(edge_costs(before), edge.cost), edge),
            node,
            n_nodes,
            interner,
        ),
        edge_views(interner, before.insert(cost_slot(edge_costs(before), edge.cost), edge))
            == by_cost(done.push(edge_view(interner, edge))),
{
    lemma_cost_slot(edge_costs(before), edge.cost);
    let p = cost_slot(edge_costs(before), edge.cost);
    let after = before.insert(p, edge);
    assert forall|k: int| 0 <= k < after.len() implies {
        &&& (#[trigger] after[k]).source_node.idx == node
        &&& node < after[k].dest_node.idx < n_nodes
        &&& after[k].condition matches Some(handle) ==> interner.has(handle)
    } by {
        if k < p {
            assert(after[k] == before[k]);
        } else if k > p {
            assert(after[k] == before[k - 1]);
        }
    }
    let longer = done.push(edge_view(interner, edge));
    assert(longer.drop_last() =~= done);
    assert(costs_of(edge_views(interner, before)) =~= edge_costs(before));
    assert(edge_views(interner, after) =~= edge_views(interner, before).insert(
        p,
        edge_view(interner, edge),
    ));
}

impl<G: RankingRuleGraphTrait> RankingRuleGraph<G> {
    /// The edges of the step from node `source` to node `dest`: one edge
    /// without condition and cost where `dest` is the end node, the
    /// criterion's conditions where `dest` is a term, and none otherwise.
    pub open spec fn step_edges(
        ctx: &SearchContext,
        nodes: Seq<QueryNode>,
        source: int,
        dest: Interned<QueryNode>,
    ) -> Result<Seq<EdgeView<<G::Condition as View>::V>>, Error> {
        match source_of(nodes[source].data) {
            None => Ok(Seq::empty()),
            Some(source_term) => match nodes[dest.idx as int].data {
                QueryNodeData::End => Ok(
                    seq![EdgeView { dest_node: dest, cost: 0u32, condition: None }],
                ),
                QueryNodeData::Term(dest_term) => match G::edge_conditions(
                    ctx,
                    source_term,
                    dest_term,
                ) {
                    Ok(conditions) => Ok(
                        conditions.map_values(
                            |c: (u32, G::Condition)|
                                EdgeView { dest_node: dest, cost: c.0, condition: Some(c.1@) },
                        ),
                    ),
                    Err(error) => Err(error),
                },
                _ => Ok(Seq::empty()),
            },
        }
    }

    /// The edges of the steps from node `source` to its first `upto`
    /// successors, in order.
    pub open spec fn node_edges(ctx: &SearchContext, nodes: Seq<QueryNode>, source: int, upto: int) -> Result<
        Seq<EdgeView<<G::Condition as View>::V>>,
        Error,
    >
        decreases upto,
    {
        if upto <= 0 {
            Ok(Seq::empty())
        } else {
            in_turn(
                Self::node_edges(ctx, nodes, source, upto - 1),
                Self::step_edges(ctx, nodes, source, nodes[source].successors@[upto - 1]),
            )
        }
    }

    /// The edges that leave each of the first `upto` nodes, those of a node in
    /// ascending order of cost, or the first error that the criterion meets,
    /// going through the nodes and their successors in order.
    pub open spec fn graph_edges(ctx: &SearchContext, nodes: Seq<QueryNode>, upto: int) -> Result<
        Seq<Seq<EdgeView<<G::Condition as View>::V>>>,
        Error,
    >
        decreases upto,
    {
        if upto <= 0 {
            Ok(Seq::empty())
        } else {
            match Self::graph_edges(ctx, nodes, upto - 1) {
                Err(error) => Err(error),
                Ok(earlier) => match Self::node_edges(
                    ctx,
                    nodes,
                    upto - 1,
                    nodes[upto - 1].successors@.len() as int,
                ) {
                    Err(error) => Err(error),
                    Ok(edges) => Ok(earlier.push(by_cost(edges))),
                },
            }
        }
    }

    /// What the edges that leave `node` stand for.
    pub open spec fn edge_views_of(&self, node: int) -> Seq<EdgeView<<G::Condition as View>::V>> {
        edge_views(self.conditions_interner, self.edges_of_node@[node]@)
    }

    /// Builds the graph of the criterion over a query graph: every step of the
    /// query graph becomes the edges that the criterion gives for it. The
    /// edges that leave a node stand in ascending order of cost.
    pub fn build(ctx: &SearchContext, query_graph: QueryGraph) -> (graph: Result<Self, Error>)
        requires
            query_graph.wf(),
        ensures
            match Self::graph_edges(ctx, query_graph.nodes@, query_graph.nodes@.len() as int) {
                Ok(expected) => graph matches Ok(g) && g.wf() && g.query_graph == query_graph
                    && expected.len() == g.edges_of_node@.len() && forall|node: int|
                    0 <= node < expected.len() ==> g.edge_views_of(node) == #[trigger] expected[node],
                Err(error) => graph matches Err(e) && e == error,
            },
    {
        let mut conditions_interner: DedupInterner<G::Condition> = DedupInterner::new();
        let mut edges_of_node: Vec<Vec<Edge<G::Condition>>> = Vec::new();
        let n = query_graph.nodes.len();
        let mut source: usize = 0;
        while source < n
            invariant
                query_graph.wf(),
                n == query_graph.nodes@.len(),
                source <= n,
                conditions_interner.wf(),
                edges_of_node@.len() == source,
                forall|node: int|
                    0 <= node < source ==> edges_wf(
                        (#[trigger] edges_of_node@[node])@,
                        node,
                        n as int,
                        conditions_interner,
                    ),
                Self::graph_edges(ctx, query_graph.nodes@, source as int) matches Ok(expected)
                    && expected.len() == source && forall|node: int|
                    0 <= node < source ==> edge_views(
                        conditions_interner,
                        edges_of_node@[node]@,
                    ) == #[trigger] expected[node],
            decreases n - source,
        {
            let ghost earlier = Self::graph_edges(ctx, query_graph.nodes@, source as int)->Ok_0;
            // What the edges built so far for this node stand for, in the
            // order in which they were built.
            let ghost mut done: Seq<EdgeView<<G::Condition as View>::V>> = Seq::empty();
            let mut new_edges: Vec<Edge<G::Condition>> = Vec::new();
            let source_node = &query_graph.nodes[source];
            let leaving = source_term(&source_node.data);
            let successors = &source_node.successors;
            let mut k: usize = 0;
            proof {
                assert(edge_views(conditions_interner, new_edges@) =~= by_cost(done));
                assert(successors_follow(query_graph.nodes@, source as int));
            }
            while k < successors.len()
                invariant
                    query_graph.wf(),
                    n == query_graph.nodes@.len(),
                    source < n,
                    *source_node == query_graph.nodes@[source as int],
                    *successors == source_node.successors,
                    leaving == source_of(source_node.data),
                    successors_follow(query_graph.nodes@, source as int),
                    k <= successors.len(),
                    conditions_interner.wf(),
                    edges_of_node@.len() == source,
                    forall|node: int|
                        0 <= node < source ==> edges_wf(
                            (#[trigger] edges_of_node@[node])@,
                            node,
                            n as int,
                            conditions_interner,
                        ),
                    earlier.len() == source,
                    forall|node: int|
                        0 <= node < source ==> edge_views(
                            conditions_interner,
                            edges_of_node@[node]@,
                        ) == #[trigger] earlier[node],
                    edges_wf(new_edges@, source as int, n as int, conditions_interner),
                    Self::node_edges(ctx, query_graph.nodes@, source as int, k as int) == Ok::<
                        Seq<EdgeView<<G::Condition as View>::V>>,
                        Error,
                    >(done),
                    edge_views(conditions_interner, new_edges@) == by_cost(done),
                    Self::graph_edges(ctx, query_graph.nodes@, source as int) == Ok::<
                        Seq<Seq<EdgeView<<G::Condition as View>::V>>>,
                        Error,
                    >(earlier),
                decreases successors.len() - k,
            {
                let dest = successors[k];
                let ghost step = Self::step_edges(ctx, query_graph.nodes@, source as int, dest);
                let ghost done_before = done;
                proof {
                    assert(source < query_graph.nodes@[source as int].successors@[k as int].idx < n);
                }
                match leaving {
                    None => {
                        proof {
                            assert(done + Seq::empty() =~= done);
                        }
                    },
                    Some(source_term) => {
                        match &query_graph.nodes[dest.idx].data {
                            QueryNodeData::End => {
                                let edge = Edge {
                                    source_node: Interned::from_raw(source),
                                    dest_node: dest,
                                    cost: 0,
                                    condition: None,
                                };
                                let ghost before = new_edges@;
                                insert_edge(&mut new_edges, edge);
                                proof {
                                    lemma_inserted_edge(
                                        conditions_interner,
                                        before,
                                        edge,
                                        source as int,
                                        n as int,
                                        done,
                                    );
                                    done = done.push(edge_view(conditions_interner, edge));
                                    assert(done =~= done_before + step->Ok_0);
                                }
                            },
                            QueryNodeData::Term(dest_term) => {
                                let ghost interner_before = conditions_interner;
                                let source_ref = match &source_term {
                                    Some(term) => Some(term),
                                    None => None,
                                };
                                match G::build_edges(
                                    ctx,
                                    &mut conditions_interner,
                                    source_ref,
                                    dest_term,
                                ) {
                                    Err(error) => {
                                        proof {
                                            Self::lemma_graph_edges_error(
                                                ctx,
                                                query_graph.nodes@,
                                                source as int,
                                                k as int,
                                            );
                                        }
                                        return Err(error);
                                    },
                                    Ok(list) => {
                                        let ghost conditions = G::edge_conditions(
                                            ctx,
                                            source_term,
                                            *dest_term,
                                        )->Ok_0;
                                        let ghost wanted = step->Ok_0;
                                        proof {
                                            assert forall|node: int| 0 <= node < source implies {
                                                &&& edges_wf(
                                                    (#[trigger] edges_of_node@[node])@,
                                                    node,
                                                    n as int,
                                                    conditions_interner,
                                                )
                                                &&& edge_views(
                                                    conditions_interner,
                                                    edges_of_node@[node]@,
                                                ) == earlier[node]
                                            } by {
                                                lemma_views_stable(
                                                    interner_before,
                                                    conditions_interner,
                                                    edges_of_node@[node]@,
                                                    node,
                                                    n as int,
                                                );
                                            }
                                            lemma_views_stable(
                                                interner_before,
                                                conditions_interner,
                                                new_edges@,
                                                source as int,
                                                n as int,
                                            );
                                            assert(done =~= done_before + wanted.take(0));
                                        }
                                        let mut j: usize = 0;
                                        while j < list.len()
                                            invariant
                                                j <= list.len(),
                                                source < dest.idx < n,
                                                interned_as(conditions_interner, list@, conditions),
                                                wanted.len() == conditions.len(),
                                                forall|i: int|
                                                    0 <= i < wanted.len() ==> wanted[i] == (EdgeView {
                                                        dest_node: dest,
                                                        cost: conditions[i].0,
                                                        condition: Some(conditions[i].1@),
                                                    }),
                                                edges_wf(
                                                    new_edges@,
                                                    source as int,
                                                    n as int,
                                                    conditions_interner,
                                                ),
                                                done == done_before + wanted.take(j as int),
                                                edge_views(conditions_interner, new_edges@)
                                                    == by_cost(done),
                                            decreases list.len() - j,
                                        {
                                            let (cost, condition) = list[j];
                                            let edge = Edge {
                                                source_node: Interned::from_raw(source),
                                                dest_node: dest,
                                                cost,
                                                condition: Some(condition),
                                            };
                                            let ghost before = new_edges@;
                                            insert_edge(&mut new_edges, edge);
                                            proof {
                                                assert(list@[j as int].0 == conditions[j as int].0);
                                                lemma_inserted_edge(
                                                    conditions_interner,
                                                    before,
                                                    edge,
                                                    source as int,
                                                    n as int,
                                                    done,
                                                );
                                                assert(edge_view(conditions_interner, edge)
                                                    == wanted[j as int]);
                                                assert(wanted.take(j + 1) =~= wanted.take(
                                                    j as int,
                                                ).push(wanted[j as int]));
                                                assert(done.push(wanted[j as int]) =~= done_before
                                                    + wanted.take(j + 1));
                                                done = done.push(wanted[j as int]);
                                            }
                                            j += 1;
                                        }
                                        proof {
                                            assert(wanted.take(wanted.len() as int) =~= wanted);
                                        }
                                    },
                                }
                            },
                            _ => {
                                proof {
                                    assert(done + Seq::empty() =~= done);
                                }
                            },
                        }
                    },
                }
                k += 1;
            }
            let ghost views = edge_views(conditions_interner, new_edges@);
            edges_of_node.push(new_edges);
            proof {
                let expected = earlier.push(views);
                assert(Self::graph_edges(ctx, query_graph.nodes@, source + 1) == Ok::<
                    Seq<Seq<EdgeView<<G::Condition as View>::V>>>,
                    Error,
                >(expected));
                assert forall|node: int| 0 <= node < source + 1 implies edge_views(
                    conditions_interner,
                    edges_of_node@[node]@,
                ) == #[trigger] expected[node] by {
                    if node < source {
                        assert(expected[node] == earlier[node]);
                    }
                }
            }
            source += 1;
        }
        Ok(RankingRuleGraph { query_graph, edges_of_node, conditions_interner })
    }

    /// An error at one step is the error of the whole graph.
    pub proof fn lemma_graph_edges_error(
        ctx: &SearchContext,
        nodes: Seq<QueryNode>,
        source: int,
        k: int,
    )
        requires
            0 <= source < nodes.len(),
            0 <= k < nodes[source].successors@.len(),
            Self::graph_edges(ctx, nodes, source) is Ok,
            Self::node_edges(ctx, nodes, source, k) is Ok,
            Self::step_edges(ctx, nodes, source, nodes[source].successors@[k]) is Err,
        ensures
            Self::graph_edges(ctx, nodes, nodes.len() as int) is Err,
            Self::graph_edges(ctx, nodes, nodes.len() as int)->Err_0 == Self::step_edges(
                ctx,
                nodes,
                source,
                nodes[source].successors@[k],
            )->Err_0,
    {
        let error = Self::step_edges(ctx, nodes, source, nodes[source].successors@[k])->Err_0;
        Self::lemma_node_edges_error(ctx, nodes, source, k + 1, nodes[source].successors@.len() as int);
        Self::lemma_graph_edges_error_sticks(ctx, nodes, source + 1, nodes.len() as int);
    }

    /// An error among the first steps of a node is the error of all its
    /// steps.
    pub proof fn lemma_node_edges_error(
        ctx: &SearchContext,
        nodes: Seq<QueryNode>,
        source: int,
        lo: int,
        hi: int,
    )
        requires
            lo <= hi,
            Self::node_edges(ctx, nodes, source, lo) is Err,
        ensures
            Self::node_edges(ctx, nodes, source, hi) == Self::node_edges(ctx, nodes, source, lo),
        decreases hi - lo,
    {
        if lo < hi {
            Self::lemma_node_edges_error(ctx, nodes, source, lo, hi - 1);
        }
    }

    /// An error among the first nodes is the error of all the nodes.
    pub proof fn lemma_graph_edges_error_sticks(
        ctx: &SearchContext,
        nodes: Seq<QueryNode>,
        lo: int,
        hi: int,
    )
        requires
            lo <= hi,
            Self::graph_edges(ctx, nodes, lo) is Err,
        ensures
            Self::graph_edges(ctx, nodes, hi) == Self::graph_edges(ctx, nodes, lo),
        decreases hi - lo,
    {
        if lo < hi {
            Self::lemma_graph_edges_error_sticks(ctx, nodes, lo, hi - 1);
        }
    }

    pub open spec fn wf(&self) -> bool {
        &&& self.query_graph.wf()
        &&& self.conditions_interner.wf()
        &&& self.edges_of_node@.len() == self.query_graph.nodes@.len()
        &&& forall|node: int|
            0 <= node < self.edges_of_node@.len() ==> edges_wf(
                (#[trigger] self.edges_of_node@[node])@,
                node,
                self.query_graph.nodes@.len() as int,
                self.conditions_interner,
            )
    }

    /// The edges that leave `node`.
    pub open spec fn edges(&self, node: int) -> Seq<Edge<G::Condition>> {
        self.edges_of_node@[node]@
    }
}

} // verus!
