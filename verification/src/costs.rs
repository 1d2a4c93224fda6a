//! The cost table of a ranking-rule graph: for each node, what a path from it
//! to the end node can cost.

use crate::interner::{Interned, MappedInterner};
use crate::query_graph::QueryNode;
use crate::ranking_rule_graph::{RankingRuleGraph, RankingRuleGraphTrait};
use vstd::prelude::*;

verus! {

pub open spec fn strictly_ascending(list: Seq<u64>) -> bool {
    forall|i: int, j: int| 0 <= i < j < list.len() ==> list[i] < list[j]
}

/// Adds `cost` to an ascending list unless it is there already.
pub fn insert_cost(list: &mut Vec<u64>, cost: u64)
    requires
        strictly_ascending(old(list)@),
    ensures
        strictly_ascending(final(list)@),
        forall|c: u64| final(list)@.contains(c) <==> (old(list)@.contains(c) || c == cost),
{
    let mut i: usize = 0;
    while i < list.len() && list[i] < cost
        invariant
            i <= list.len(),
            *list == *old(list),
            forall|k: int| 0 <= k < i ==> list@[k] < cost,
        decreases list.len() - i,
    {
        i += 1;
    }
    if i < list.len() && list[i] == cost {
        proof {
            assert(list@.contains(cost));
        }
        return ;
    }
    list.insert(i, cost);
    proof {
        let before = old(list)@;
        let after = list@;
        assert(after[i as int] == cost);
        assert forall|a: int, b: int| 0 <= a < b < after.len() implies after[a] < after[b] by {
            if b < i {
                assert(after[a] == before[a] && after[b] == before[b]);
            } else if b == i {
                assert(after[a] == before[a]);
            } else if a < i {
                assert(after[a] == before[a] && after[b] == before[b - 1]);
                assert(before[i as int] > cost || i == before.len());
                if b - 1 > i {
                    assert(before[i as int] < before[b - 1]);
                }
            } else if a == i {
                assert(after[b] == before[b - 1]);
                if b - 1 > i {
                    assert(before[i as int] < before[b - 1]);
                }
            } else {
                assert(after[a] == before[a - 1] && after[b] == before[b - 1]);
            }
        }
        assert forall|c: u64| after.contains(c) <==> (before.contains(c) || c == cost) by {
            if after.contains(c) {
                let k = choose|k: int| 0 <= k < after.len() && after[k] == c;
                if k < i {
                    assert(before[k] == c);
                } else if k > i {
                    assert(before[k - 1] == c);
                }
            }
            if before.contains(c) {
                let k = choose|k: int| 0 <= k < before.len() && before[k] == c;
                if k < i {
                    assert(after[k] == c);
                } else {
                    assert(after[k + 1] == c);
                }
            }
        }
    }
}

/// Whether `cost` is in the list.
pub fn has_cost(list: &Vec<u64>, cost: u64) -> (found: bool)
    ensures
        found == list@.contains(cost),
{
    let mut i: usize = 0;
    while i < list.len()
        invariant
            i <= list.len(),
            forall|k: int| 0 <= k < i ==> list@[k] != cost,
        decreases list.len() - i,
    {
        if list[i] == cost {
            return true;
        }
        i += 1;
    }
    false
}

impl<G: RankingRuleGraphTrait> RankingRuleGraph<G> {
    /// Whether the `k`-th edge that leaves `node` is the first step of a path
    /// to the end node that costs `budget` in all.
    pub open spec fn step_reaches(&self, node: int, k: int, budget: int) -> bool {
        let edge = self.edges(node)[k];
        &&& node < edge.dest_node.idx < self.query_graph.nodes@.len()
        &&& edge.cost <= budget
        &&& self.can_reach(edge.dest_node.idx as int, budget - edge.cost)
    }

    /// Whether some path from `node` to the end node costs exactly `budget`.
    pub open spec fn can_reach(&self, node: int, budget: int) -> bool
        decreases self.query_graph.nodes@.len() - node,
    {
        if node == self.query_graph.end_node.idx {
            budget == 0
        } else if 0 <= node < self.edges_of_node@.len() {
            exists|k: int|
                0 <= k < self.edges(node).len() && {
                    let edge = #[trigger] self.edges(node)[k];
                    &&& node < edge.dest_node.idx < self.query_graph.nodes@.len()
                    &&& edge.cost <= budget
                    &&& self.can_reach(edge.dest_node.idx as int, budget - edge.cost)
                }
        } else {
            false
        }
    }

    /// A node other than the end node reaches it through one of its edges.
    pub proof fn lemma_can_reach(&self, node: int, budget: int)
        requires
            node != self.query_graph.end_node.idx,
            0 <= node < self.edges_of_node@.len(),
        ensures
            self.can_reach(node, budget) <==> self.reaches_within(
                node,
                self.edges(node).len() as int,
                budget,
            ),
    {
        if self.can_reach(node, budget) {
            let k = choose|k: int|
                0 <= k < self.edges(node).len() && {
                    let edge = #[trigger] self.edges(node)[k];
                    &&& node < edge.dest_node.idx < self.query_graph.nodes@.len()
                    &&& edge.cost <= budget
                    &&& self.can_reach(edge.dest_node.idx as int, budget - edge.cost)
                };
            assert(self.step_reaches(node, k, budget));
        }
        if self.reaches_within(node, self.edges(node).len() as int, budget) {
            let k = choose|k: int|
                0 <= k < self.edges(node).len() && #[trigger] self.step_reaches(node, k, budget);
            let edge = self.edges(node)[k];
            assert(self.can_reach(edge.dest_node.idx as int, budget - edge.cost));
        }
    }

    /// Whether one of the first `upto` edges that leave `node` is the first
    /// step of a path to the end node that costs `budget`.
    pub open spec fn reaches_within(&self, node: int, upto: int, budget: int) -> bool {
        exists|k: int| 0 <= k < upto && #[trigger] self.step_reaches(node, k, budget)
    }

    /// `list` holds, in ascending order, the costs below 2^64 of the paths
    /// from `node` to the end node.
    pub open spec fn node_costs_ok(&self, node: int, list: Seq<u64>) -> bool {
        &&& strictly_ascending(list)
        &&& forall|cost: u64| list.contains(cost) <==> self.can_reach(node, cost as int)
    }

    /// `costs` is the cost table of the graph.
    pub open spec fn costs_ok(&self, costs: &MappedInterner<QueryNode, Vec<u64>>) -> bool {
        &&& costs.stable_store@.len() == self.query_graph.nodes@.len()
        &&& forall|node: int|
            0 <= node < costs.stable_store@.len() ==> self.node_costs_ok(
                node,
                (#[trigger] costs.stable_store@[node])@,
            )
    }

    /// The costs of the paths from one node, given the costs of the paths from
    /// the nodes after it.
    fn costs_of_node(&self, table: &Vec<Vec<u64>>, node: usize) -> (list: Vec<u64>)
        requires
            self.wf(),
            table@.len() == self.query_graph.nodes@.len(),
            node < table@.len(),
            forall|later: int|
                node < later < table@.len() ==> self.node_costs_ok(later, (#[trigger] table@[later])@),
        ensures
            self.node_costs_ok(node as int, list@),
    {
        let mut list: Vec<u64> = Vec::new();
        if node == self.query_graph.end_node.idx {
            list.push(0);
            proof {
                assert(list@[0] == 0);
                assert forall|cost: u64| list@.contains(cost) <==> self.can_reach(
                    node as int,
                    cost as int,
                ) by {
                    if cost == 0 {
                        assert(list@[0] == cost);
                    }
                }
            }
            return list;
        }
        let edges = &self.edges_of_node[node];
        let mut k: usize = 0;
        while k < edges.len()
            invariant
                self.wf(),
                table@.len() == self.query_graph.nodes@.len(),
                node < table@.len(),
                node != self.query_graph.end_node.idx,
                *edges == self.edges_of_node@[node as int],
                k <= edges.len(),
                forall|later: int|
                    node < later < table@.len() ==> self.node_costs_ok(
                        later,
                        (#[trigger] table@[later])@,
                    ),
                strictly_ascending(list@),
                forall|cost: u64|
                    list@.contains(cost) <==> self.reaches_within(node as int, k as int, cost as int),
            decreases edges.len() - k,
        {
            let dest = edges[k].dest_node.idx;
            let step: u64 = edges[k].cost as u64;
            proof {
                assert(node < self.edges(node as int)[k as int].dest_node.idx < table@.len());
            }
            let onward = &table[dest];
            let mut j: usize = 0;
            while j < onward.len()
                invariant
                    self.wf(),
                    table@.len() == self.query_graph.nodes@.len(),
                    node < dest < table@.len(),
                    *edges == self.edges_of_node@[node as int],
                    k < edges.len(),
                    dest == edges@[k as int].dest_node.idx,
                    step == edges@[k as int].cost,
                    *onward == table@[dest as int],
                    self.node_costs_ok(dest as int, onward@),
                    j <= onward.len(),
                    strictly_ascending(list@),
                    forall|cost: u64|
                        list@.contains(cost) <==> (self.reaches_within(
                            node as int,
                            k as int,
                            cost as int,
                        ) || exists|i: int|
                            0 <= i < j && cost == #[trigger] onward@[i] + step),
                decreases onward.len() - j,
            {
                let ghost before = list@;
                match onward[j].checked_add(step) {
                    Some(total) => {
                        insert_cost(&mut list, total);
                        proof {
                            assert forall|cost: u64|
                                list@.contains(cost) <==> (self.reaches_within(
                                    node as int,
                                    k as int,
                                    cost as int,
                                ) || exists|i: int|
                                    0 <= i < j + 1 && cost == #[trigger] onward@[i] + step) by {
                                if cost == total {
                                    assert(cost == onward@[j as int] + step);
                                }
                            }
                        }
                    },
                    None => {},
                }
                j += 1;
            }
            proof {
                assert forall|cost: u64|
                    list@.contains(cost) <==> self.reaches_within(
                        node as int,
                        k + 1,
                        cost as int,
                    ) by {
                    let via_k = exists|i: int|
                        0 <= i < onward@.len() && cost == #[trigger] onward@[i] + step;
                    if via_k {
                        let i = choose|i: int|
                            0 <= i < onward@.len() && cost == #[trigger] onward@[i] + step;
                        assert(onward@.contains(onward@[i]));
                        assert(self.can_reach(dest as int, onward@[i] as int));
                        assert(self.step_reaches(node as int, k as int, cost as int));
                    }
                    if self.reaches_within(node as int, k + 1, cost as int) {
                        let w = choose|w: int|
                            0 <= w < k + 1 && #[trigger] self.step_reaches(
                                node as int,
                                w,
                                cost as int,
                            );
                        if w == k {
                            let rest = (cost - step) as u64;
                            assert(self.can_reach(dest as int, rest as int));
                            assert(onward@.contains(rest));
                            let i = choose|i: int| 0 <= i < onward@.len() && onward@[i] == rest;
                            assert(cost == onward@[i] + step);
                        } else {
                            assert(self.reaches_within(node as int, k as int, cost as int));
                        }
                    }
                    if self.reaches_within(node as int, k as int, cost as int) {
                        let w = choose|w: int|
                            0 <= w < k && #[trigger] self.step_reaches(node as int, w, cost as int);
                        assert(self.step_reaches(node as int, w, cost as int));
                    }
                }
            }
            k += 1;
        }
        proof {
            assert(edges@ == self.edges(node as int));
            assert forall|cost: u64| list@.contains(cost) <==> self.can_reach(
                node as int,
                cost as int,
            ) by {
                self.lemma_can_reach(node as int, cost as int);
            }
        }
        list
    }

    /// Computes the cost table: for each node, the costs of the paths from it
    /// to the end node, in ascending order.
    pub fn compute_costs(&self) -> (costs: MappedInterner<QueryNode, Vec<u64>>)
        requires
            self.wf(),
        ensures
            self.costs_ok(&costs),
    {
        let n = self.query_graph.nodes.len();
        let mut table: Vec<Vec<u64>> = Vec::new();
        while table.len() < n
            invariant
                table@.len() <= n,
            decreases n - table.len(),
        {
            table.push(Vec::new());
        }
        let mut node = n;
        while node > 0
            invariant
                self.wf(),
                n == self.query_graph.nodes@.len(),
                table@.len() == n,
                node <= n,
                forall|later: int|
                    node <= later < n ==> self.node_costs_ok(later, (#[trigger] table@[later])@),
            decreases node,
        {
            node -= 1;
            let list = self.costs_of_node(&table, node);
            table[node] = list;
        }
        MappedInterner::from_values(table)
    }
}

} // verus!
