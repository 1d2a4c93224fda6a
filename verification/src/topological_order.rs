//! Numbering the nodes of a directed acyclic graph so that every edge leads
//! to a node with a larger number.

use crate::interner::Interned;
use crate::query_graph::{successors_follow, QueryGraph, QueryNode};
use vstd::prelude::*;

verus! {

/// `rank` gives each node a rank below that of each of its successors, all of
/// which are nodes of the graph.
pub open spec fn is_ranking(nodes: Seq<QueryNode>, rank: Seq<int>) -> bool {
    &&& rank.len() == nodes.len()
    &&& forall|n: int, k: int|
        0 <= n < nodes.len() && 0 <= k < nodes[n].successors@.len() ==> {
            &&& (#[trigger] nodes[n].successors@[k]).idx < nodes.len()
            &&& rank[n] < rank[nodes[n].successors@[k].idx as int]
        }
}

/// The graph has no cycle: its nodes can be ranked so that every edge leads
/// upwards.
pub open spec fn is_dag(nodes: Seq<QueryNode>) -> bool {
    exists|rank: Seq<int>| is_ranking(nodes, rank)
}

/// `number` numbers the nodes from 0 on, each number once, so that every edge
/// leads to a larger number; `inverse` gives the node of each number.
pub open spec fn is_numbering(nodes: Seq<QueryNode>, number: Seq<usize>, inverse: Seq<usize>) -> bool {
    &&& number.len() == nodes.len()
    &&& inverse.len() == nodes.len()
    &&& forall|i: int| 0 <= i < nodes.len() ==> (#[trigger] number[i]) < nodes.len() && inverse[number[i] as int] == i
    &&& forall|j: int| 0 <= j < nodes.len() ==> (#[trigger] inverse[j]) < nodes.len() && number[inverse[j] as int] == j
    &&& forall|n: int, k: int|
        0 <= n < nodes.len() && 0 <= k < nodes[n].successors@.len() ==> {
            &&& (#[trigger] nodes[n].successors@[k]).idx < nodes.len()
            &&& number[n] < number[nodes[n].successors@[k].idx as int]
        }
}

/// How many nodes are not placed yet.
pub open spec fn unplaced(placed: Seq<bool>) -> nat
    decreases placed.len(),
{
    if placed.len() == 0 {
        0
    } else {
        unplaced(placed.drop_last()) + if placed.last() {
            0nat
        } else {
            1nat
        }
    }
}

/// Placing a node leaves one node less to place.
pub proof fn lemma_place(placed: Seq<bool>, i: int)
    requires
        0 <= i < placed.len(),
        !placed[i],
    ensures
        unplaced(placed.update(i, true)) == unplaced(placed) - 1,
    decreases placed.len(),
{
    let after = placed.update(i, true);
    if i == placed.len() - 1 {
        assert(after.drop_last() =~= placed.drop_last());
    } else {
        lemma_place(placed.drop_last(), i);
        assert(after.drop_last() =~= placed.drop_last().update(i, true));
    }
}

/// Where nothing is left to place, every node is placed.
pub proof fn lemma_all_placed(placed: Seq<bool>)
    requires
        unplaced(placed) == 0,
    ensures
        forall|i: int| 0 <= i < placed.len() ==> placed[i],
    decreases placed.len(),
{
    if placed.len() > 0 {
        lemma_all_placed(placed.drop_last());
        assert forall|i: int| 0 <= i < placed.len() implies placed[i] by {
            if i < placed.len() - 1 {
                assert(placed.drop_last()[i] == placed[i]);
            }
        }
    }
}

/// Among the first `upto` nodes, an unplaced one of the highest rank; -1 where
/// all of them are placed.
pub proof fn lemma_highest_unplaced(placed: Seq<bool>, rank: Seq<int>, upto: int) -> (m: int)
    requires
        0 <= upto <= placed.len(),
        rank.len() == placed.len(),
    ensures
        -1 <= m < upto,
        m == -1 ==> forall|i: int| 0 <= i < upto ==> placed[i],
        m >= 0 ==> !placed[m] && forall|i: int| 0 <= i < upto && !placed[i] ==> rank[i] <= rank[m],
    decreases upto,
{
    if upto == 0 {
        -1
    } else {
        let below = lemma_highest_unplaced(placed, rank, upto - 1);
        if placed[upto - 1] {
            below
        } else if below == -1 || rank[upto - 1] >= rank[below] {
            upto - 1
        } else {
            below
        }
    }
}

/// The `k`-th successor of node `i` is a node of the graph, and placed.
pub open spec fn ready(nodes: Seq<QueryNode>, placed: Seq<bool>, i: int, k: int) -> bool {
    nodes[i].successors@[k].idx < nodes.len() && placed[nodes[i].successors@[k].idx as int]
}

/// Every successor of node `i` is a node of the graph, and placed.
pub open spec fn all_ready(nodes: Seq<QueryNode>, placed: Seq<bool>, i: int) -> bool {
    forall|k: int| 0 <= k < nodes[i].successors@.len() ==> #[trigger] ready(nodes, placed, i, k)
}

/// Whether every successor of node `i` is a node of the graph that is placed.
pub fn successors_placed(nodes: &Vec<QueryNode>, placed: &Vec<bool>, i: usize) -> (all: bool)
    requires
        i < nodes.len(),
        placed.len() == nodes.len(),
    ensures
        all == all_ready(nodes@, placed@, i as int),
{
    let successors = &nodes[i].successors;
    let mut k: usize = 0;
    while k < successors.len()
        invariant
            i < nodes.len(),
            placed.len() == nodes.len(),
            *successors == nodes@[i as int].successors,
            k <= successors.len(),
            forall|j: int| 0 <= j < k ==> #[trigger] ready(nodes@, placed@, i as int, j),
        decreases successors.len() - k,
    {
        let next = successors[k].idx;
        if next >= nodes.len() || !placed[next] {
            proof {
                assert(!ready(nodes@, placed@, i as int, k as int));
            }
            return false;
        }
        k += 1;
    }
    true
}

/// A node that is not placed while all its successors are, where there is
/// one.
pub fn find_ready(nodes: &Vec<QueryNode>, placed: &Vec<bool>) -> (found: Option<usize>)
    requires
        placed.len() == nodes.len(),
    ensures
        match found {
            Some(i) => i < nodes.len() && !placed@[i as int] && all_ready(nodes@, placed@, i as int),
            None => forall|i: int|
                0 <= i < nodes.len() ==> placed@[i] || !all_ready(nodes@, placed@, i),
        },
{
    let mut i: usize = 0;
    while i < nodes.len()
        invariant
            placed.len() == nodes.len(),
            i <= nodes.len(),
            forall|j: int| 0 <= j < i ==> placed@[j] || !all_ready(nodes@, placed@, j),
        decreases nodes.len() - i,
    {
        if !placed[i] && successors_placed(nodes, placed, i) {
            return Some(i);
        }
        i += 1;
    }
    None
}

/// What holds while the nodes are numbered: the placed nodes have the numbers
/// from `remaining` on, each number once, and every edge from a placed node
/// leads to a placed node with a larger number.
pub open spec fn numbered_so_far(
    nodes: Seq<QueryNode>,
    placed: Seq<bool>,
    number: Seq<usize>,
    inverse: Seq<usize>,
    remaining: int,
) -> bool {
    &&& placed.len() == nodes.len()
    &&& number.len() == nodes.len()
    &&& inverse.len() == nodes.len()
    &&& 0 <= remaining <= nodes.len()
    &&& remaining == unplaced(placed)
    &&& forall|i: int|
        0 <= i < nodes.len() && placed[i] ==> remaining <= (#[trigger] number[i]) < nodes.len()
            && inverse[number[i] as int] == i
    &&& forall|j: int|
        remaining <= j < nodes.len() ==> (#[trigger] inverse[j]) < nodes.len()
            && placed[inverse[j] as int] && number[inverse[j] as int] == j
    &&& forall|n: int, k: int|
        0 <= n < nodes.len() && placed[n] && 0 <= k < nodes[n].successors@.len() ==> {
            &&& (#[trigger] nodes[n].successors@[k]).idx < nodes.len()
            &&& placed[nodes[n].successors@[k].idx as int]
            &&& number[n] < number[nodes[n].successors@[k].idx as int]
        }
}

/// Where a node is left to place and none is ready, the graph has a cycle or
/// an edge that leads out of it.
pub proof fn lemma_stuck(nodes: Seq<QueryNode>, placed: Seq<bool>)
    requires
        placed.len() == nodes.len(),
        unplaced(placed) > 0,
        forall|i: int| 0 <= i < nodes.len() ==> placed[i] || !all_ready(nodes, placed, i),
    ensures
        !is_dag(nodes),
{
    assert forall|rank: Seq<int>| !is_ranking(nodes, rank) by {
        if is_ranking(nodes, rank) {
            let m = lemma_highest_unplaced(placed, rank, nodes.len() as int);
            if m == -1 {
                lemma_none_unplaced(placed);
            } else {
                assert(!all_ready(nodes, placed, m));
                let k = choose|k: int|
                    0 <= k < nodes[m].successors@.len() && !#[trigger] ready(nodes, placed, m, k);
                let next = nodes[m].successors@[k];
                assert(next.idx < nodes.len());
                assert(rank[m] < rank[next.idx as int]);
            }
        }
    }
}

/// Where every node is placed, nothing is left to place.
pub proof fn lemma_none_unplaced(placed: Seq<bool>)
    requires
        forall|i: int| 0 <= i < placed.len() ==> placed[i],
    ensures
        unplaced(placed) == 0,
    decreases placed.len(),
{
    if placed.len() > 0 {
        assert forall|i: int| 0 <= i < placed.drop_last().len() implies placed.drop_last()[i] by {
            assert(placed.drop_last()[i] == placed[i]);
        }
        lemma_none_unplaced(placed.drop_last());
    }
}

/// Numbers the nodes of a graph so that every edge leads to a larger number,
/// where the graph has no cycle. The second list gives the node of each
/// number.
pub fn topological_numbering(nodes: &Vec<QueryNode>) -> (numbering: Option<(Vec<usize>, Vec<usize>)>)
    ensures
        numbering is Some <==> is_dag(nodes@),
        numbering matches Some((number, inverse)) ==> is_numbering(nodes@, number@, inverse@),
{
    let n = nodes.len();
    let mut placed: Vec<bool> = Vec::new();
    let mut number: Vec<usize> = Vec::new();
    let mut inverse: Vec<usize> = Vec::new();
    while placed.len() < n
        invariant
            n == nodes.len(),
            placed.len() <= n,
            number.len() == placed.len(),
            inverse.len() == placed.len(),
            unplaced(placed@) == placed.len(),
            forall|i: int| 0 <= i < placed.len() ==> !placed@[i],
        decreases n - placed.len(),
    {
        let ghost before = placed@;
        placed.push(false);
        number.push(0);
        inverse.push(0);
        proof {
            assert(placed@.drop_last() =~= before);
        }
    }
    let mut remaining: usize = n;
    while remaining > 0
        invariant
            n == nodes.len(),
            numbered_so_far(nodes@, placed@, number@, inverse@, remaining as int),
        decreases remaining,
    {
        match find_ready(nodes, &placed) {
            None => {
                proof {
                    lemma_stuck(nodes@, placed@);
                }
                return None;
            },
            Some(i) => {
                let ghost placed_before = placed@;
                let ghost number_before = number@;
                let ghost inverse_before = inverse@;
                remaining -= 1;
                placed[i] = true;
                number[i] = remaining;
                inverse[remaining] = i;
                proof {
                    lemma_place(placed_before, i as int);
                    assert forall|p: int| 0 <= p < n && placed@[p] implies remaining <= (
                    #[trigger] number@[p]) < n && inverse@[number@[p] as int] == p by {
                        if p != i {
                            assert(placed_before[p]);
                            assert(number_before[p] == number@[p]);
                        }
                    }
                    assert forall|j: int| remaining <= j < n implies (#[trigger] inverse@[j]) < n
                        && placed@[inverse@[j] as int] && number@[inverse@[j] as int] == j by {
                        if j != remaining {
                            assert(inverse_before[j] == inverse@[j]);
                            assert(placed_before[inverse_before[j] as int]);
                        }
                    }
                    assert forall|p: int, k: int|
                        0 <= p < n && placed@[p] && 0 <= k < nodes@[p].successors@.len() implies {
                        &&& (#[trigger] nodes@[p].successors@[k]).idx < n
                        &&& placed@[nodes@[p].successors@[k].idx as int]
                        &&& number@[p] < number@[nodes@[p].successors@[k].idx as int]
                    } by {
                        let next = nodes@[p].successors@[k].idx as int;
                        if p == i {
                            assert(ready(nodes@, placed_before, i as int, k));
                            assert(placed_before[next]);
                            assert(number_before[next] == number@[next]);
                        } else {
                            assert(placed_before[p]);
                            assert(placed_before[next]);
                            assert(number_before[next] == number@[next]);
                            assert(number_before[p] == number@[p]);
                        }
                    }
                }
            },
        }
    }
    proof {
        lemma_all_placed(placed@);
        let rank = Seq::new(n as nat, |i: int| number@[i] as int);
        assert(is_ranking(nodes@, rank));
    }
    Some((number, inverse))
}

/// `renumbered` holds the nodes of `nodes`, node `i` under the number
/// `number_of[i]`, with every successor under its new number.
pub open spec fn is_renumbering(
    nodes: Seq<QueryNode>,
    number_of: Seq<Interned<QueryNode>>,
    renumbered: Seq<QueryNode>,
) -> bool {
    &&& number_of.len() == nodes.len()
    &&& renumbered.len() == nodes.len()
    &&& forall|i: int| 0 <= i < nodes.len() ==> (#[trigger] number_of[i]).idx < nodes.len()
    &&& forall|i: int, j: int|
        0 <= i < j < nodes.len() ==> (#[trigger] number_of[i]).idx != (#[trigger] number_of[j]).idx
    &&& forall|i: int|
        0 <= i < nodes.len() ==> {
            let moved = #[trigger] renumbered[number_of[i].idx as int];
            &&& moved.data == nodes[i].data
            &&& moved.successors@.len() == nodes[i].successors@.len()
            &&& forall|k: int|
                0 <= k < nodes[i].successors@.len() ==> (#[trigger] moved.successors@[k])
                    == number_of[nodes[i].successors@[k].idx as int]
        }
}

impl QueryGraph {
    /// Takes the nodes of a directed acyclic graph, numbered in any way, and
    /// numbers them so that every edge leads to a larger number. The second
    /// part of the result gives the new number of each node.
    pub fn from_dag(
        nodes: Vec<QueryNode>,
        root_node: Interned<QueryNode>,
        end_node: Interned<QueryNode>,
    ) -> (result: Option<(QueryGraph, Vec<Interned<QueryNode>>)>)
        ensures
            result is Some <==> root_node.idx < nodes@.len() && end_node.idx < nodes@.len()
                && is_dag(nodes@),
            result matches Some((graph, number_of)) ==> {
                &&& graph.wf()
                &&& is_renumbering(nodes@, number_of@, graph.nodes@)
                &&& graph.root_node == number_of@[root_node.idx as int]
                &&& graph.end_node == number_of@[end_node.idx as int]
            },
    {
        let n = nodes.len();
        if root_node.idx >= n || end_node.idx >= n {
            return None;
        }
        let (number, inverse) = match topological_numbering(&nodes) {
            None => {
                return None;
            },
            Some(numbering) => numbering,
        };
        let mut number_of: Vec<Interned<QueryNode>> = Vec::new();
        let mut i: usize = 0;
        while i < n
            invariant
                n == nodes.len(),
                number.len() == n,
                i <= n,
                number_of.len() == i,
                forall|p: int| 0 <= p < i ==> (#[trigger] number_of@[p]).idx == number@[p],
            decreases n - i,
        {
            number_of.push(Interned::from_raw(number[i]));
            i += 1;
        }
        let mut renumbered: Vec<QueryNode> = Vec::new();
        let mut j: usize = 0;
        while j < n
            invariant
                n == nodes.len(),
                is_numbering(nodes@, number@, inverse@),
                number_of.len() == n,
                forall|p: int| 0 <= p < n ==> (#[trigger] number_of@[p]).idx == number@[p],
                j <= n,
                renumbered.len() == j,
                forall|q: int|
                    0 <= q < j ==> {
                        let moved = #[trigger] renumbered@[q];
                        let old_node = nodes@[inverse@[q] as int];
                        &&& moved.data == old_node.data
                        &&& moved.successors@.len() == old_node.successors@.len()
                        &&& forall|k: int|
                            0 <= k < old_node.successors@.len() ==> (#[trigger] moved.successors@[k])
                                == number_of@[old_node.successors@[k].idx as int]
                    },
            decreases n - j,
        {
            let old_index = inverse[j];
            let old_node = &nodes[old_index];
            let mut successors: Vec<Interned<QueryNode>> = Vec::new();
            let mut k: usize = 0;
            while k < old_node.successors.len()
                invariant
                    n == nodes.len(),
                    is_numbering(nodes@, number@, inverse@),
                    number_of.len() == n,
                    old_index < n,
                    *old_node == nodes@[old_index as int],
                    k <= old_node.successors.len(),
                    successors.len() == k,
                    forall|m: int|
                        0 <= m < k ==> (#[trigger] successors@[m])
                            == number_of@[old_node.successors@[m].idx as int],
                decreases old_node.successors.len() - k,
            {
                let next = old_node.successors[k].idx;
                proof {
                    assert(nodes@[old_index as int].successors@[k as int].idx < n);
                }
                successors.push(number_of[next]);
                k += 1;
            }
            renumbered.push(QueryNode { data: old_node.data, successors });
            j += 1;
        }
        let graph = QueryGraph {
            root_node: number_of[root_node.idx],
            end_node: number_of[end_node.idx],
            nodes: renumbered,
        };
        proof {
            assert forall|node: int| 0 <= node < graph.nodes@.len() implies successors_follow(
                graph.nodes@,
                node,
            ) by {
                let old_index = inverse@[node] as int;
                assert(number@[old_index] == node);
                assert forall|k: int|
                    0 <= k < graph.nodes@[node].successors@.len() implies node < (
                #[trigger] graph.nodes@[node].successors@[k]).idx < graph.nodes@.len() by {
                    let next = nodes@[old_index].successors@[k];
                    assert(next.idx < n);
                    assert(number@[old_index] < number@[next.idx as int]);
                    assert(number_of@[next.idx as int].idx == number@[next.idx as int]);
                }
            }
            assert forall|a: int, b: int| 0 <= a < b < n implies (#[trigger] number_of@[a]).idx != (
            #[trigger] number_of@[b]).idx by {
                assert(inverse@[number@[a] as int] == a);
                assert(inverse@[number@[b] as int] == b);
            }
            assert forall|p: int| 0 <= p < n implies {
                let moved = #[trigger] graph.nodes@[number_of@[p].idx as int];
                &&& moved.data == nodes@[p].data
                &&& moved.successors@.len() == nodes@[p].successors@.len()
                &&& forall|k: int|
                    0 <= k < nodes@[p].successors@.len() ==> (#[trigger] moved.successors@[k])
                        == number_of@[nodes@[p].successors@[k].idx as int]
            } by {
                assert(number_of@[p].idx == number@[p]);
                assert(inverse@[number@[p] as int] == p);
            }
        }
        Some((graph, number_of))
    }
}

} // verus!
