//! The query graph: the alternative interpretations of a query, as the
//! ranking core reads them.

use crate::interner::{same_handle, Internable, Interned};
use vstd::prelude::*;

verus! {

/// A sequence of words that must follow each other.
#[derive(PartialEq, Eq, Hash)]
pub struct Phrase {
    pub words: Vec<Interned<String>>,
}

impl View for Phrase {
    type V = Seq<Interned<String>>;

    open spec fn view(&self) -> Seq<Interned<String>> {
        self.words@
    }
}

impl Internable for Phrase {
    fn same(&self, other: &Self) -> (same: bool) {
        if self.words.len() != other.words.len() {
            return false;
        }
        let mut i: usize = 0;
        while i < self.words.len()
            invariant
                i <= self.words.len(),
                self.words.len() == other.words.len(),
                forall|k: int| 0 <= k < i ==> self.words@[k] == other.words@[k],
            decreases self.words.len() - i,
        {
            if !self.words[i].same(other.words[i]) {
                return false;
            }
            i += 1;
        }
        proof {
            assert(self.words@ =~= other.words@);
        }
        true
    }
}

/// The term that a query step stands for when it is matched exactly.
#[derive(Clone, Copy)]
pub enum ExactTerm {
    Phrase(Interned<Phrase>),
    Word(Interned<String>),
}

/// The interpretations of one query term that are still allowed.
#[derive(Clone, Copy, PartialEq, Eq, Hash)]
pub struct QueryTermSubset {
    /// The phrase, where the term is one and matching it exactly is allowed.
    pub phrase: Option<Interned<Phrase>>,
    /// The word as typed, where matching it exactly is allowed.
    pub exact: Option<Interned<String>>,
}

impl QueryTermSubset {
    /// The exact interpretation of the term: its phrase where it has one, else
    /// its exact word, else none.
    pub open spec fn exact_term_of(self) -> Option<ExactTerm> {
        match self.phrase {
            Some(phrase) => Some(ExactTerm::Phrase(phrase)),
            None => match self.exact {
                Some(word) => Some(ExactTerm::Word(word)),
                None => None,
            },
        }
    }

    pub fn exact_term(&self) -> (term: Option<ExactTerm>)
        ensures
            term == self.exact_term_of(),
    {
        match self.phrase {
            Some(phrase) => Some(ExactTerm::Phrase(phrase)),
            None => match self.exact {
                Some(word) => Some(ExactTerm::Word(word)),
                None => None,
            },
        }
    }

    pub fn same(&self, other: &Self) -> (same: bool)
        ensures
            same == (*self == *other),
    {
        same_handle(self.phrase, other.phrase) && same_handle(self.exact, other.exact)
    }
}

/// A term subset together with the place of the term in the query.
#[derive(Clone, Copy, PartialEq, Eq, Hash)]
pub struct LocatedQueryTermSubset {
    pub term_subset: QueryTermSubset,
    /// First and last position that the term covers.
    pub positions: (u16, u16),
    /// First and last index of the term among the query's terms.
    pub term_ids: (u8, u8),
}

impl LocatedQueryTermSubset {
    pub fn same(&self, other: &Self) -> (same: bool)
        ensures
            same == (*self == *other),
    {
        self.term_subset.same(&other.term_subset) && self.positions.0 == other.positions.0
            && self.positions.1 == other.positions.1 && self.term_ids.0 == other.term_ids.0
            && self.term_ids.1 == other.term_ids.1
    }
}

#[derive(Clone, Copy)]
pub enum QueryNodeData {
    Term(LocatedQueryTermSubset),
    Deleted,
    Start,
    End,
}

/// One interpretation of a segment of the query, and the nodes that may follow
/// it.
pub struct QueryNode {
    pub data: QueryNodeData,
    pub successors: Vec<Interned<QueryNode>>,
}

/// A directed acyclic graph of query nodes. The nodes are numbered so that
/// every edge leads to a node with a larger number; `from_dag` brings the
/// nodes of any directed acyclic graph into such a numbering.
pub struct QueryGraph {
    pub root_node: Interned<QueryNode>,
    pub end_node: Interned<QueryNode>,
    pub nodes: Vec<QueryNode>,
}

/// Every successor of node `node` has a larger number and is a node of the
/// graph.
pub open spec fn successors_follow(nodes: Seq<QueryNode>, node: int) -> bool {
    forall|k: int|
        0 <= k < nodes[node].successors@.len() ==> node < (
        #[trigger] nodes[node].successors@[k]).idx < nodes.len()
}

impl QueryGraph {
    pub open spec fn wf(&self) -> bool {
        &&& self.root_node.idx < self.nodes@.len()
        &&& self.end_node.idx < self.nodes@.len()
        &&& forall|node: int| 0 <= node < self.nodes@.len() ==> successors_follow(self.nodes@, node)
    }

    /// Takes the nodes as a graph where their numbering is topological and both
    /// distinguished nodes exist.
    pub fn from_nodes(
        nodes: Vec<QueryNode>,
        root_node: Interned<QueryNode>,
        end_node: Interned<QueryNode>,
    ) -> (graph: Option<QueryGraph>)
        ensures
            graph is Some <==> (QueryGraph { root_node, end_node, nodes }).wf(),
            graph matches Some(g) ==> g.nodes == nodes && g.root_node == root_node && g.end_node
                == end_node,
    {
        if root_node.idx >= nodes.len() || end_node.idx >= nodes.len() {
            return None;
        }
        let mut node: usize = 0;
        while node < nodes.len()
            invariant
                node <= nodes.len(),
                forall|n: int| 0 <= n < node ==> successors_follow(nodes@, n),
            decreases nodes.len() - node,
        {
            let successors = &nodes[node].successors;
            let mut k: usize = 0;
            while k < successors.len()
                invariant
                    k <= successors.len(),
                    node < nodes.len(),
                    *successors == nodes@[node as int].successors,
                    forall|j: int|
                        0 <= j < k ==> node < (#[trigger] successors@[j]).idx < nodes.len(),
                decreases successors.len() - k,
            {
                let next = successors[k].idx;
                if next <= node || next >= nodes.len() {
                    proof {
                        assert(!successors_follow(nodes@, node as int));
                    }
                    return None;
                }
                k += 1;
            }
            node += 1;
        }
        Some(QueryGraph { root_node, end_node, nodes })
    }

    pub fn len(&self) -> (len: usize)
        ensures
            len == self.nodes@.len(),
    {
        self.nodes.len()
    }
}

} // verus!
