//! The directed-graph facade: a thin typed wrapper over the adjacency store.

use crate::adj_list::AdjList;
use crate::adj_list::Edges;
use crate::adj_list::Nodes;
use vstd::prelude::*;

verus! {

/// A directed graph over `usize` node identifiers, built once from a node
/// list and an edge list and read-only thereafter.
pub struct DiGraph {
    pub(crate) adj_list: AdjList,
}

impl DiGraph {
    /// The distinct declared nodes, in the store's own order.
    pub closed spec fn key_seq(self) -> Seq<usize> {
        self.adj_list.key_seq()
    }

    /// Number of declared nodes.
    pub closed spec fn node_count(self) -> nat {
        self.adj_list.node_count()
    }

    /// Well-formedness of the underlying store.
    pub closed spec fn wf(self) -> bool {
        self.adj_list.wf()
    }

    /// Every stored edge as a (source, target) pair.
    pub closed spec fn edge_list(self) -> Seq<(usize, usize)> {
        self.adj_list.edge_list()
    }

    /// There is an edge from node `a` to node `b`.
    pub closed spec fn edge_between(self, a: usize, b: usize) -> bool {
        self.adj_list.edge_between(a, b)
    }

    /// The graph contains at least one directed cycle.
    pub closed spec fn has_cycle(self) -> bool {
        self.adj_list.has_cycle()
    }

    /// An empty graph.
    pub fn new() -> (r: DiGraph)
        ensures
            r.wf(),
            r.node_count() == 0,
            r.key_seq() == Seq::<usize>::empty(),
            r.edge_list() == Seq::<(usize, usize)>::empty(),
    {
        DiGraph { adj_list: AdjList::new() }
    }

    /// Builds a graph from a declared node list and a declared edge list;
    /// both endpoints of every edge must be declared nodes.
    pub fn from(nodes: &[usize], edges: &[(usize, usize)]) -> (r: DiGraph)
        requires
            forall|e: int|
                0 <= e < edges@.len() ==> nodes@.contains((#[trigger] edges@[e]).0)
                    && nodes@.contains(edges@[e].1),
        ensures
            r.wf(),
            r.key_seq().to_set() == nodes@.to_set(),
            r.node_count() == nodes@.to_set().len(),
            r.edge_list().to_multiset() == edges@.to_multiset(),
    {
        DiGraph { adj_list: AdjList::from(nodes, edges) }
    }

    /// The count of distinct declared nodes.
    pub fn size(&self) -> (r: usize)
        ensures
            r == self.node_count(),
    {
        self.adj_list.size()
    }

    /// A fresh lazy cursor over the declared nodes.
    pub fn nodes<'a>(&'a self) -> (r: Nodes<'a>)
        ensures
            r.inv(),
            r.remaining() == self.key_seq(),
    {
        self.adj_list.nodes()
    }

    /// A fresh lazy cursor over all stored edges.
    pub fn edges<'a>(&'a self) -> (r: Edges<'a>)
        requires
            self.wf(),
        ensures
            r.inv(),
            r.remaining() == self.edge_list(),
    {
        self.adj_list.edges()
    }
}

/// Returns `true` if and only if the graph contains at least one directed
/// cycle.  A self-loop counts as a cycle; disconnected parts are all
/// searched; an edge into an already fully explored node proves nothing.
pub fn contains_cycle(graph: &DiGraph) -> (r: bool)
    requires
        graph.wf(),
    ensures
        r == graph.has_cycle(),
{
    crate::adj_list::cycle_search(&graph.adj_list)
}

/// The edge list holds the pair `(a, b)` exactly when an edge from `a` to
/// `b` is stored.
pub proof fn lemma_edge_list_characterizes_edges(g: DiGraph)
    requires
        g.wf(),
    ensures
        forall|a: usize, b: usize|
            #[trigger] g.edge_list().contains((a, b)) <==> g.edge_between(a, b),
{
    crate::adj_list::lemma_edge_list_characterizes_edges(g.adj_list);
}

/// A graph without stored edges has no cycle, whatever its node count.
pub proof fn lemma_no_edges_no_cycle(g: DiGraph)
    requires
        g.wf(),
        g.edge_list().len() == 0,
    ensures
        !g.has_cycle(),
{
    crate::adj_list::lemma_no_edges_no_cycle(g.adj_list);
}

/// A graph with a self-loop has a cycle.
pub proof fn lemma_self_loop_has_cycle(g: DiGraph, a: usize)
    requires
        g.edge_between(a, a),
    ensures
        g.has_cycle(),
{
    crate::adj_list::lemma_self_loop_has_cycle(g.adj_list, a);
}

/// Whether a cycle exists depends only on which edges are stored, never on
/// the order in which the edge list was declared or is walked: two graphs
/// whose edge lists agree as multisets agree on `has_cycle`.
pub proof fn lemma_cycle_depends_on_edge_multiset(g1: DiGraph, g2: DiGraph)
    requires
        g1.wf(),
        g2.wf(),
        g1.edge_list().to_multiset() == g2.edge_list().to_multiset(),
    ensures
        g1.has_cycle() == g2.has_cycle(),
{
    crate::adj_list::lemma_cycle_depends_on_edge_multiset(g1.adj_list, g2.adj_list);
}

} // verus!
