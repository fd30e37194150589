//! A fight network: fighters as nodes of an undirected graph, one edge
//! per recorded fight. The centrality read off the network is the degree
//! of each node — how many fights a fighter appears in.

use vstd::prelude::*;

verus! {

/// A fighter, identified by name.
pub struct Fighter {
    pub name: String,
}

impl Fighter {
    /// Build a fighter from a name.
    pub fn new(name: &str) -> (f: Self)
        ensures
            f.name@ == name@,
    {
        Fighter { name: name.to_owned() }
    }

    /// The fighter's name, for printing.
    pub fn display(&self) -> (r: String)
        ensures
            r@ == self.name@,
    {
        self.name.clone()
    }
}

/// How many of the first `u` edges touch node `v`; a self-loop counts
/// once.
pub open spec fn degree_of(edges: Seq<(usize, usize)>, v: int, u: int) -> int
    decreases u,
{
    if u <= 0 {
        0
    } else {
        degree_of(edges, v, u - 1) + if edges[u - 1].0 == v || edges[u - 1].1 == v {
            1int
        } else {
            0int
        }
    }
}

/// An undirected graph over nodes `0 .. node_count`, as a list of edges.
pub struct FightNetwork {
    pub node_count: usize,
    pub edges: Vec<(usize, usize)>,
}

impl FightNetwork {
    /// Both ends of every edge name a node.
    pub open spec fn wf(self) -> bool {
        forall|e: int|
            0 <= e < self.edges@.len() ==> (#[trigger] self.edges@[e]).0 < self.node_count
                && self.edges@[e].1 < self.node_count
    }

    /// An edgeless network over the given nodes.
    pub fn new(node_count: usize) -> (g: Self)
        ensures
            g.node_count == node_count,
            g.edges@.len() == 0,
            g.wf(),
    {
        FightNetwork { node_count, edges: Vec::new() }
    }

    /// How many edges touch node `v`.
    pub fn degree(&self, v: usize) -> (d: usize)
        requires
            v < self.node_count,
        ensures
            d == degree_of(self.edges@, v as int, self.edges@.len() as int),
    {
        let mut d: usize = 0;
        let mut e: usize = 0;
        while e < self.edges.len()
            invariant
                e <= self.edges@.len(),
                d == degree_of(self.edges@, v as int, e as int),
                d <= e,
            decreases self.edges@.len() - e,
        {
            let (a, b) = (self.edges[e].0, self.edges[e].1);
            if a == v || b == v {
                d += 1;
            }
            e += 1;
        }
        d
    }
}

/// Record a fight between nodes `a` and `b`.
pub fn add_edge(graph: &mut FightNetwork, a: usize, b: usize)
    requires
        a < old(graph).node_count,
        b < old(graph).node_count,
    ensures
        final(graph).node_count == old(graph).node_count,
        final(graph).edges@ == old(graph).edges@.push((a, b)),
        old(graph).wf() ==> final(graph).wf(),
{
    graph.edges.push((a, b));
}

} // verus!
