//! The mathematical model of the graph: a set of vertices, a set of directed
//! edges and the next identifier to hand out.

use vstd::prelude::*;

verus! {

/// A walk is a non-empty sequence of vertices in which every vertex is joined
/// to its successor by an edge.
pub open spec fn is_walk(edges: Set<(usize, usize)>, p: Seq<usize>) -> bool {
    &&& p.len() >= 1
    &&& forall|i: int| 0 <= i < p.len() - 1 ==> #[trigger] edges.contains((p[i], p[i + 1]))
}

/// `b` can be reached from `a` when some walk starts at `a` and ends at `b`.
/// Every vertex reaches itself by the walk of one vertex.
pub open spec fn reachable(edges: Set<(usize, usize)>, a: usize, b: usize) -> bool {
    exists|p: Seq<usize>| #[trigger] is_walk(edges, p) && p[0] == a && p.last() == b
}

/// No walk over at least one edge returns to its start.
pub open spec fn acyclic(edges: Set<(usize, usize)>) -> bool {
    forall|p: Seq<usize>| #[trigger] is_walk(edges, p) && p.len() >= 2 ==> p[0] != p.last()
}

/// `order` lists every vertex of `nodes` exactly once, and the source of each
/// edge strictly before its target.
pub open spec fn is_topological_order(
    nodes: Set<usize>,
    edges: Set<(usize, usize)>,
    order: Seq<usize>,
) -> bool {
    &&& order.no_duplicates()
    &&& order.to_set() == nodes
    &&& order.len() == nodes.len()
    &&& forall|i: int, j: int|
        0 <= i < order.len() && 0 <= j < order.len() && #[trigger] edges.contains(
            (order[i], order[j]),
        ) ==> i < j
}

/// Whether some vertex of `among` has an edge to `v`.
pub open spec fn has_pred_in(edges: Set<(usize, usize)>, among: Set<usize>, v: usize) -> bool {
    exists|u: usize| among.contains(u) && #[trigger] edges.contains((u, v))
}

/// The vertices of `among` that no vertex of `among` has an edge to.
pub open spec fn sources(edges: Set<(usize, usize)>, among: Set<usize>) -> Set<usize> {
    Set::new(|v: usize| among.contains(v) && !has_pred_in(edges, among, v))
}

/// `order` lists `among` layer by layer: first the sources of `among`, in
/// any order, then in the same way what is left of `among` without them.
pub open spec fn is_layered(edges: Set<(usize, usize)>, among: Set<usize>, order: Seq<usize>) -> bool
    decreases order.len(),
{
    if order.len() == 0 {
        among == Set::<usize>::empty()
    } else {
        let layer = sources(edges, among);
        let k = layer.len() as int;
        0 < k <= order.len() && order.subrange(0, k).to_set() == layer && is_layered(
            edges,
            among.difference(layer),
            order.subrange(k, order.len() as int),
        )
    }
}

/// The abstract state of a graph.
pub struct GraphModel {
    /// The live vertices.
    pub nodes: Set<usize>,
    /// The directed edges, as pairs (source, target).
    pub edges: Set<(usize, usize)>,
    /// The identifier that the next new vertex gets.
    pub next_id: usize,
}

impl GraphModel {
    /// The invariants of a graph: finitely many vertices and edges, every edge
    /// between live vertices, every live vertex below the counter, no cycle.
    pub open spec fn wf(self) -> bool {
        &&& self.nodes.finite()
        &&& self.edges.finite()
        &&& forall|a: usize, b: usize| #[trigger]
            self.edges.contains((a, b)) ==> self.nodes.contains(a) && self.nodes.contains(b)
        &&& forall|v: usize| #[trigger] self.nodes.contains(v) ==> v < self.next_id
        &&& acyclic(self.edges)
    }

    /// The graph without vertices or edges, whose counter stands at zero.
    pub open spec fn empty() -> GraphModel {
        GraphModel { nodes: Set::empty(), edges: Set::empty(), next_id: 0 }
    }

    /// Whether a walk leads from `a` to `b`.
    pub open spec fn reaches(self, a: usize, b: usize) -> bool {
        reachable(self.edges, a, b)
    }

    /// The targets of the edges that leave `from`.
    pub open spec fn successors(self, from: usize) -> Set<usize> {
        Set::new(|y: usize| self.edges.contains((from, y)))
    }

    /// The sources of the edges that enter `to`.
    pub open spec fn predecessors(self, to: usize) -> Set<usize> {
        Set::new(|x: usize| self.edges.contains((x, to)))
    }

    /// The graph with one more vertex, named by the counter, and the counter
    /// advanced by one.
    pub open spec fn add_node(self) -> GraphModel
        recommends
            self.next_id < usize::MAX,
    {
        GraphModel {
            nodes: self.nodes.insert(self.next_id),
            edges: self.edges,
            next_id: (self.next_id + 1) as usize,
        }
    }

    /// The graph without the vertex `id` and without the edges that touch it.
    pub open spec fn remove_node(self, id: usize) -> GraphModel {
        GraphModel {
            nodes: self.nodes.remove(id),
            edges: self.edges.filter(|e: (usize, usize)| e.0 != id && e.1 != id),
            next_id: self.next_id,
        }
    }

    /// An edge is accepted when both ends are live and its target does not
    /// already reach its source. This refuses every self-loop.
    pub open spec fn accepts_edge(self, from: usize, to: usize) -> bool {
        &&& self.nodes.contains(from)
        &&& self.nodes.contains(to)
        &&& !self.reaches(to, from)
    }

    /// The graph after an attempt to add the edge: with it where it is
    /// accepted, unchanged where it is not.
    pub open spec fn add_edge(self, from: usize, to: usize) -> GraphModel {
        if self.accepts_edge(from, to) {
            GraphModel { nodes: self.nodes, edges: self.edges.insert((from, to)), next_id: self.next_id }
        } else {
            self
        }
    }

    /// The graph without the edge from `from` to `to`; every other edge stays.
    pub open spec fn remove_edge(self, from: usize, to: usize) -> GraphModel {
        GraphModel { nodes: self.nodes, edges: self.edges.remove((from, to)), next_id: self.next_id }
    }

    /// Whether `order` is a topological order of this graph.
    pub open spec fn sorts(self, order: Seq<usize>) -> bool {
        is_topological_order(self.nodes, self.edges, order)
    }

    /// Whether `order` lists the vertices of this graph layer by layer.
    pub open spec fn layers(self, order: Seq<usize>) -> bool {
        is_layered(self.edges, self.nodes, order)
    }
}

/// One change to a graph.
pub enum Operation {
    /// A new vertex.
    AddNode,
    /// The removal of a vertex and of its edges.
    RemoveNode(usize),
    /// An attempt to add an edge, from the first vertex to the second.
    AddEdge(usize, usize),
    /// The removal of an edge.
    RemoveEdge(usize, usize),
}

impl GraphModel {
    /// The graph after one operation.
    pub open spec fn apply(self, op: Operation) -> GraphModel {
        match op {
            Operation::AddNode => self.add_node(),
            Operation::RemoveNode(id) => self.remove_node(id),
            Operation::AddEdge(from, to) => self.add_edge(from, to),
            Operation::RemoveEdge(from, to) => self.remove_edge(from, to),
        }
    }

    /// The graph after a sequence of operations, the first one first.
    pub open spec fn run(self, ops: Seq<Operation>) -> GraphModel
        decreases ops.len(),
    {
        if ops.len() == 0 {
            self
        } else {
            self.run(ops.drop_last()).apply(ops.last())
        }
    }
}

} // verus!
