//! What holds of the graph across operations, proved over its model.

use crate::model::{acyclic, is_walk, reachable, GraphModel, Operation};
use crate::walks::{
    lemma_insert_keeps_acyclic, lemma_reach_refl, lemma_subset_acyclic,
    lemma_walk_through_new_edge,
};
use vstd::prelude::*;

verus! {

/// Every operation keeps the invariants, acyclicity among them, as long as
/// the counter has room for a new vertex.
pub proof fn law_operation_keeps_invariants(g: GraphModel, op: Operation)
    requires
        g.wf(),
        op is AddNode ==> g.next_id < usize::MAX,
    ensures
        g.apply(op).wf(),
        acyclic(g.apply(op).edges),
        g.apply(op).next_id >= g.next_id,
        g.apply(op).next_id <= g.next_id + 1,
{
    match op {
        Operation::AddNode => {},
        Operation::RemoveNode(id) => {
            let after = g.remove_node(id);
            assert(after.edges.subset_of(g.edges));
            vstd::set_lib::lemma_len_subset(after.edges, g.edges);
            lemma_subset_acyclic(after.edges, g.edges);
        },
        Operation::AddEdge(from, to) => {
            if g.accepts_edge(from, to) {
                lemma_insert_keeps_acyclic(g.edges, from, to);
            }
        },
        Operation::RemoveEdge(from, to) => {
            let after = g.remove_edge(from, to);
            assert(after.edges.subset_of(g.edges));
            lemma_subset_acyclic(after.edges, g.edges);
        },
    }
}

/// After every sequence of operations the graph is acyclic and keeps its
/// other invariants, and its counter has not gone back. The counter must
/// have room for as many new vertices as there are operations.
pub proof fn law_always_acyclic(g: GraphModel, ops: Seq<Operation>)
    requires
        g.wf(),
        g.next_id + ops.len() <= usize::MAX,
    ensures
        g.run(ops).wf(),
        acyclic(g.run(ops).edges),
        g.next_id <= g.run(ops).next_id <= g.next_id + ops.len(),
    decreases ops.len(),
{
    if ops.len() > 0 {
        law_always_acyclic(g, ops.drop_last());
        law_operation_keeps_invariants(g.run(ops.drop_last()), ops.last());
    }
}

/// An accepted edge is in the graph afterwards.
pub proof fn law_accepted_edge_is_present(g: GraphModel, from: usize, to: usize)
    requires
        g.accepts_edge(from, to),
    ensures
        g.add_edge(from, to).edges.contains((from, to)),
        g.add_edge(from, to).nodes == g.nodes,
        g.add_edge(from, to).next_id == g.next_id,
{
}

/// A refused edge leaves the graph as it was.
pub proof fn law_refused_edge_changes_nothing(g: GraphModel, from: usize, to: usize)
    requires
        !g.accepts_edge(from, to),
    ensures
        g.add_edge(from, to) == g,
{
}

/// A handle is never given out twice: the vertex that is added after a new
/// vertex and any further operations gets a handle greater than that of the
/// first, whether or not the first was removed in between.
pub proof fn law_handles_are_never_reused(g: GraphModel, ops: Seq<Operation>)
    requires
        g.wf(),
        g.next_id + 1 + ops.len() <= usize::MAX,
    ensures
        g.add_node().run(ops).next_id > g.next_id,
        !g.nodes.contains(g.next_id),
{
    law_operation_keeps_invariants(g, Operation::AddNode);
    law_always_acyclic(g.add_node(), ops);
}

/// A removed vertex is not live, and no edge enters or leaves it.
pub proof fn law_removed_node_is_gone(g: GraphModel, id: usize)
    ensures
        !g.remove_node(id).nodes.contains(id),
        forall|x: usize|
            !g.remove_node(id).edges.contains((id, x)) && !g.remove_node(id).edges.contains(
                (x, id),
            ),
        forall|a: usize, b: usize|
            a != id && b != id ==> (g.remove_node(id).edges.contains((a, b)) <==> g.edges.contains(
                (a, b),
            )),
        forall|v: usize| v != id ==> (g.remove_node(id).nodes.contains(v) <==> g.nodes.contains(v)),
{
}

/// A removed edge is not in the graph, and every other edge is as it was.
pub proof fn law_removed_edge_is_gone(g: GraphModel, from: usize, to: usize)
    ensures
        !g.remove_edge(from, to).edges.contains((from, to)),
        forall|a: usize, b: usize|
            (a, b) != (from, to) ==> (g.remove_edge(from, to).edges.contains((a, b))
                <==> g.edges.contains((a, b))),
        g.remove_edge(from, to).nodes == g.nodes,
{
}

/// An edge that was accepted is accepted again, and the second time the
/// graph does not change.
pub proof fn law_add_edge_idempotent(g: GraphModel, from: usize, to: usize)
    requires
        g.accepts_edge(from, to),
    ensures
        g.add_edge(from, to).accepts_edge(from, to),
        g.add_edge(from, to).add_edge(from, to) == g.add_edge(from, to),
{
    let grown = g.edges.insert((from, to));
    if reachable(grown, to, from) {
        let p = choose|p: Seq<usize>| #[trigger] is_walk(grown, p) && p[0] == to && p.last() == from;
        lemma_walk_through_new_edge(g.edges, from, to, p);
    }
    assert(grown.insert((from, to)) =~= grown);
}

/// To remove an edge a second time changes nothing.
pub proof fn law_remove_edge_idempotent(g: GraphModel, from: usize, to: usize)
    ensures
        g.remove_edge(from, to).remove_edge(from, to) == g.remove_edge(from, to),
{
    assert(g.edges.remove((from, to)).remove((from, to)) =~= g.edges.remove((from, to)));
}

/// A vertex that is added and removed at once leaves vertices and edges as
/// they were, and the counter one further.
pub proof fn law_add_then_remove_node(g: GraphModel)
    requires
        g.wf(),
        g.next_id < usize::MAX,
    ensures
        g.add_node().remove_node(g.next_id).nodes == g.nodes,
        g.add_node().remove_node(g.next_id).edges == g.edges,
        g.add_node().remove_node(g.next_id).next_id == g.next_id + 1,
{
    let after = g.add_node().remove_node(g.next_id);
    assert(after.nodes =~= g.nodes);
    assert forall|e: (usize, usize)| g.edges.contains(e) implies after.edges.contains(e) by {
        assert(g.edges.contains((e.0, e.1)));
    }
    assert(after.edges =~= g.edges);
}

/// In a graph without edges only the empty order sorts no vertices, and no
/// vertex reaches another.
pub proof fn law_empty_graph(order: Seq<usize>, x: usize, y: usize)
    ensures
        GraphModel::empty().wf(),
        GraphModel::empty().sorts(order) <==> order == Seq::<usize>::empty(),
        x != y ==> !GraphModel::empty().reaches(x, y),
        GraphModel::empty().reaches(x, x),
{
    let g = GraphModel::empty();
    lemma_no_edges(g.edges, x, y);
    lemma_reach_refl(g.edges, x);
    assert forall|p: Seq<usize>| #[trigger] is_walk(g.edges, p) && p.len() >= 2 implies p[0]
        != p.last() by {
        assert(g.edges.contains((p[0], p[0int + 1])));
    }
    if g.sorts(order) {
        assert(order =~= Seq::<usize>::empty());
    }
    if order == Seq::<usize>::empty() {
        assert(order.to_set() =~= g.nodes);
    }
}

/// Without edges a vertex reaches only itself.
pub proof fn lemma_no_edges(edges: Set<(usize, usize)>, x: usize, y: usize)
    requires
        edges == Set::<(usize, usize)>::empty(),
    ensures
        x != y ==> !reachable(edges, x, y),
{
    if x != y && reachable(edges, x, y) {
        let p = choose|p: Seq<usize>| #[trigger] is_walk(edges, p) && p[0] == x && p.last() == y;
        assert(edges.contains((p[0], p[0int + 1])));
    }
}

/// A graph of one vertex is sorted by that vertex alone, and by nothing else.
pub proof fn law_single_vertex(g: GraphModel, v: usize, order: Seq<usize>)
    requires
        g.wf(),
        g.nodes == Set::<usize>::empty().insert(v),
    ensures
        g.sorts(order) <==> order == seq![v],
{
    if g.sorts(order) {
        assert(order.len() == 1);
        assert(order.to_set().contains(order[0]));
        assert(order =~= seq![v]);
    }
    if order == seq![v] {
        assert(order.to_set() =~= g.nodes) by {
            assert(order[0] == v);
        }
        assert forall|i: int, j: int|
            0 <= i < order.len() && 0 <= j < order.len() && #[trigger] g.edges.contains(
                (order[i], order[j]),
            ) implies i < j by {
            let p = seq![v, v];
            assert(is_walk(g.edges, p));
            assert(p[0] == p.last());
        }
    }
}

/// An edge from a vertex to itself is refused and changes nothing.
pub proof fn law_self_loop_refused(g: GraphModel, x: usize)
    ensures
        !g.accepts_edge(x, x),
        g.add_edge(x, x) == g,
{
    lemma_reach_refl(g.edges, x);
}

} // verus!
