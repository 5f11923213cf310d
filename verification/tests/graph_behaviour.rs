use dag::DirectedAcyclicGraph;
use std::collections::HashSet;

fn position(order: &[usize], id: usize) -> usize {
    order.iter().position(|&x| x == id).expect("vertex is in the order")
}

#[test]
fn three_chain_rejects_back_edge() {
    let mut g = DirectedAcyclicGraph::new();
    let a = g.add_node();
    let b = g.add_node();
    let c = g.add_node();
    assert!(g.add_edge(a, b));
    assert!(g.add_edge(b, c));
    assert!(!g.add_edge(c, a));
    assert_eq!(g.topological_sort(), vec![a, b, c]);
}

#[test]
fn diamond_sorts_between_top_and_bottom() {
    let mut g = DirectedAcyclicGraph::new();
    let a = g.add_node();
    let b = g.add_node();
    let c = g.add_node();
    let d = g.add_node();
    assert!(g.add_edge(a, b));
    assert!(g.add_edge(a, c));
    assert!(g.add_edge(b, d));
    assert!(g.add_edge(c, d));
    assert!(!g.add_edge(d, a));
    let order = g.topological_sort();
    assert_eq!(order.len(), 4);
    assert_eq!(order[0], a);
    assert_eq!(order[3], d);
    let middle: HashSet<usize> = order[1..3].iter().copied().collect();
    let expected: HashSet<usize> = [b, c].into_iter().collect();
    assert_eq!(middle, expected);
}

#[test]
fn removal_frees_edge_slot() {
    let mut g = DirectedAcyclicGraph::new();
    let a = g.add_node();
    let b = g.add_node();
    assert!(g.add_edge(a, b));
    assert!(!g.add_edge(b, a));
    g.remove_edge(a, b);
    assert!(g.add_edge(b, a));
    assert!(g.has_edge(b, a));
    assert!(!g.has_edge(a, b));
}

#[test]
fn vertex_removal_cascades_edges() {
    let mut g = DirectedAcyclicGraph::new();
    let a = g.add_node();
    let b = g.add_node();
    let c = g.add_node();
    assert!(g.add_edge(a, b));
    assert!(g.add_edge(b, c));
    g.remove_node(b);
    assert!(!g.has_node(b));
    assert!(!g.has_edge(a, b));
    assert!(!g.has_edge(b, c));
    let mut order = g.topological_sort();
    order.sort();
    assert_eq!(order, vec![a, c]);
    assert!(!g.is_reachable(a, c));
}

#[test]
fn ids_are_not_reused() {
    let mut g = DirectedAcyclicGraph::new();
    let a = g.add_node();
    let b = g.add_node();
    assert_eq!(a, 0);
    assert_eq!(b, 1);
    g.remove_node(a);
    let c = g.add_node();
    assert_eq!(c, 2);
    assert!(!g.has_node(a));
    assert!(g.has_node(b));
    assert!(g.has_node(c));
}

#[test]
fn self_loop_is_refused() {
    let mut g = DirectedAcyclicGraph::new();
    let a = g.add_node();
    assert!(!g.add_edge(a, a));
    assert!(!g.has_edge(a, a));
    assert!(g.outgoing_nodes(a).is_empty());
    assert!(g.ingoing_nodes(a).is_empty());
    assert_eq!(g.topological_sort(), vec![a]);
}

#[test]
fn empty_graph_has_nothing() {
    let g = DirectedAcyclicGraph::new();
    assert_eq!(g.topological_sort(), Vec::<usize>::new());
    assert!(!g.is_reachable(0, 1));
    assert!(!g.is_reachable(7, 3));
    assert!(!g.has_node(0));
    assert!(!g.has_edge(0, 1));
    assert!(g.outgoing_nodes(0).is_empty());
    assert!(g.ingoing_nodes(0).is_empty());
    assert!(g.can_add_node());
}

#[test]
fn a_vertex_reaches_itself() {
    let mut g = DirectedAcyclicGraph::new();
    assert!(g.is_reachable(5, 5));
    let a = g.add_node();
    assert!(g.is_reachable(a, a));
}

#[test]
fn default_graph_is_empty() {
    let mut g = DirectedAcyclicGraph::default();
    assert_eq!(g.topological_sort(), Vec::<usize>::new());
    assert_eq!(g.add_node(), 0);
}

#[test]
fn single_vertex_sorts_alone() {
    let mut g = DirectedAcyclicGraph::new();
    let a = g.add_node();
    assert_eq!(g.topological_sort(), vec![a]);
}

#[test]
fn accepted_edge_is_present() {
    let mut g = DirectedAcyclicGraph::new();
    let a = g.add_node();
    let b = g.add_node();
    assert!(!g.has_edge(a, b));
    assert!(g.add_edge(a, b));
    assert!(g.has_edge(a, b));
    assert!(!g.has_edge(b, a));
}

#[test]
fn refused_edge_changes_nothing() {
    let mut g = DirectedAcyclicGraph::new();
    let a = g.add_node();
    let b = g.add_node();
    let c = g.add_node();
    assert!(g.add_edge(a, b));
    assert!(g.add_edge(b, c));
    assert!(!g.add_edge(c, a));
    assert!(!g.has_edge(c, a));
    assert!(g.has_edge(a, b));
    assert!(g.has_edge(b, c));
    assert!(g.outgoing_nodes(c).is_empty());
    assert!(g.ingoing_nodes(a).is_empty());
    assert!(g.has_node(a) && g.has_node(b) && g.has_node(c));
}

#[test]
fn edge_to_a_vertex_that_is_not_live_is_refused() {
    let mut g = DirectedAcyclicGraph::new();
    let a = g.add_node();
    assert!(!g.add_edge(a, 9));
    assert!(!g.add_edge(9, a));
    assert!(!g.has_edge(a, 9));
    assert!(!g.has_edge(9, a));
    let b = g.add_node();
    g.remove_node(b);
    assert!(!g.add_edge(a, b));
    assert!(!g.has_edge(a, b));
    let empty = DirectedAcyclicGraph::new().add_edge(0, 1);
    assert!(!empty);
}

#[test]
fn add_edge_twice_keeps_one_copy() {
    let mut g = DirectedAcyclicGraph::new();
    let a = g.add_node();
    let b = g.add_node();
    assert!(g.add_edge(a, b));
    assert!(g.add_edge(a, b));
    assert!(g.has_edge(a, b));
    assert_eq!(g.outgoing_nodes(a).len(), 1);
    g.remove_edge(a, b);
    assert!(!g.has_edge(a, b));
    assert!(!g.is_reachable(a, b));
}

#[test]
fn remove_edge_twice_is_a_no_op() {
    let mut g = DirectedAcyclicGraph::new();
    let a = g.add_node();
    let b = g.add_node();
    let c = g.add_node();
    assert!(g.add_edge(a, b));
    assert!(g.add_edge(b, c));
    g.remove_edge(a, b);
    assert!(!g.has_edge(a, b));
    assert!(g.has_edge(b, c));
    g.remove_edge(a, b);
    assert!(!g.has_edge(a, b));
    assert!(g.has_edge(b, c));
    assert!(g.has_node(a) && g.has_node(b) && g.has_node(c));
}

#[test]
fn remove_edge_leaves_edges_that_share_an_end() {
    let mut g = DirectedAcyclicGraph::new();
    let a = g.add_node();
    let b = g.add_node();
    let c = g.add_node();
    let d = g.add_node();
    assert!(g.add_edge(a, b));
    assert!(g.add_edge(a, c));
    assert!(g.add_edge(d, b));
    assert!(g.add_edge(c, d));
    g.remove_edge(a, b);
    assert!(!g.has_edge(a, b));
    assert!(g.has_edge(a, c));
    assert!(g.has_edge(d, b));
    assert!(g.has_edge(c, d));
}

#[test]
fn remove_edge_that_is_absent_changes_nothing() {
    let mut g = DirectedAcyclicGraph::new();
    let a = g.add_node();
    let b = g.add_node();
    assert!(g.add_edge(a, b));
    g.remove_edge(b, a);
    g.remove_edge(4, 5);
    assert!(g.has_edge(a, b));
}

#[test]
fn add_then_remove_node_advances_the_counter() {
    let mut g = DirectedAcyclicGraph::new();
    let a = g.add_node();
    let b = g.add_node();
    assert!(g.add_edge(a, b));
    let x = g.add_node();
    assert_eq!(x, 2);
    g.remove_node(x);
    assert!(!g.has_node(x));
    assert!(g.has_node(a) && g.has_node(b));
    assert!(g.has_edge(a, b));
    assert_eq!(g.topological_sort(), vec![a, b]);
    assert_eq!(g.add_node(), 3);
}

#[test]
fn remove_node_that_is_absent_changes_nothing() {
    let mut g = DirectedAcyclicGraph::new();
    let a = g.add_node();
    let b = g.add_node();
    assert!(g.add_edge(a, b));
    g.remove_node(17);
    assert!(g.has_node(a) && g.has_node(b));
    assert!(g.has_edge(a, b));
    assert_eq!(g.add_node(), 2);
}

#[test]
fn remove_node_takes_edges_in_both_directions() {
    let mut g = DirectedAcyclicGraph::new();
    let a = g.add_node();
    let b = g.add_node();
    let c = g.add_node();
    let d = g.add_node();
    assert!(g.add_edge(a, b));
    assert!(g.add_edge(b, c));
    assert!(g.add_edge(a, d));
    g.remove_node(b);
    assert!(!g.has_edge(a, b));
    assert!(!g.has_edge(b, c));
    assert!(g.has_edge(a, d));
    assert!(g.outgoing_nodes(b).is_empty());
    assert!(g.ingoing_nodes(b).is_empty());
    assert!(g.add_edge(c, a));
}

#[test]
fn neighbours_are_sets_of_ends() {
    let mut g = DirectedAcyclicGraph::new();
    let a = g.add_node();
    let b = g.add_node();
    let c = g.add_node();
    let d = g.add_node();
    assert!(g.add_edge(a, b));
    assert!(g.add_edge(a, c));
    assert!(g.add_edge(b, c));
    assert!(g.add_edge(d, c));
    let out_a: HashSet<usize> = [b, c].into_iter().collect();
    let in_c: HashSet<usize> = [a, b, d].into_iter().collect();
    let in_b: HashSet<usize> = [a].into_iter().collect();
    assert_eq!(g.outgoing_nodes(a), out_a);
    assert_eq!(g.ingoing_nodes(c), in_c);
    assert_eq!(g.ingoing_nodes(b), in_b);
    assert!(g.outgoing_nodes(c).is_empty());
    assert!(g.ingoing_nodes(a).is_empty());
    assert!(g.outgoing_nodes(42).is_empty());
}

#[test]
fn reachability_follows_walks_forward_only() {
    let mut g = DirectedAcyclicGraph::new();
    let a = g.add_node();
    let b = g.add_node();
    let c = g.add_node();
    let d = g.add_node();
    let e = g.add_node();
    assert!(g.add_edge(a, b));
    assert!(g.add_edge(b, c));
    assert!(g.add_edge(c, d));
    assert!(g.is_reachable(a, d));
    assert!(g.is_reachable(b, d));
    assert!(g.is_reachable(a, b));
    assert!(!g.is_reachable(d, a));
    assert!(!g.is_reachable(c, b));
    assert!(!g.is_reachable(a, e));
    assert!(!g.is_reachable(e, a));
    assert!(!g.is_reachable(a, 99));
}

#[test]
fn every_cycle_closing_edge_is_refused() {
    let mut g = DirectedAcyclicGraph::new();
    let ids: Vec<usize> = (0..6).map(|_| g.add_node()).collect();
    for w in ids.windows(2) {
        assert!(g.add_edge(w[0], w[1]));
    }
    for i in 0..ids.len() {
        for j in 0..=i {
            assert!(!g.add_edge(ids[i], ids[j]));
            assert!(!g.has_edge(ids[i], ids[j]));
        }
    }
    for i in 0..ids.len() {
        for j in (i + 1)..ids.len() {
            assert!(g.add_edge(ids[i], ids[j]));
        }
    }
    assert_eq!(g.topological_sort(), ids);
}

#[test]
fn topological_order_is_a_permutation_that_respects_edges() {
    let mut g = DirectedAcyclicGraph::new();
    let ids: Vec<usize> = (0..8).map(|_| g.add_node()).collect();
    let edges = [(7, 3), (3, 1), (5, 1), (1, 0), (6, 2), (2, 0), (4, 6), (7, 4), (5, 4)];
    for &(a, b) in edges.iter() {
        assert!(g.add_edge(ids[a], ids[b]));
    }
    let order = g.topological_sort();
    assert_eq!(order.len(), ids.len());
    let seen: HashSet<usize> = order.iter().copied().collect();
    assert_eq!(seen.len(), ids.len());
    for &id in ids.iter() {
        assert!(seen.contains(&id));
    }
    for &(a, b) in edges.iter() {
        assert!(position(&order, ids[a]) < position(&order, ids[b]));
    }
}

#[test]
fn topological_order_skips_removed_vertices() {
    let mut g = DirectedAcyclicGraph::new();
    let a = g.add_node();
    let b = g.add_node();
    let c = g.add_node();
    let d = g.add_node();
    assert!(g.add_edge(d, c));
    assert!(g.add_edge(c, b));
    assert!(g.add_edge(b, a));
    assert_eq!(g.topological_sort(), vec![d, c, b, a]);
    g.remove_node(c);
    let order = g.topological_sort();
    assert_eq!(order.len(), 3);
    assert!(position(&order, b) < position(&order, a));
    assert!(order.contains(&d));
    assert!(!order.contains(&c));
}

#[test]
fn order_comes_layer_by_layer() {
    let mut g = DirectedAcyclicGraph::new();
    let a = g.add_node();
    let b = g.add_node();
    let c = g.add_node();
    assert!(g.add_edge(a, b));
    let order = g.topological_sort();
    assert_eq!(order.len(), 3);
    assert_eq!(order[2], b);
    let first: HashSet<usize> = order[0..2].iter().copied().collect();
    let expected: HashSet<usize> = [a, c].into_iter().collect();
    assert_eq!(first, expected);
}
