//! The executable graph, kept as two duplicate-free vectors and a counter.

use crate::model::{has_pred_in, is_layered, is_walk, reachable, sources, GraphModel};
use crate::walks::{
    lemma_closed_under_edges, lemma_insert_keeps_acyclic, lemma_layer_in_front, lemma_reach_refl,
    lemma_reach_step, lemma_source_exists, lemma_subset_acyclic,
};
use std::collections::HashSet;
use vstd::prelude::*;

verus! {

/// A directed acyclic graph over integer vertex handles.
pub struct DirectedAcyclicGraph {
    nodes: Vec<usize>,
    edges: Vec<(usize, usize)>,
    used: usize,
}

impl View for DirectedAcyclicGraph {
    type V = GraphModel;

    closed spec fn view(&self) -> GraphModel {
        GraphModel { nodes: self.nodes@.to_set(), edges: self.edges@.to_set(), next_id: self.used }
    }
}

impl Default for DirectedAcyclicGraph {
    /// The empty graph.
    fn default() -> (g: Self)
        ensures
            g.wf(),
            g@ == GraphModel::empty(),
    {
        DirectedAcyclicGraph::new()
    }
}

/// Whether `x` occurs in `v`.
fn holds(v: &Vec<usize>, x: usize) -> (found: bool)
    ensures
        found == v@.contains(x),
{
    let mut i: usize = 0;
    while i < v.len()
        invariant
            i <= v.len(),
            forall|j: int| 0 <= j < i ==> v[j] != x,
        decreases v.len() - i,
    {
        if v[i] == x {
            return true;
        }
        i += 1;
    }
    false
}

/// Whether the pair (`a`, `b`) occurs in `v`.
fn holds_pair(v: &Vec<(usize, usize)>, a: usize, b: usize) -> (found: bool)
    ensures
        found == v@.contains((a, b)),
{
    let mut i: usize = 0;
    while i < v.len()
        invariant
            i <= v.len(),
            forall|j: int| 0 <= j < i ==> v[j] != (a, b),
        decreases v.len() - i,
    {
        let e = v[i];
        if e.0 == a && e.1 == b {
            return true;
        }
        i += 1;
    }
    false
}

/// A duplicate-free sequence whose items, but for the first, all lie in a
/// set of `n` items has at most `n + 1` items.
proof fn lemma_bounded_by_nodes(seen: Seq<usize>, nodes: Seq<usize>)
    requires
        seen.len() >= 1,
        seen.no_duplicates(),
        nodes.no_duplicates(),
        forall|j: int| 1 <= j < seen.len() ==> nodes.contains(#[trigger] seen[j]),
    ensures
        seen.len() <= nodes.len() + 1,
{
    let rest = seen.drop_first();
    assert(rest.no_duplicates());
    rest.unique_seq_to_set();
    nodes.unique_seq_to_set();
    assert forall|x: usize| rest.to_set().contains(x) implies nodes.to_set().contains(x) by {
        let j = choose|j: int| 0 <= j < rest.len() && rest[j] == x;
        assert(seen[j + 1] == x);
    }
    vstd::set_lib::lemma_len_subset(rest.to_set(), nodes.to_set());
}

/// The items of `v` other than `x`, in their order.
fn without_item(v: &Vec<usize>, x: usize) -> (kept: Vec<usize>)
    requires
        v@.no_duplicates(),
    ensures
        kept@.no_duplicates(),
        kept@.to_set() == v@.to_set().remove(x),
{
    let mut kept: Vec<usize> = Vec::new();
    let mut i: usize = 0;
    while i < v.len()
        invariant
            i <= v.len(),
            v@.no_duplicates(),
            kept@.no_duplicates(),
            forall|k: int| 0 <= k < kept.len() ==> #[trigger] kept[k] != x && v@.contains(kept[k]),
            forall|k: int, j: int| 0 <= k < kept.len() && i <= j < v.len() ==> kept[k] != v[j],
            forall|j: int| 0 <= j < i && v[j] != x ==> kept@.contains(#[trigger] v[j]),
        decreases v.len() - i,
    {
        let item = v[i];
        if item != x {
            let ghost before = kept@;
            kept.push(item);
            proof {
                assert forall|j: int| 0 <= j < i && v[j] != x implies kept@.contains(
                    #[trigger] v[j],
                ) by {
                    let k = choose|k: int| 0 <= k < before.len() && before[k] == v[j];
                    assert(kept[k] == v[j]);
                }
                assert(kept[kept.len() - 1] == item);
            }
        }
        i += 1;
    }
    proof {
        assert forall|y: usize| kept@.to_set().contains(y) <==> v@.to_set().remove(x).contains(
            y,
        ) by {
            if kept@.contains(y) {
                let k = choose|k: int| 0 <= k < kept.len() && kept[k] == y;
                assert(kept[k] != x && v@.contains(kept[k]));
            }
            if v@.contains(y) && y != x {
                let j = choose|j: int| 0 <= j < v.len() && v[j] == y;
                assert(kept@.contains(v[j]));
            }
        }
        assert(kept@.to_set() =~= v@.to_set().remove(x));
    }
    kept
}

/// Whether an edge stays when edges are taken out: with `exact`, every edge
/// but the one from `a` to `b`; without it, every edge that does not touch `a`.
spec fn stays(e: (usize, usize), a: usize, b: usize, exact: bool) -> bool {
    if exact {
        e != (a, b)
    } else {
        e.0 != a && e.1 != a
    }
}

/// The edges of `v` that stay, in their order.
fn retained(v: &Vec<(usize, usize)>, a: usize, b: usize, exact: bool) -> (kept: Vec<(usize, usize)>)
    requires
        v@.no_duplicates(),
    ensures
        kept@.no_duplicates(),
        kept@.to_set() == v@.to_set().filter(|e: (usize, usize)| stays(e, a, b, exact)),
{
    let mut kept: Vec<(usize, usize)> = Vec::new();
    let mut i: usize = 0;
    while i < v.len()
        invariant
            i <= v.len(),
            v@.no_duplicates(),
            kept@.no_duplicates(),
            forall|k: int|
                0 <= k < kept.len() ==> stays(#[trigger] kept[k], a, b, exact) && v@.contains(
                    kept[k],
                ),
            forall|k: int, j: int| 0 <= k < kept.len() && i <= j < v.len() ==> kept[k] != v[j],
            forall|j: int|
                0 <= j < i && stays(v[j], a, b, exact) ==> kept@.contains(#[trigger] v[j]),
        decreases v.len() - i,
    {
        let e = v[i];
        let keep = if exact {
            !(e.0 == a && e.1 == b)
        } else {
            e.0 != a && e.1 != a
        };
        if keep {
            let ghost before = kept@;
            kept.push(e);
            proof {
                assert forall|j: int| 0 <= j < i && stays(v[j], a, b, exact) implies kept@.contains(
                    #[trigger] v[j],
                ) by {
                    let k = choose|k: int| 0 <= k < before.len() && before[k] == v[j];
                    assert(kept[k] == v[j]);
                }
                assert(kept[kept.len() - 1] == e);
            }
        }
        i += 1;
    }
    proof {
        let target = v@.to_set().filter(|e: (usize, usize)| stays(e, a, b, exact));
        assert forall|y: (usize, usize)| kept@.to_set().contains(y) <==> target.contains(y) by {
            if kept@.contains(y) {
                let k = choose|k: int| 0 <= k < kept.len() && kept[k] == y;
                assert(stays(kept[k], a, b, exact) && v@.contains(kept[k]));
            }
            if v@.contains(y) && stays(y, a, b, exact) {
                let j = choose|j: int| 0 <= j < v.len() && v[j] == y;
                assert(kept@.contains(v[j]));
            }
        }
        assert(kept@.to_set() =~= target);
    }
    kept
}

impl DirectedAcyclicGraph {
    /// The stored vertices and the stored edges each occur once.
    pub closed spec fn distinct(&self) -> bool {
        self.nodes@.no_duplicates() && self.edges@.no_duplicates()
    }

    /// The graph's invariant: the model's invariants, on a duplicate-free store.
    pub open spec fn wf(&self) -> bool {
        self.distinct() && self@.wf()
    }

    /// An empty graph whose first vertex will be 0.
    pub fn new() -> (g: Self)
        ensures
            g.wf(),
            g@ == GraphModel::empty(),
    {
        let g = DirectedAcyclicGraph { nodes: Vec::new(), edges: Vec::new(), used: 0 };
        proof {
            assert(g@.nodes =~= Set::empty());
            assert(g@.edges =~= Set::empty());
            assert forall|p: Seq<usize>| #[trigger] is_walk(g@.edges, p) && p.len() >= 2 implies p[0]
                != p.last() by {
                assert(g@.edges.contains((p[0], p[0int + 1])));
            }
        }
        g
    }

    /// Adds a vertex and returns its handle: the counter's value, which no
    /// earlier vertex of this graph had.
    pub fn add_node(&mut self) -> (id: usize)
        requires
            old(self).wf(),
            old(self)@.next_id < usize::MAX,
        ensures
            final(self).wf(),
            final(self)@ == old(self)@.add_node(),
            id == old(self)@.next_id,
            !old(self)@.nodes.contains(id),
            final(self)@.nodes.contains(id),
    {
        let id = self.used;
        proof {
            if self.nodes@.contains(id) {
                assert(self@.nodes.contains(id));
            }
            self.nodes@.lemma_push_to_set_commute(id);
        }
        self.nodes.push(id);
        self.used = id + 1;
        proof {
            assert(self@.nodes =~= old(self)@.add_node().nodes);
            assert(self@.edges =~= old(self)@.add_node().edges);
        }
        id
    }

    /// Whether the counter has room for one more vertex.
    pub fn can_add_node(&self) -> (room: bool)
        ensures
            room == (self@.next_id < usize::MAX),
    {
        self.used < usize::MAX
    }

    /// Whether `id` is a live vertex.
    pub fn has_node(&self, id: usize) -> (live: bool)
        ensures
            live == self@.nodes.contains(id),
    {
        holds(&self.nodes, id)
    }

    /// Whether the edge from `from` to `to` is in the graph.
    pub fn has_edge(&self, from: usize, to: usize) -> (present: bool)
        ensures
            present == self@.edges.contains((from, to)),
    {
        holds_pair(&self.edges, from, to)
    }

    /// Whether a walk along the edges leads from `from` to `to`. A vertex
    /// reaches itself, whether it is live or not.
    pub fn is_reachable(&self, from: usize, to: usize) -> (found: bool)
        requires
            self.wf(),
        ensures
            found == self@.reaches(from, to),
    {
        let ghost es = self@.edges;
        let mut seen: Vec<usize> = Vec::new();
        seen.push(from);
        let mut i: usize = 0;
        proof {
            lemma_reach_refl(es, from);
        }
        while i < seen.len()
            invariant
                self.wf(),
                es == self@.edges,
                i <= seen.len(),
                seen.len() >= 1,
                seen[0] == from,
                seen@.no_duplicates(),
                forall|j: int| 0 <= j < seen.len() ==> reachable(es, from, #[trigger] seen[j]),
                forall|j: int| 1 <= j < seen.len() ==> self.nodes@.contains(#[trigger] seen[j]),
                forall|j: int, y: usize|
                    0 <= j < i && #[trigger] es.contains((seen[j], y)) ==> seen@.contains(y),
            decreases self.nodes.len() + 1 - i,
        {
            proof {
                lemma_bounded_by_nodes(seen@, self.nodes@);
            }
            let n = seen[i];
            let mut k: usize = 0;
            while k < self.edges.len()
                invariant
                    self.wf(),
                    es == self@.edges,
                    i < seen.len(),
                    k <= self.edges.len(),
                    seen[0] == from,
                    seen[i as int] == n,
                    seen@.no_duplicates(),
                    forall|j: int| 0 <= j < seen.len() ==> reachable(es, from, #[trigger] seen[j]),
                    forall|j: int| 1 <= j < seen.len() ==> self.nodes@.contains(#[trigger] seen[j]),
                    forall|j: int, y: usize|
                        0 <= j < i && #[trigger] es.contains((seen[j], y)) ==> seen@.contains(y),
                    forall|m: int|
                        0 <= m < k && self.edges[m].0 == n ==> seen@.contains(
                            #[trigger] self.edges[m].1,
                        ),
                decreases self.edges.len() - k,
            {
                let e = self.edges[k];
                if e.0 == n && !holds(&seen, e.1) {
                    proof {
                        assert(self.edges@.contains(e));
                        assert(es.contains((n, e.1)));
                        lemma_reach_step(es, from, n, e.1);
                    }
                    let ghost before = seen@;
                    seen.push(e.1);
                    proof {
                        assert forall|y: usize| before.contains(y) implies seen@.contains(y) by {
                            let j = choose|j: int| 0 <= j < before.len() && before[j] == y;
                            assert(seen[j] == y);
                        }
                        assert(seen[seen.len() - 1] == e.1);
                    }
                }
                k += 1;
            }
            proof {
                assert forall|y: usize| es.contains((n, y)) implies seen@.contains(y) by {
                    let m = choose|m: int| 0 <= m < self.edges.len() && self.edges[m] == (n, y);
                    assert(seen@.contains(self.edges[m].1));
                }
            }
            i += 1;
        }
        let found = holds(&seen, to);
        proof {
            if reachable(es, from, to) {
                let p = choose|p: Seq<usize>| #[trigger]
                    is_walk(es, p) && p[0] == from && p.last() == to;
                assert(seen@.contains(from)) by {
                    assert(seen[0] == from);
                }
                assert forall|x: usize, y: usize|
                    seen@.contains(x) && #[trigger] es.contains((x, y)) implies seen@.contains(
                    y,
                ) by {
                    let j = choose|j: int| 0 <= j < seen.len() && seen[j] == x;
                    assert(es.contains((seen[j], y)));
                }
                lemma_closed_under_edges(es, seen@.to_set(), p);
            }
            if found {
                let j = choose|j: int| 0 <= j < seen.len() && seen[j] == to;
                assert(reachable(es, from, seen[j]));
            }
        }
        found
    }

    /// Adds the edge from `from` to `to` where both are live and `to` does
    /// not already reach `from`, and says whether it did. An edge that is
    /// already there is accepted again and stays single.
    pub fn add_edge(&mut self, from: usize, to: usize) -> (accepted: bool)
        requires
            old(self).wf(),
        ensures
            final(self).wf(),
            accepted == old(self)@.accepts_edge(from, to),
            final(self)@ == old(self)@.add_edge(from, to),
            accepted ==> final(self)@.edges.contains((from, to)),
            !accepted ==> final(self)@ == old(self)@,
    {
        if !self.has_node(from) || !self.has_node(to) {
            return false;
        }
        if self.is_reachable(to, from) {
            return false;
        }
        proof {
            lemma_insert_keeps_acyclic(self@.edges, from, to);
            self.edges@.lemma_push_to_set_commute((from, to));
        }
        if !self.has_edge(from, to) {
            self.edges.push((from, to));
        }
        proof {
            assert(self@.edges =~= old(self)@.edges.insert((from, to)));
            assert(self@.nodes =~= old(self)@.nodes);
        }
        true
    }

    /// Removes the vertex `id`, where it is live, and every edge that enters
    /// or leaves it. The counter stays.
    pub fn remove_node(&mut self, id: usize)
        requires
            old(self).wf(),
        ensures
            final(self).wf(),
            final(self)@ == old(self)@.remove_node(id),
            !final(self)@.nodes.contains(id),
            forall|x: usize|
                !final(self)@.edges.contains((id, x)) && !final(self)@.edges.contains((x, id)),
    {
        let nodes = without_item(&self.nodes, id);
        let edges = retained(&self.edges, id, id, false);
        self.nodes = nodes;
        self.edges = edges;
        proof {
            assert(self@.edges =~= old(self)@.remove_node(id).edges);
            assert(self@.edges.subset_of(old(self)@.edges));
            lemma_subset_acyclic(self@.edges, old(self)@.edges);
        }
    }

    /// Removes the edge from `from` to `to`, where it is there. No other edge
    /// and no vertex changes.
    pub fn remove_edge(&mut self, from: usize, to: usize)
        requires
            old(self).wf(),
        ensures
            final(self).wf(),
            final(self)@ == old(self)@.remove_edge(from, to),
            !final(self)@.edges.contains((from, to)),
    {
        let edges = retained(&self.edges, from, to, true);
        self.edges = edges;
        proof {
            assert(self@.edges =~= old(self)@.remove_edge(from, to).edges);
            assert(self@.edges.subset_of(old(self)@.edges));
            lemma_subset_acyclic(self@.edges, old(self)@.edges);
        }
    }

    /// The targets of the edges that leave `from`.
    pub fn outgoing_nodes(&self, from: usize) -> (targets: HashSet<usize>)
        ensures
            targets@ == self@.successors(from),
    {
        broadcast use vstd::std_specs::hash::group_hash_axioms;

        let mut targets: HashSet<usize> = HashSet::new();
        let mut k: usize = 0;
        while k < self.edges.len()
            invariant
                k <= self.edges.len(),
                forall|y: usize|
                    targets@.contains(y) <==> exists|m: int|
                        0 <= m < k && #[trigger] self.edges[m] == (from, y),
            decreases self.edges.len() - k,
        {
            let e = self.edges[k];
            if e.0 == from {
                targets.insert(e.1);
            }
            proof {
                assert(self.edges[k as int] == (e.0, e.1));
            }
            k += 1;
        }
        proof {
            assert(targets@ =~= self@.successors(from));
        }
        targets
    }

    /// The sources of the edges that enter `to`.
    pub fn ingoing_nodes(&self, to: usize) -> (sources: HashSet<usize>)
        ensures
            sources@ == self@.predecessors(to),
    {
        broadcast use vstd::std_specs::hash::group_hash_axioms;

        let mut sources: HashSet<usize> = HashSet::new();
        let mut k: usize = 0;
        while k < self.edges.len()
            invariant
                k <= self.edges.len(),
                forall|x: usize|
                    sources@.contains(x) <==> exists|m: int|
                        0 <= m < k && #[trigger] self.edges[m] == (x, to),
            decreases self.edges.len() - k,
        {
            let e = self.edges[k];
            if e.1 == to {
                sources.insert(e.0);
            }
            proof {
                assert(self.edges[k as int] == (e.0, e.1));
            }
            k += 1;
        }
        proof {
            assert(sources@ =~= self@.predecessors(to));
        }
        sources
    }

    /// Whether some vertex of `remaining` has an edge to `v`.
    fn is_blocked(&self, v: usize, remaining: &Vec<usize>) -> (blocked: bool)
        ensures
            blocked == has_pred_in(self@.edges, remaining@.to_set(), v),
    {
        broadcast use vstd::std_specs::hash::group_hash_axioms;

        let sources = self.ingoing_nodes(v);
        let mut m: usize = 0;
        while m < remaining.len()
            invariant
                m <= remaining.len(),
                sources@ == self@.predecessors(v),
                forall|j: int| 0 <= j < m ==> !self@.edges.contains((#[trigger] remaining[j], v)),
            decreases remaining.len() - m,
        {
            if sources.contains(&remaining[m]) {
                proof {
                    assert(remaining@.to_set().contains(remaining[m as int]));
                    assert(self@.edges.contains((remaining[m as int], v)));
                }
                return true;
            }
            m += 1;
        }
        proof {
            if has_pred_in(self@.edges, remaining@.to_set(), v) {
                let u = choose|u: usize|
                    remaining@.to_set().contains(u) && #[trigger] self@.edges.contains((u, v));
                let j = choose|j: int| 0 <= j < remaining.len() && remaining[j] == u;
                assert(!self@.edges.contains((remaining[j], v)));
            }
        }
        false
    }

    /// Parts `remaining` into the vertices that no vertex of `remaining` has
    /// an edge to, and the others.
    fn split_layer(&self, remaining: &Vec<usize>) -> (parts: (Vec<usize>, Vec<usize>))
        requires
            remaining@.no_duplicates(),
        ensures
            parts.0@.no_duplicates(),
            parts.1@.no_duplicates(),
            parts.0.len() + parts.1.len() == remaining.len(),
            forall|x: usize|
                parts.0@.contains(x) <==> remaining@.contains(x) && !has_pred_in(
                    self@.edges,
                    remaining@.to_set(),
                    x,
                ),
            forall|x: usize|
                parts.1@.contains(x) <==> remaining@.contains(x) && has_pred_in(
                    self@.edges,
                    remaining@.to_set(),
                    x,
                ),
    {
        let ghost es = self@.edges;
        let ghost among = remaining@.to_set();
        let mut free: Vec<usize> = Vec::new();
        let mut held: Vec<usize> = Vec::new();
        let mut k: usize = 0;
        while k < remaining.len()
            invariant
                k <= remaining.len(),
                es == self@.edges,
                among == remaining@.to_set(),
                remaining@.no_duplicates(),
                free@.no_duplicates(),
                held@.no_duplicates(),
                free.len() + held.len() == k,
                forall|a: int|
                    0 <= a < free.len() ==> remaining@.contains(#[trigger] free[a]) && !has_pred_in(
                        es,
                        among,
                        free[a],
                    ),
                forall|a: int|
                    0 <= a < held.len() ==> remaining@.contains(#[trigger] held[a]) && has_pred_in(
                        es,
                        among,
                        held[a],
                    ),
                forall|a: int, j: int|
                    0 <= a < free.len() && k <= j < remaining.len() ==> free[a] != remaining[j],
                forall|a: int, j: int|
                    0 <= a < held.len() && k <= j < remaining.len() ==> held[a] != remaining[j],
                forall|j: int|
                    0 <= j < k && !has_pred_in(es, among, remaining[j]) ==> free@.contains(
                        #[trigger] remaining[j],
                    ),
                forall|j: int|
                    0 <= j < k && has_pred_in(es, among, remaining[j]) ==> held@.contains(
                        #[trigger] remaining[j],
                    ),
            decreases remaining.len() - k,
        {
            let v = remaining[k];
            let ghost free_before = free@;
            let ghost held_before = held@;
            if self.is_blocked(v, remaining) {
                held.push(v);
                proof {
                    assert(held[held.len() - 1] == v);
                }
            } else {
                free.push(v);
                proof {
                    assert(free[free.len() - 1] == v);
                }
            }
            proof {
                assert forall|j: int|
                    0 <= j < k + 1 && !has_pred_in(
                        es,
                        among,
                        remaining[j],
                    ) implies free@.contains(#[trigger] remaining[j]) by {
                    if j < k {
                        let a = choose|a: int|
                            0 <= a < free_before.len() && free_before[a] == remaining[j];
                        assert(free[a] == remaining[j]);
                    }
                }
                assert forall|j: int|
                    0 <= j < k + 1 && has_pred_in(es, among, remaining[j]) implies held@.contains(
                    #[trigger] remaining[j],
                ) by {
                    if j < k {
                        let a = choose|a: int|
                            0 <= a < held_before.len() && held_before[a] == remaining[j];
                        assert(held[a] == remaining[j]);
                    }
                }
            }
            k += 1;
        }
        proof {
            assert forall|x: usize|
                free@.contains(x) <==> remaining@.contains(x) && !has_pred_in(es, among, x) by {
                if free@.contains(x) {
                    let a = choose|a: int| 0 <= a < free.len() && free[a] == x;
                    assert(remaining@.contains(free[a]));
                }
                if remaining@.contains(x) && !has_pred_in(es, among, x) {
                    let j = choose|j: int| 0 <= j < remaining.len() && remaining[j] == x;
                    assert(free@.contains(remaining[j]));
                }
            }
            assert forall|x: usize|
                held@.contains(x) <==> remaining@.contains(x) && has_pred_in(es, among, x) by {
                if held@.contains(x) {
                    let a = choose|a: int| 0 <= a < held.len() && held[a] == x;
                    assert(remaining@.contains(held[a]));
                }
                if remaining@.contains(x) && has_pred_in(es, among, x) {
                    let j = choose|j: int| 0 <= j < remaining.len() && remaining[j] == x;
                    assert(held@.contains(remaining[j]));
                }
            }
        }
        (free, held)
    }

    /// What a split of `whole` into `free` and `held` gives: the two parts
    /// share no vertex and cover `whole`, no vertex of either has an edge to
    /// a free one, and where `whole` is not empty a free one exists.
    proof fn lemma_layer(&self, whole: Seq<usize>, free: Seq<usize>, held: Seq<usize>)
        requires
            self@.wf(),
            forall|x: usize|
                free.contains(x) <==> whole.contains(x) && !has_pred_in(
                    self@.edges,
                    whole.to_set(),
                    x,
                ),
            forall|x: usize|
                held.contains(x) <==> whole.contains(x) && has_pred_in(
                    self@.edges,
                    whole.to_set(),
                    x,
                ),
        ensures
            forall|a: int, b: int| 0 <= a < free.len() && 0 <= b < held.len() ==> free[a] != held[b],
            forall|x: usize| whole.contains(x) <==> free.contains(x) || held.contains(x),
            forall|x: usize|
                free.contains(x) ==> !has_pred_in(
                    self@.edges,
                    free.to_set().union(held.to_set()),
                    x,
                ),
            whole.len() > 0 ==> free.len() > 0,
            free.to_set() == sources(self@.edges, whole.to_set()),
            held.to_set() == whole.to_set().difference(sources(self@.edges, whole.to_set())),
    {
        let es = self@.edges;
        assert(free.to_set() =~= sources(es, whole.to_set()));
        assert(held.to_set() =~= whole.to_set().difference(sources(es, whole.to_set())));
        assert forall|a: int, b: int| 0 <= a < free.len() && 0 <= b < held.len() implies free[a]
            != held[b] by {
            assert(free.contains(free[a]));
            assert(held.contains(held[b]));
        }
        assert forall|x: usize| whole.contains(x) <==> free.contains(x) || held.contains(x) by {
            if whole.contains(x) {
                if has_pred_in(es, whole.to_set(), x) {
                    assert(held.contains(x));
                } else {
                    assert(free.contains(x));
                }
            }
        }
        assert(free.to_set().union(held.to_set()) =~= whole.to_set());
        if whole.len() > 0 {
            assert(whole.to_set().contains(whole[0]));
            lemma_source_exists(es, whole.to_set(), whole[0]);
            let v = choose|v: usize|
                whole.to_set().contains(v) && !#[trigger] has_pred_in(es, whole.to_set(), v);
            assert(free.contains(v));
        }
    }

    /// The live vertices in an order in which every edge leads forward. It
    /// is built layer by layer: each round emits the vertices that no
    /// remaining vertex has an edge to.
    pub fn topological_sort(&self) -> (order: Vec<usize>)
        requires
            self.wf(),
        ensures
            self@.sorts(order@),
            self@.layers(order@),
    {
        let ghost es = self@.edges;
        let ghost mut among = self.nodes@.to_set();
        let mut order: Vec<usize> = Vec::new();
        let parts = self.split_layer(&self.nodes);
        let mut free = parts.0;
        let mut remaining = parts.1;
        proof {
            self.lemma_layer(self.nodes@, free@, remaining@);
            assert forall|rest: Seq<usize>| #[trigger] is_layered(es, among, rest) implies is_layered(
                es,
                self@.nodes,
                order@ + rest,
            ) by {
                assert(order@ + rest =~= rest);
            }
        }
        loop
            invariant
                self.wf(),
                es == self@.edges,
                order@.no_duplicates(),
                free@.no_duplicates(),
                remaining@.no_duplicates(),
                forall|a: int, b: int|
                    0 <= a < order.len() && 0 <= b < free.len() ==> order[a] != free[b],
                forall|a: int, b: int|
                    0 <= a < order.len() && 0 <= b < remaining.len() ==> order[a] != remaining[b],
                forall|a: int, b: int|
                    0 <= a < free.len() && 0 <= b < remaining.len() ==> free[a] != remaining[b],
                forall|x: usize|
                    self.nodes@.contains(x) <==> order@.contains(x) || free@.contains(x)
                        || remaining@.contains(x),
                forall|x: usize|
                    free@.contains(x) ==> !has_pred_in(
                        es,
                        free@.to_set().union(remaining@.to_set()),
                        x,
                    ),
                remaining.len() > 0 ==> free.len() > 0,
                free@.to_set() == sources(es, among),
                remaining@.to_set() == among.difference(sources(es, among)),
                forall|rest: Seq<usize>| #[trigger]
                    is_layered(es, among, rest) ==> is_layered(es, self@.nodes, order@ + rest),
                forall|j: int, u: usize|
                    0 <= j < order.len() && #[trigger] es.contains((u, order[j])) ==> exists|
                        i: int,
                    |
                        0 <= i < j && order[i] == u,
            ensures
                remaining.len() == 0,
                free.len() == 0,
                among == Set::<usize>::empty(),
            decreases remaining.len() + free.len(),
        {
            if free.len() == 0 {
                proof {
                    assert(among =~= Set::<usize>::empty()) by {
                        assert forall|x: usize| !among.contains(x) by {
                            if among.contains(x) {
                                assert(remaining@.to_set().contains(x) || free@.to_set().contains(
                                    x,
                                ));
                            }
                        }
                    }
                }
                break ;
            }
            let ghost order_before = order@;
            let ghost free_before = free@;
            order.append(&mut free);
            proof {
                vstd::seq_lib::lemma_no_dup_in_concat(order_before, free_before);
                assert forall|x: usize|
                    order@.contains(x) <==> order_before.contains(x) || free_before.contains(
                        x,
                    ) by {
                    if order_before.contains(x) {
                        let a = choose|a: int| 0 <= a < order_before.len() && order_before[a] == x;
                        assert(order[a] == x);
                    }
                    if free_before.contains(x) {
                        let b = choose|b: int| 0 <= b < free_before.len() && free_before[b] == x;
                        assert(order[order_before.len() + b] == x);
                    }
                    if order@.contains(x) {
                        let c = choose|c: int| 0 <= c < order.len() && order[c] == x;
                        if c < order_before.len() {
                            assert(order_before[c] == x);
                        } else {
                            assert(free_before[c - order_before.len()] == x);
                        }
                    }
                }
                assert forall|j: int, u: usize|
                    0 <= j < order.len() && #[trigger] es.contains((u, order[j])) implies exists|
                    i: int,
                |
                    0 <= i < j && order[i] == u by {
                    if j < order_before.len() {
                        assert(es.contains((u, order_before[j])));
                        let i = choose|i: int| 0 <= i < j && order_before[i] == u;
                        assert(order[i] == u);
                    } else {
                        let v = free_before[j - order_before.len()];
                        let pool = free_before.to_set().union(remaining@.to_set());
                        assert(free_before.contains(v));
                        assert(!has_pred_in(es, pool, v));
                        assert(self@.nodes.contains(u));
                        assert(!pool.contains(u));
                        assert(order_before.contains(u));
                        let i = choose|i: int| 0 <= i < order_before.len() && order_before[i] == u;
                        assert(order[i] == u);
                    }
                }
            }
            let parts = self.split_layer(&remaining);
            proof {
                self.lemma_layer(remaining@, parts.0@, parts.1@);
                assert forall|rest: Seq<usize>| #[trigger]
                    is_layered(es, remaining@.to_set(), rest) implies is_layered(
                    es,
                    self@.nodes,
                    order@ + rest,
                ) by {
                    lemma_layer_in_front(es, among, free_before, rest);
                    assert(order_before + (free_before + rest) =~= order@ + rest);
                }
                among = remaining@.to_set();
                assert forall|a: int, b: int|
                    0 <= a < order.len() && 0 <= b < remaining.len() implies order[a]
                    != remaining[b] by {
                    if a >= order_before.len() {
                        assert(order[a] == free_before[a - order_before.len()]);
                    } else {
                        assert(order[a] == order_before[a]);
                    }
                }
                assert forall|a: int, b: int|
                    0 <= a < order.len() && 0 <= b < parts.0.len() implies order[a]
                    != parts.0[b] by {
                    assert(parts.0@.contains(parts.0[b]));
                    let c = choose|c: int| 0 <= c < remaining.len() && remaining[c] == parts.0[b];
                    assert(order[a] != remaining[c]);
                }
                assert forall|a: int, b: int|
                    0 <= a < order.len() && 0 <= b < parts.1.len() implies order[a]
                    != parts.1[b] by {
                    assert(parts.1@.contains(parts.1[b]));
                    let c = choose|c: int| 0 <= c < remaining.len() && remaining[c] == parts.1[b];
                    assert(order[a] != remaining[c]);
                }
            }
            let ghost remaining_before = remaining@;
            free = parts.0;
            remaining = parts.1;
            proof {
                assert forall|x: usize|
                    self.nodes@.contains(x) <==> order@.contains(x) || free@.contains(x)
                        || remaining@.contains(x) by {
                    assert(order@.contains(x) <==> order_before.contains(x)
                        || free_before.contains(x));
                    assert(remaining_before.contains(x) <==> free@.contains(x)
                        || remaining@.contains(x));
                }
            }
        }
        proof {
            assert(is_layered(es, among, Seq::<usize>::empty()));
            assert(order@ + Seq::<usize>::empty() =~= order@);
            assert(order@.to_set() =~= self@.nodes);
            order@.unique_seq_to_set();
            assert forall|i: int, j: int|
                0 <= i < order.len() && 0 <= j < order.len() && #[trigger] es.contains(
                    (order[i], order[j]),
                ) implies i < j by {
                let w = choose|w: int| 0 <= w < j && order[w] == order[i];
                assert(w == i);
            }
        }
        order
    }
}

} // verus!
