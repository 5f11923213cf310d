//! Facts about walks, reachability and acyclicity that the graph's operations
//! rest on.

use crate::model::{acyclic, has_pred_in, is_layered, is_walk, reachable, sources};
use vstd::prelude::*;

verus! {

/// Every vertex reaches itself.
pub proof fn lemma_reach_refl(edges: Set<(usize, usize)>, a: usize)
    ensures
        reachable(edges, a, a),
{
    let p = seq![a];
    assert(is_walk(edges, p));
    assert(p[0] == a && p.last() == a);
}

/// Two walks that meet end to start join into one walk.
pub proof fn lemma_walk_join(edges: Set<(usize, usize)>, p: Seq<usize>, q: Seq<usize>)
    requires
        is_walk(edges, p),
        is_walk(edges, q),
        p.last() == q[0],
    ensures
        is_walk(edges, p + q.drop_first()),
        (p + q.drop_first()).len() == p.len() + q.len() - 1,
        (p + q.drop_first())[0] == p[0],
        (p + q.drop_first()).last() == q.last(),
{
    let r = p + q.drop_first();
    assert forall|i: int| 0 <= i < r.len() - 1 implies #[trigger] edges.contains(
        (r[i], r[i + 1]),
    ) by {
        if i < p.len() - 1 {
            assert(edges.contains((p[i], p[i + 1])));
        } else {
            let j = i - (p.len() - 1);
            assert(edges.contains((q[j], q[j + 1])));
        }
    }
}

/// A walk followed by one more edge is a walk.
pub proof fn lemma_walk_push(edges: Set<(usize, usize)>, p: Seq<usize>, v: usize)
    requires
        is_walk(edges, p),
        edges.contains((p.last(), v)),
    ensures
        is_walk(edges, p.push(v)),
{
    let r = p.push(v);
    assert forall|i: int| 0 <= i < r.len() - 1 implies #[trigger] edges.contains(
        (r[i], r[i + 1]),
    ) by {
        if i < p.len() - 1 {
            assert(edges.contains((p[i], p[i + 1])));
        }
    }
}

/// Reachability is transitive.
pub proof fn lemma_reach_trans(edges: Set<(usize, usize)>, a: usize, b: usize, c: usize)
    requires
        reachable(edges, a, b),
        reachable(edges, b, c),
    ensures
        reachable(edges, a, c),
{
    let p = choose|p: Seq<usize>| #[trigger] is_walk(edges, p) && p[0] == a && p.last() == b;
    let q = choose|q: Seq<usize>| #[trigger] is_walk(edges, q) && q[0] == b && q.last() == c;
    lemma_walk_join(edges, p, q);
    let r = p + q.drop_first();
    assert(is_walk(edges, r) && r[0] == a && r.last() == c);
}

/// What reaches the source of an edge reaches its target.
pub proof fn lemma_reach_step(edges: Set<(usize, usize)>, a: usize, b: usize, c: usize)
    requires
        reachable(edges, a, b),
        edges.contains((b, c)),
    ensures
        reachable(edges, a, c),
{
    let p = choose|p: Seq<usize>| #[trigger] is_walk(edges, p) && p[0] == a && p.last() == b;
    lemma_walk_push(edges, p, c);
    let r = p.push(c);
    assert(is_walk(edges, r) && r[0] == a && r.last() == c);
}

/// A walk stays a walk when edges are added.
pub proof fn lemma_walk_monotone(
    small: Set<(usize, usize)>,
    large: Set<(usize, usize)>,
    p: Seq<usize>,
)
    requires
        small.subset_of(large),
        is_walk(small, p),
    ensures
        is_walk(large, p),
{
    assert forall|i: int| 0 <= i < p.len() - 1 implies #[trigger] large.contains(
        (p[i], p[i + 1]),
    ) by {
        assert(small.contains((p[i], p[i + 1])));
    }
}

/// Taking edges away from an acyclic edge set leaves it acyclic.
pub proof fn lemma_subset_acyclic(small: Set<(usize, usize)>, large: Set<(usize, usize)>)
    requires
        small.subset_of(large),
        acyclic(large),
    ensures
        acyclic(small),
{
    assert forall|p: Seq<usize>| #[trigger] is_walk(small, p) && p.len() >= 2 implies p[0]
        != p.last() by {
        lemma_walk_monotone(small, large, p);
    }
}

/// The part of a walk before its last vertex is a walk, and an edge joins its
/// end to the last vertex.
pub proof fn lemma_walk_drop_last(edges: Set<(usize, usize)>, p: Seq<usize>)
    requires
        is_walk(edges, p),
        p.len() >= 2,
    ensures
        is_walk(edges, p.drop_last()),
        edges.contains((p.drop_last().last(), p.last())),
        p.drop_last()[0] == p[0],
{
    let q = p.drop_last();
    assert forall|i: int| 0 <= i < q.len() - 1 implies #[trigger] edges.contains(
        (q[i], q[i + 1]),
    ) by {
        assert(edges.contains((p[i], p[i + 1])));
    }
    let k = p.len() - 2;
    assert(edges.contains((p[k], p[k + 1])));
}

/// Where `b` does not reach `a`, a walk that may use the new edge from `a` to
/// `b` either has a counterpart without it, or passes through it once: its
/// start reaches `a` and `b` reaches its end, both by old edges.
pub proof fn lemma_walk_through_new_edge(
    edges: Set<(usize, usize)>,
    a: usize,
    b: usize,
    p: Seq<usize>,
)
    requires
        !reachable(edges, b, a),
        is_walk(edges.insert((a, b)), p),
    ensures
        reachable(edges, p[0], p.last()) || (reachable(edges, p[0], a) && reachable(
            edges,
            b,
            p.last(),
        )),
    decreases p.len(),
{
    if p.len() == 1 {
        lemma_reach_refl(edges, p[0]);
    } else {
        let q = p.drop_last();
        let z = q.last();
        let y = p.last();
        lemma_walk_drop_last(edges.insert((a, b)), p);
        lemma_walk_through_new_edge(edges, a, b, q);
        if edges.contains((z, y)) {
            if reachable(edges, p[0], z) {
                lemma_reach_step(edges, p[0], z, y);
            } else {
                lemma_reach_step(edges, b, z, y);
            }
        } else {
            assert(z == a && y == b);
            lemma_reach_refl(edges, b);
        }
    }
}

/// An edge whose target does not reach its source closes no cycle.
pub proof fn lemma_insert_keeps_acyclic(edges: Set<(usize, usize)>, a: usize, b: usize)
    requires
        acyclic(edges),
        !reachable(edges, b, a),
    ensures
        acyclic(edges.insert((a, b))),
{
    let grown = edges.insert((a, b));
    assert forall|p: Seq<usize>| #[trigger] is_walk(grown, p) && p.len() >= 2 implies p[0]
        != p.last() by {
        if p[0] == p.last() {
            let x = p[0];
            let q = p.drop_last();
            let z = q.last();
            lemma_walk_drop_last(grown, p);
            lemma_walk_through_new_edge(edges, a, b, q);
            if edges.contains((z, x)) {
                if reachable(edges, x, z) {
                    lemma_closed_walk(edges, x, z);
                } else {
                    lemma_reach_step(edges, b, z, x);
                    lemma_reach_trans(edges, b, x, a);
                }
            } else {
                assert(z == a && x == b);
            }
        }
    }
}

/// In an acyclic edge set no edge leads back to a vertex that reaches its
/// source.
pub proof fn lemma_closed_walk(edges: Set<(usize, usize)>, x: usize, z: usize)
    requires
        acyclic(edges),
        reachable(edges, x, z),
    ensures
        !edges.contains((z, x)),
{
    if edges.contains((z, x)) {
        let w = choose|w: Seq<usize>| #[trigger] is_walk(edges, w) && w[0] == x && w.last() == z;
        lemma_walk_push(edges, w, x);
        let c = w.push(x);
        assert(is_walk(edges, c) && c.len() >= 2 && c[0] == c.last());
    }
}

/// A walk that starts inside a set of vertices which no edge leaves ends
/// inside it.
pub proof fn lemma_closed_under_edges(edges: Set<(usize, usize)>, inside: Set<usize>, p: Seq<usize>)
    requires
        is_walk(edges, p),
        inside.contains(p[0]),
        forall|x: usize, y: usize|
            inside.contains(x) && #[trigger] edges.contains((x, y)) ==> inside.contains(y),
    ensures
        inside.contains(p.last()),
    decreases p.len(),
{
    if p.len() >= 2 {
        lemma_walk_drop_last(edges, p);
        lemma_closed_under_edges(edges, inside, p.drop_last());
    }
}

/// A part of a walk between two of its positions is a walk.
pub proof fn lemma_walk_subrange(edges: Set<(usize, usize)>, p: Seq<usize>, lo: int, hi: int)
    requires
        is_walk(edges, p),
        0 <= lo < hi <= p.len(),
    ensures
        is_walk(edges, p.subrange(lo, hi)),
{
    let q = p.subrange(lo, hi);
    assert forall|i: int| 0 <= i < q.len() - 1 implies #[trigger] edges.contains(
        (q[i], q[i + 1]),
    ) by {
        assert(edges.contains((p[lo + i], p[lo + i + 1])));
    }
}

/// Where every vertex of a set has a predecessor in the set, the set holds
/// walks of every length.
proof fn lemma_backward_walk(
    edges: Set<(usize, usize)>,
    among: Set<usize>,
    start: usize,
    n: nat,
) -> (p: Seq<usize>)
    requires
        among.contains(start),
        forall|v: usize| among.contains(v) ==> #[trigger] has_pred_in(edges, among, v),
    ensures
        is_walk(edges, p),
        p.len() == n + 1,
        forall|i: int| 0 <= i < p.len() ==> among.contains(#[trigger] p[i]),
    decreases n,
{
    if n == 0 {
        seq![start]
    } else {
        let q = lemma_backward_walk(edges, among, start, (n - 1) as nat);
        assert(has_pred_in(edges, among, q[0]));
        let u = choose|u: usize| among.contains(u) && #[trigger] edges.contains((u, q[0]));
        let head = seq![u];
        assert(is_walk(edges, head));
        let p = head + q;
        assert forall|i: int| 0 <= i < p.len() - 1 implies #[trigger] edges.contains(
            (p[i], p[i + 1]),
        ) by {
            if i >= 1 {
                assert(edges.contains((q[i - 1], q[i - 1 + 1])));
            }
        }
        p
    }
}

/// In an acyclic graph every non-empty finite set of vertices holds one that
/// no vertex of the set has an edge to.
pub proof fn lemma_source_exists(edges: Set<(usize, usize)>, among: Set<usize>, start: usize)
    requires
        acyclic(edges),
        among.finite(),
        among.contains(start),
    ensures
        exists|v: usize| among.contains(v) && !#[trigger] has_pred_in(edges, among, v),
{
    if forall|v: usize| among.contains(v) ==> #[trigger] has_pred_in(edges, among, v) {
        let p = lemma_backward_walk(edges, among, start, among.len());
        if p.no_duplicates() {
            p.unique_seq_to_set();
            assert(p.to_set().subset_of(among)) by {
                assert forall|x: usize| p.to_set().contains(x) implies among.contains(x) by {
                    let i = choose|i: int| 0 <= i < p.len() && p[i] == x;
                    assert(among.contains(p[i]));
                }
            }
            vstd::set_lib::lemma_len_subset(p.to_set(), among);
            assert(false);
        } else {
            let (i, j) = choose|i: int, j: int|
                0 <= i < p.len() && 0 <= j < p.len() && i != j && p[i] == p[j];
            let lo = if i < j { i } else { j };
            let hi = if i < j { j } else { i };
            lemma_walk_subrange(edges, p, lo, hi + 1);
            let c = p.subrange(lo, hi + 1);
            assert(is_walk(edges, c) && c.len() >= 2 && c[0] == c.last());
            assert(false);
        }
    }
}

/// A full first layer in front of a layered order of the rest is a layered
/// order of the whole.
pub proof fn lemma_layer_in_front(
    edges: Set<(usize, usize)>,
    among: Set<usize>,
    layer: Seq<usize>,
    rest: Seq<usize>,
)
    requires
        layer.len() > 0,
        layer.no_duplicates(),
        layer.to_set() == sources(edges, among),
        is_layered(edges, among.difference(sources(edges, among)), rest),
    ensures
        is_layered(edges, among, layer + rest),
{
    let order = layer + rest;
    let k = sources(edges, among).len();
    layer.unique_seq_to_set();
    assert(order.subrange(0, k as int) =~= layer);
    assert(order.subrange(k as int, order.len() as int) =~= rest);
}

} // verus!
