//! Walks in the spatial graph and their costs: the terms in which shortest
//! distances are stated.
use vstd::prelude::*;

use crate::model::Edge;
use crate::petgraph_specs::{other_end, touches};

verus! {

/// The cost of crossing an edge.  Access links cost their distance when
/// `with_access` holds, and nothing otherwise.
pub open spec fn edge_cost(e: Edge, with_access: bool) -> nat {
    match e {
        Edge::Road { length_mm, .. } => length_mm as nat,
        Edge::BuildingAccess { distance_mm } => if with_access {
            distance_mm as nat
        } else {
            0
        },
    }
}

/// The cost of crossing an edge.
pub fn edge_weight(e: &Edge, with_access: bool) -> (w: u64)
    ensures
        w == edge_cost(*e, with_access),
{
    match e {
        Edge::Road { length_mm, .. } => *length_mm as u64,
        Edge::BuildingAccess { distance_mm } => if with_access {
            *distance_mm as u64
        } else {
            0
        },
    }
}

/// The node reached from `s` by following the edges `p` in turn.
pub open spec fn walk_end(es: Seq<(usize, usize, Edge)>, s: int, p: Seq<int>) -> int
    decreases p.len(),
{
    if p.len() == 0 {
        s
    } else {
        other_end(es[p.last()], walk_end(es, s, p.drop_last()))
    }
}

/// Each edge of `p` exists and touches the node reached before it.
pub open spec fn walk_valid(es: Seq<(usize, usize, Edge)>, s: int, p: Seq<int>) -> bool
    decreases p.len(),
{
    if p.len() == 0 {
        true
    } else {
        &&& walk_valid(es, s, p.drop_last())
        &&& 0 <= p.last() < es.len()
        &&& touches(es[p.last()], walk_end(es, s, p.drop_last()))
    }
}

/// `p` is a walk from `s` to `t`.
pub open spec fn is_walk(es: Seq<(usize, usize, Edge)>, s: int, t: int, p: Seq<int>) -> bool {
    walk_valid(es, s, p) && walk_end(es, s, p) == t
}

/// The total cost of the edges of `p`.
pub open spec fn walk_cost(es: Seq<(usize, usize, Edge)>, p: Seq<int>, with_access: bool) -> nat
    decreases p.len(),
{
    if p.len() == 0 {
        0
    } else {
        walk_cost(es, p.drop_last(), with_access) + edge_cost(es[p.last()].2, with_access)
    }
}

/// `d` is the least cost of a walk from one of the sources (the first
/// components of `srcs`) to `t`.
pub open spec fn is_distance_from(
    es: Seq<(usize, usize, Edge)>,
    srcs: Seq<(usize, usize)>,
    t: int,
    d: int,
    with_access: bool,
) -> bool {
    &&& exists|k: int, p: Seq<int>|
        0 <= k < srcs.len() && #[trigger] is_walk(es, srcs[k].0 as int, t, p) && walk_cost(
            es,
            p,
            with_access,
        ) == d
    &&& forall|k: int, p: Seq<int>|
        0 <= k < srcs.len() && #[trigger] is_walk(es, srcs[k].0 as int, t, p) ==> walk_cost(
            es,
            p,
            with_access,
        ) >= d
}

/// Some source with label `l` reaches `t` by a walk of cost `d`.
pub open spec fn reached_with_label(
    es: Seq<(usize, usize, Edge)>,
    srcs: Seq<(usize, usize)>,
    t: int,
    l: usize,
    d: int,
    with_access: bool,
) -> bool {
    exists|k: int, p: Seq<int>|
        0 <= k < srcs.len() && srcs[k].1 == l && #[trigger] is_walk(es, srcs[k].0 as int, t, p)
            && walk_cost(es, p, with_access) == d
}

/// Whether a cost stays within an optional limit.
pub open spec fn within(d: int, limit: Option<u128>) -> bool {
    match limit {
        None => true,
        Some(m) => d <= m,
    }
}

/// Extending a walk by an edge that touches its end.
pub proof fn lemma_walk_push(
    es: Seq<(usize, usize, Edge)>,
    s: int,
    v: int,
    p: Seq<int>,
    e: int,
    with_access: bool,
)
    requires
        is_walk(es, s, v, p),
        0 <= e < es.len(),
        touches(es[e], v),
    ensures
        is_walk(es, s, other_end(es[e], v), p.push(e)),
        walk_cost(es, p.push(e), with_access) == walk_cost(es, p, with_access) + edge_cost(
            es[e].2,
            with_access,
        ),
{
    assert(p.push(e).drop_last() =~= p);
}

/// The empty walk.
pub proof fn lemma_walk_empty(es: Seq<(usize, usize, Edge)>, s: int, with_access: bool)
    ensures
        is_walk(es, s, s, Seq::<int>::empty()),
        walk_cost(es, Seq::<int>::empty(), with_access) == 0,
{
}


/// A walk that starts with the edge `e` out of `t`.
pub proof fn lemma_walk_prepend(
    es: Seq<(usize, usize, Edge)>,
    t: int,
    e: int,
    x: int,
    y: int,
    q: Seq<int>,
    with_access: bool,
)
    requires
        0 <= e < es.len(),
        touches(es[e], t),
        other_end(es[e], t) == x,
        is_walk(es, x, y, q),
    ensures
        is_walk(es, t, y, seq![e] + q),
        walk_cost(es, seq![e] + q, with_access) == edge_cost(es[e].2, with_access) + walk_cost(es, q, with_access),
    decreases q.len(),
{
    let r = seq![e] + q;
    if q.len() == 0 {
        assert(r =~= seq![e]);
        assert(r.drop_last() =~= Seq::<int>::empty());
        assert(r.last() == e);
        assert(walk_end(es, t, r.drop_last()) == t);
        assert(walk_valid(es, t, r.drop_last()));
        assert(walk_cost(es, r.drop_last(), with_access) == 0);
        assert(walk_end(es, t, r) == x);
        assert(walk_valid(es, t, r));
    } else {
        let q1 = q.drop_last();
        let z = walk_end(es, x, q1);
        lemma_walk_prepend(es, t, e, x, z, q1, with_access);
        assert(r.drop_last() =~= seq![e] + q1);
        assert(r.last() == q.last());
        assert(walk_end(es, t, r) == other_end(es[q.last()], z));
        assert(walk_valid(es, t, r));
        assert(walk_cost(es, r, with_access) == walk_cost(es, seq![e] + q1, with_access) + edge_cost(es[q.last()].2, with_access));
    }
}

/// Law: a walk read backwards is a walk of the same cost between the same
/// two nodes, in the other direction: roads and access links can be taken
/// either way.
pub proof fn law_walk_reverse(es: Seq<(usize, usize, Edge)>, s: int, t: int, p: Seq<int>, with_access: bool)
    requires
        is_walk(es, s, t, p),
    ensures
        is_walk(es, t, s, p.reverse()),
        walk_cost(es, p.reverse(), with_access) == walk_cost(es, p, with_access),
    decreases p.len(),
{
    if p.len() == 0 {
        assert(p.reverse() =~= p);
    } else {
        let p1 = p.drop_last();
        let x = walk_end(es, s, p1);
        let e = p.last();
        law_walk_reverse(es, s, x, p1, with_access);
        lemma_walk_prepend(es, t, e, x, s, p1.reverse(), with_access);
        assert(p.reverse() =~= seq![e] + p1.reverse());
    }
}

} // verus!
