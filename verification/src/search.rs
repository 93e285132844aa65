//! Multi-source shortest-path search (Dijkstra's algorithm with a lazily
//! cleaned queue), with an optional cost limit.  Each node learns its least
//! cost from any source and the label of a source that reaches it at that cost.
use vstd::prelude::*;
use vstd::set_lib::{lemma_int_range, lemma_len_subset, set_int_range};

use crate::cost_queue::CostQueue;
use crate::petgraph_specs::{
    graph_edge_weight, graph_edges, graph_edges_at, graph_node_count, graph_nodes, other_end,
    touches, SpatialGraph,
};
use crate::walks::{
    edge_cost, edge_weight, is_distance_from, is_walk, lemma_walk_push, reached_with_label,
    walk_cost, walk_end, walk_valid, within,
};

verus! {

/// The largest cost of one edge.
pub open spec fn max_edge_cost() -> int {
    0xffff_ffff
}

/// The nodes marked settled.
spec fn settled_set(settled: Seq<bool>, n: int) -> Set<int> {
    Set::new(|v: int| 0 <= v < n && settled[v])
}

spec fn is_settled(settled: Seq<bool>, v: int) -> bool {
    0 <= v < settled.len() && settled[v]
}

spec fn cost_of(dist: Seq<Option<(usize, u128)>>, v: int) -> int {
    dist[v]->Some_0.1 as int
}

/// Every queue entry names a node whose known cost is at most the entry's cost.
#[verifier::opaque]
spec fn inv_queue(
    heap: Seq<(u128, usize)>,
    dist: Seq<Option<(usize, u128)>>,
    limit: Option<u128>,
    n: int,
) -> bool {
    forall|i: int|
        0 <= i < heap.len() ==> {
            &&& (#[trigger] heap[i]).1 < n
            &&& dist[heap[i].1 as int] is Some
            &&& cost_of(dist, heap[i].1 as int) <= heap[i].0
            &&& within(heap[i].0 as int, limit)
        }
}

/// Settled nodes carry their exact distance.
#[verifier::opaque]
spec fn inv_exact(
    es: Seq<(usize, usize, crate::model::Edge)>,
    srcs: Seq<(usize, usize)>,
    w: bool,
    dist: Seq<Option<(usize, u128)>>,
    settled: Seq<bool>,
    n: int,
) -> bool {
    forall|v: int|
        0 <= v < n && #[trigger] settled[v] ==> dist[v] is Some && is_distance_from(
            es,
            srcs,
            v,
            cost_of(dist, v),
            w,
        )
}

/// Every known cost is the cost of a walk from a source with the recorded label.
#[verifier::opaque]
spec fn inv_reached(
    es: Seq<(usize, usize, crate::model::Edge)>,
    srcs: Seq<(usize, usize)>,
    w: bool,
    limit: Option<u128>,
    dist: Seq<Option<(usize, u128)>>,
    n: int,
    count: nat,
) -> bool {
    forall|v: int|
        0 <= v < n && (#[trigger] dist[v]) is Some ==> {
            &&& within(cost_of(dist, v), limit)
            &&& reached_with_label(es, srcs, v, dist[v]->Some_0.0, cost_of(dist, v), w)
            &&& cost_of(dist, v) <= count * max_edge_cost()
        }
}

/// Edge `e` at node `u` has been relaxed.
spec fn relaxed(
    es: Seq<(usize, usize, crate::model::Edge)>,
    w: bool,
    limit: Option<u128>,
    dist: Seq<Option<(usize, u128)>>,
    n: int,
    u: int,
    e: int,
) -> bool {
    let t = other_end(es[e], u);
    &&& 0 <= t < n
    &&& {
        ||| (dist[t] is Some && cost_of(dist, t) <= cost_of(dist, u) + edge_cost(es[e].2, w))
        ||| !within(cost_of(dist, u) + edge_cost(es[e].2, w), limit)
    }
}

/// All edges at settled nodes, except possibly at `skip`, have been relaxed.
#[verifier::opaque]
spec fn inv_relaxed(
    es: Seq<(usize, usize, crate::model::Edge)>,
    w: bool,
    limit: Option<u128>,
    dist: Seq<Option<(usize, u128)>>,
    settled: Seq<bool>,
    n: int,
    skip: int,
) -> bool {
    forall|u: int, e: int|
        0 <= u < n && settled[u] && u != skip && 0 <= e < es.len() && #[trigger] touches(
            es[e],
            u,
        ) ==> relaxed(es, w, limit, dist, n, u, e)
}

/// Every reached node that is not settled has a queue entry at its known cost.
#[verifier::opaque]
spec fn inv_queued(
    heap: Seq<(u128, usize)>,
    dist: Seq<Option<(usize, u128)>>,
    settled: Seq<bool>,
    n: int,
) -> bool {
    forall|v: int|
        0 <= v < n && !settled[v] && (#[trigger] dist[v]) is Some ==> exists|i: int|
            0 <= i < heap.len() && heap[i] == (dist[v]->Some_0.1, v as usize)
}

/// Sources are reached at cost zero.
#[verifier::opaque]
spec fn inv_sources(srcs: Seq<(usize, usize)>, dist: Seq<Option<(usize, u128)>>, n: int) -> bool {
    forall|k: int|
        0 <= k < srcs.len() ==> (#[trigger] srcs[k]).0 < n && dist[srcs[k].0 as int] == Some((srcs[k].1, 0u128))
}

spec fn search_inv(
    es: Seq<(usize, usize, crate::model::Edge)>,
    srcs: Seq<(usize, usize)>,
    w: bool,
    limit: Option<u128>,
    n: int,
    dist: Seq<Option<(usize, u128)>>,
    settled: Seq<bool>,
    heap: Seq<(u128, usize)>,
    count: nat,
) -> bool {
    &&& dist.len() == n
    &&& settled.len() == n
    &&& inv_queue(heap, dist, limit, n)
    &&& inv_exact(es, srcs, w, dist, settled, n)
    &&& inv_reached(es, srcs, w, limit, dist, n, count)
    &&& inv_relaxed(es, w, limit, dist, settled, n, -1)
    &&& inv_queued(heap, dist, settled, n)
    &&& inv_sources(srcs, dist, n)
    &&& settled_set(settled, n).finite()
    &&& settled_set(settled, n).len() == count
    &&& count <= n
    &&& n <= usize::MAX
}

/// A walk from a source to a node that is not settled either costs more than
/// the limit or costs at least as much as some queue entry.
proof fn lemma_cut(
    es: Seq<(usize, usize, crate::model::Edge)>,
    srcs: Seq<(usize, usize)>,
    w: bool,
    limit: Option<u128>,
    n: int,
    dist: Seq<Option<(usize, u128)>>,
    settled: Seq<bool>,
    heap: Seq<(u128, usize)>,
    count: nat,
    k: int,
    p: Seq<int>,
)
    requires
        search_inv(es, srcs, w, limit, n, dist, settled, heap, count),
        0 <= k < srcs.len(),
        walk_valid(es, srcs[k].0 as int, p),
        !is_settled(settled, walk_end(es, srcs[k].0 as int, p)),
    ensures
        !within(walk_cost(es, p, w) as int, limit) || exists|i: int|
            0 <= i < heap.len() && heap[i].0 <= walk_cost(es, p, w),
    decreases p.len(),
{
    reveal(inv_exact);
    reveal(inv_relaxed);
    reveal(inv_queued);
    reveal(inv_sources);
    let s = srcs[k].0 as int;
    let t = walk_end(es, s, p);
    if p.len() == 0 {
        assert(srcs[k].0 < n);
        assert(dist[s] is Some);
        assert(!settled[s]);
        let i = choose|i: int| 0 <= i < heap.len() && heap[i] == (dist[s]->Some_0.1, s as usize);
        assert(heap[i].0 <= walk_cost(es, p, w));
    } else {
        let q = p.drop_last();
        let e = p.last();
        let u = walk_end(es, s, q);
        assert(walk_cost(es, p, w) == walk_cost(es, q, w) + edge_cost(es[e].2, w));
        if is_settled(settled, u) {
            assert(touches(es[e], u));
            assert(relaxed(es, w, limit, dist, n, u, e));
            assert(is_walk(es, s, u, q));
            assert(dist[u] is Some);
            assert(walk_cost(es, q, w) >= cost_of(dist, u));
            if dist[t] is Some && cost_of(dist, t) <= cost_of(dist, u) + edge_cost(es[e].2, w) {
                assert(!settled[t]);
                let i = choose|i: int|
                    0 <= i < heap.len() && heap[i] == (dist[t]->Some_0.1, t as usize);
                assert(heap[i].0 <= walk_cost(es, p, w));
            }
        } else {
            lemma_cut(es, srcs, w, limit, n, dist, settled, heap, count, k, q);
        }
    }
}

/// The link by which a search last reached `v`: along edge `e` from the
/// node `u`, at `u`'s cost plus the edge's and with `u`'s label.
pub open spec fn parent_link_ok(
    es: Seq<(usize, usize, crate::model::Edge)>,
    w: bool,
    dist: Seq<Option<(usize, u128)>>,
    parent: Seq<Option<(usize, usize)>>,
    v: int,
) -> bool {
    match parent[v] {
        Some((e, u)) => {
            &&& e < es.len()
            &&& touches(es[e as int], v)
            &&& u as int == other_end(es[e as int], v)
            &&& u < dist.len()
            &&& dist[u as int] is Some
            &&& dist[v] is Some
            &&& dist[v]->Some_0.1 == dist[u as int]->Some_0.1 + edge_cost(es[e as int].2, w)
            &&& dist[v]->Some_0.0 == dist[u as int]->Some_0.0
        },
        None => true,
    }
}

/// Following links never returns to a node: each link leads from a node of
/// lower rank.
pub open spec fn links_ranked(parent: Seq<Option<(usize, usize)>>, rank: Seq<int>) -> bool {
    &&& rank.len() == parent.len()
    &&& forall|v: int| 0 <= v < rank.len() ==> #[trigger] rank[v] >= 0
    &&& forall|v: int|
        0 <= v < parent.len() && (#[trigger] parent[v]) is Some ==> 0 <= parent[v]->Some_0.1 < parent.len()
            && rank[parent[v]->Some_0.1 as int] < rank[v]
}

/// Parent links lead from settled nodes, earlier settled than the nodes they
/// lead to; a reached node without a link is a source.
#[verifier::opaque]
spec fn inv_parents(
    es: Seq<(usize, usize, crate::model::Edge)>,
    srcs: Seq<(usize, usize)>,
    w: bool,
    dist: Seq<Option<(usize, u128)>>,
    settled: Seq<bool>,
    parent: Seq<Option<(usize, usize)>>,
    rank: Seq<int>,
    n: int,
    count: nat,
) -> bool {
    &&& parent.len() == n
    &&& rank.len() == n
    &&& forall|v: int| 0 <= v < n ==> #[trigger] parent_link_ok(es, w, dist, parent, v)
    &&& forall|v: int|
        0 <= v < n && (#[trigger] parent[v]) is Some ==> {
            let u = parent[v]->Some_0.1 as int;
            &&& settled[u]
            &&& (settled[v] ==> rank[u] < rank[v])
        }
    &&& forall|v: int| 0 <= v < n && #[trigger] settled[v] ==> 0 <= rank[v] < count
    &&& forall|v: int| 0 <= v < n ==> #[trigger] rank[v] >= 0
    &&& forall|v: int|
        0 <= v < n && (#[trigger] dist[v]) is Some && parent[v] is None ==> exists|k: int| 0 <= k < srcs.len() && srcs[k].0 == v
}

/// Settling a node ranks it after every node settled before it.
proof fn lemma_parents_settle(
    es: Seq<(usize, usize, crate::model::Edge)>,
    srcs: Seq<(usize, usize)>,
    w: bool,
    dist: Seq<Option<(usize, u128)>>,
    settled: Seq<bool>,
    parent: Seq<Option<(usize, usize)>>,
    rank: Seq<int>,
    n: int,
    count: nat,
    v: int,
)
    requires
        inv_parents(es, srcs, w, dist, settled, parent, rank, n, count),
        0 <= v < n,
        dist.len() == n,
        settled.len() == n,
        !settled[v],
    ensures
        inv_parents(es, srcs, w, dist, settled.update(v, true), parent, rank.update(v, count as int), n, count + 1),
{
    reveal(inv_parents);
    let settled2 = settled.update(v, true);
    let rank2 = rank.update(v, count as int);
    assert forall|x: int| 0 <= x < n && (#[trigger] parent[x]) is Some implies {
        let u = parent[x]->Some_0.1 as int;
        &&& settled2[u]
        &&& (settled2[x] ==> rank2[u] < rank2[x])
    } by {
        let u = parent[x]->Some_0.1 as int;
        assert(parent_link_ok(es, w, dist, parent, x));
        assert(settled[u]);
        assert(u != v);
    }
}

/// Lowering the cost of an unsettled node `t` by a link from the settled
/// node `v` keeps the parent links.
proof fn lemma_parents_update(
    es: Seq<(usize, usize, crate::model::Edge)>,
    srcs: Seq<(usize, usize)>,
    w: bool,
    dist: Seq<Option<(usize, u128)>>,
    settled: Seq<bool>,
    parent: Seq<Option<(usize, usize)>>,
    rank: Seq<int>,
    n: int,
    count: nat,
    v: usize,
    t: usize,
    e: usize,
    lab: usize,
    nc: u128,
)
    requires
        inv_parents(es, srcs, w, dist, settled, parent, rank, n, count),
        dist.len() == n,
        settled.len() == n,
        v < n,
        t < n,
        settled[v as int],
        !settled[t as int],
        dist[v as int] is Some,
        dist[v as int]->Some_0.0 == lab,
        e < es.len(),
        touches(es[e as int], v as int),
        t as int == other_end(es[e as int], v as int),
        nc == dist[v as int]->Some_0.1 + edge_cost(es[e as int].2, w),
    ensures
        inv_parents(
            es,
            srcs,
            w,
            dist.update(t as int, Some((lab, nc))),
            settled,
            parent.update(t as int, Some((e, v))),
            rank,
            n,
            count,
        ),
{
    reveal(inv_parents);
    let dist2 = dist.update(t as int, Some((lab, nc)));
    let parent2 = parent.update(t as int, Some((e, v)));
    assert(t != v);
    assert forall|x: int| 0 <= x < n implies #[trigger] parent_link_ok(es, w, dist2, parent2, x) by {
        if x == t {
            assert(other_end(es[e as int], t as int) == v);
        } else {
            assert(parent_link_ok(es, w, dist, parent, x));
            if parent[x] is Some {
                let u = parent[x]->Some_0.1 as int;
                assert(settled[u]);
                assert(u != t);
            }
        }
    }
    assert forall|x: int| 0 <= x < n && (#[trigger] parent2[x]) is Some implies {
        let u = parent2[x]->Some_0.1 as int;
        &&& settled[u]
        &&& (settled[x] ==> rank[u] < rank[x])
    } by {
        if x != t {
            assert(parent[x] is Some);
        }
    }
    assert forall|x: int|
        0 <= x < n && (#[trigger] dist2[x]) is Some && parent2[x] is None implies exists|k: int| 0 <= k < srcs.len() && srcs[k].0 == x by {
        assert(x != t);
        assert(dist[x] is Some);
    }
}

/// Two queues that hold the same entries satisfy the same queue invariants.
proof fn lemma_same_entries(
    h1: Seq<(u128, usize)>,
    h2: Seq<(u128, usize)>,
    dist: Seq<Option<(usize, u128)>>,
    settled: Seq<bool>,
    limit: Option<u128>,
    n: int,
)
    requires
        h1.to_multiset() == h2.to_multiset(),
        inv_queue(h1, dist, limit, n),
        inv_queued(h1, dist, settled, n),
    ensures
        inv_queue(h2, dist, limit, n),
        inv_queued(h2, dist, settled, n),
{
    reveal(inv_queue);
    reveal(inv_queued);
    assert forall|i: int| 0 <= i < h2.len() implies {
        &&& (#[trigger] h2[i]).1 < n
        &&& dist[h2[i].1 as int] is Some
        &&& cost_of(dist, h2[i].1 as int) <= h2[i].0
        &&& within(h2[i].0 as int, limit)
    } by {
        vstd::seq_lib::to_multiset_contains(h2, h2[i]);
        vstd::seq_lib::to_multiset_contains(h1, h2[i]);
        assert(h2.contains(h2[i]));
        let j = choose|j: int| 0 <= j < h1.len() && h1[j] == h2[i];
    }
    assert forall|v: int|
        0 <= v < n && !settled[v] && (#[trigger] dist[v]) is Some implies exists|i: int|
            0 <= i < h2.len() && h2[i] == (dist[v]->Some_0.1, v as usize) by {
        let entry = (dist[v]->Some_0.1, v as usize);
        let i = choose|i: int| 0 <= i < h1.len() && h1[i] == entry;
        vstd::seq_lib::to_multiset_contains(h1, entry);
        vstd::seq_lib::to_multiset_contains(h2, entry);
        assert(h1.contains(entry));
        let j = choose|j: int| 0 <= j < h2.len() && h2[j] == entry;
    }
}

/// The least cost of reaching each node from any of `sources` (pairs of node
/// and label), together with the label of a source that reaches it at that
/// cost.  With a limit, nodes are only reached by walks that cost no more than
/// the limit; a node that no such walk reaches gets `None`.
pub fn nearest_sources(
    g: &SpatialGraph,
    sources: &Vec<(usize, usize)>,
    with_access: bool,
    limit: Option<u128>,
) -> (dist: Vec<Option<(usize, u128)>>)
    requires
        forall|k: int| 0 <= k < sources@.len() ==> (#[trigger] sources@[k]).0 < graph_nodes(*g).len(),
        forall|k: int, l: int|
            0 <= k < l < sources@.len() ==> (#[trigger] sources@[k]).0 != (#[trigger] sources@[l]).0,
    ensures
        dist@.len() == graph_nodes(*g).len(),
        forall|t: int|
            0 <= t < dist@.len() ==> match #[trigger] dist@[t] {
                Some((l, d)) => {
                    &&& within(d as int, limit)
                    &&& is_distance_from(graph_edges(*g), sources@, t, d as int, with_access)
                    &&& reached_with_label(graph_edges(*g), sources@, t, l, d as int, with_access)
                    &&& d <= graph_nodes(*g).len() * max_edge_cost()
                },
                None => forall|k: int, p: Seq<int>|
                    0 <= k < sources@.len() && #[trigger] is_walk(
                        graph_edges(*g),
                        sources@[k].0 as int,
                        t,
                        p,
                    ) ==> !within(walk_cost(graph_edges(*g), p, with_access) as int, limit),
            },
        forall|k: int| 0 <= k < sources@.len() ==> dist@[(#[trigger] sources@[k]).0 as int] == Some((sources@[k].1, 0u128)),
{
    let (dist, _links) = search_with_links(g, sources, with_access, limit);
    dist
}

/// The least cost of reaching each node from any of `sources` (pairs of node
/// and label), together with the label of a source that reaches it at that
/// cost, and the link by which each reached node that is not a source was
/// reached: the edge and the node before it on a cheapest walk.  With a
/// limit, nodes are only reached by walks that cost no more than the limit; a
/// node that no such walk reaches gets `None`.
#[verifier::spinoff_prover]
pub fn search_with_links(
    g: &SpatialGraph,
    sources: &Vec<(usize, usize)>,
    with_access: bool,
    limit: Option<u128>,
) -> (res: (Vec<Option<(usize, u128)>>, Vec<Option<(usize, usize)>>))
    requires
        forall|k: int| 0 <= k < sources@.len() ==> (#[trigger] sources@[k]).0 < graph_nodes(*g).len(),
        forall|k: int, l: int|
            0 <= k < l < sources@.len() ==> (#[trigger] sources@[k]).0 != (#[trigger] sources@[l]).0,
    ensures
        res.0@.len() == graph_nodes(*g).len(),
        forall|t: int|
            0 <= t < res.0@.len() ==> match #[trigger] res.0@[t] {
                Some((l, d)) => {
                    &&& within(d as int, limit)
                    &&& is_distance_from(graph_edges(*g), sources@, t, d as int, with_access)
                    &&& reached_with_label(graph_edges(*g), sources@, t, l, d as int, with_access)
                    &&& d <= graph_nodes(*g).len() * max_edge_cost()
                },
                None => forall|k: int, p: Seq<int>|
                    0 <= k < sources@.len() && #[trigger] is_walk(
                        graph_edges(*g),
                        sources@[k].0 as int,
                        t,
                        p,
                    ) ==> !within(walk_cost(graph_edges(*g), p, with_access) as int, limit),
            },
        forall|k: int| 0 <= k < sources@.len() ==> res.0@[(#[trigger] sources@[k]).0 as int] == Some((sources@[k].1, 0u128)),
        res.1@.len() == graph_nodes(*g).len(),
        forall|v: int| 0 <= v < res.1@.len() ==> #[trigger] parent_link_ok(graph_edges(*g), with_access, res.0@, res.1@, v),
        forall|v: int|
            0 <= v < res.1@.len() && (#[trigger] res.0@[v]) is Some && res.1@[v] is None ==> exists|k: int|
                0 <= k < sources@.len() && sources@[k].0 == v,
        exists|rank: Seq<int>| #[trigger] links_ranked(res.1@, rank),
{
    let ghost es = graph_edges(*g);
    let ghost srcs = sources@;
    let ghost w = with_access;
    let n = graph_node_count(g);
    let mut dist: Vec<Option<(usize, u128)>> = Vec::new();
    let mut settled: Vec<bool> = Vec::new();
    let mut parent: Vec<Option<(usize, usize)>> = Vec::new();
    let mut i: usize = 0;
    while i < n
        invariant
            i <= n,
            dist@.len() == i,
            settled@.len() == i,
            parent@.len() == i,
            forall|v: int| 0 <= v < i ==> (#[trigger] dist@[v]) is None,
            forall|v: int| 0 <= v < i ==> !(#[trigger] settled@[v]),
            forall|v: int| 0 <= v < i ==> (#[trigger] parent@[v]) is None,
        decreases n - i,
    {
        dist.push(None);
        settled.push(false);
        parent.push(None);
        i = i + 1;
    }
    let ghost mut rank: Seq<int> = Seq::new(n as nat, |v: int| 0);
    let mut initial: Vec<(u128, usize)> = Vec::new();
    let mut k: usize = 0;
    while k < sources.len()
        invariant
            k <= sources@.len(),
            srcs == sources@,
            n == graph_nodes(*g).len(),
            dist@.len() == n,
            settled@.len() == n,
            forall|j: int| 0 <= j < sources@.len() ==> (#[trigger] sources@[j]).0 < n,
            forall|a: int, b: int|
                0 <= a < b < sources@.len() ==> (#[trigger] sources@[a]).0 != (#[trigger] sources@[b]).0,
            forall|v: int| 0 <= v < n ==> !(#[trigger] settled@[v]),
            forall|v: int|
                0 <= v < n && (#[trigger] dist@[v]) is Some ==> exists|j: int|
                    0 <= j < k && sources@[j].0 == v && dist@[v] == Some((sources@[j].1, 0u128)),
            forall|j: int|
                0 <= j < k ==> dist@[(#[trigger] sources@[j]).0 as int] == Some(
                    (sources@[j].1, 0u128),
                ),
            initial@.len() == k,
            forall|j: int| 0 <= j < k ==> #[trigger] initial@[j] == (0u128, sources@[j].0),
            parent@.len() == n,
            forall|v: int| 0 <= v < n ==> (#[trigger] parent@[v]) is None,
        decreases sources@.len() - k,
    {
        let (s, l) = sources[k];
        dist.set(s, Some((l, 0u128)));
        initial.push((0u128, s));
        k = k + 1;
    }
    let ghost mut count: nat = 0;
    proof {
        reveal(inv_queue);
        reveal(inv_exact);
        reveal(inv_reached);
        reveal(inv_relaxed);
        reveal(inv_queued);
        reveal(inv_sources);
        lemma_int_range(0, n as int);
        assert(settled_set(settled@, n as int) =~= Set::<int>::empty());
        assert forall|v: int| 0 <= v < n && (#[trigger] dist@[v]) is Some implies reached_with_label(
            es,
            srcs,
            v,
            dist@[v]->Some_0.0,
            cost_of(dist@, v),
            w,
        ) by {
            let j = choose|j: int|
                0 <= j < sources@.len() && sources@[j].0 == v && dist@[v] == Some(
                    (sources@[j].1, 0u128),
                );
            crate::walks::lemma_walk_empty(es, v, w);
            assert(is_walk(es, srcs[j].0 as int, v, Seq::<int>::empty()));
        }
        assert forall|v: int|
            0 <= v < n && !settled@[v] && (#[trigger] dist@[v]) is Some implies exists|i: int|
                0 <= i < initial@.len() && initial@[i] == (dist@[v]->Some_0.1, v as usize) by {
            let j = choose|j: int|
                0 <= j < sources@.len() && sources@[j].0 == v && dist@[v] == Some(
                    (sources@[j].1, 0u128),
                );
            assert(initial@[j] == (0u128, sources@[j].0));
        }
        assert(inv_queue(initial@, dist@, limit, n as int)) by {
            assert forall|i: int| 0 <= i < initial@.len() implies {
                &&& (#[trigger] initial@[i]).1 < n
                &&& dist@[initial@[i].1 as int] is Some
                &&& cost_of(dist@, initial@[i].1 as int) <= initial@[i].0
                &&& within(initial@[i].0 as int, limit)
            } by {
                assert(initial@[i] == (0u128, sources@[i].0));
            }
        }
    }
    let mut heap = CostQueue::new();
    let mut q: usize = 0;
    proof {
        assert(initial@.take(0) =~= Seq::<(u128, usize)>::empty());
    }
    while q < initial.len()
        invariant
            q <= initial@.len(),
            heap.wf(),
            heap@.to_multiset() == initial@.take(q as int).to_multiset(),
        decreases initial@.len() - q,
    {
        let ghost before = heap@;
        heap.push(initial[q]);
        proof {
            assert(initial@.take(q + 1) =~= initial@.take(q as int).push(initial@[q as int]));
            vstd::seq_lib::to_multiset_build(before, initial@[q as int]);
            vstd::seq_lib::to_multiset_build(initial@.take(q as int), initial@[q as int]);
        }
        q = q + 1;
    }
    proof {
        assert(initial@.take(initial@.len() as int) =~= initial@);
        lemma_same_entries(initial@, heap@, dist@, settled@, limit, n as int);
        reveal(inv_parents);
        assert forall|v: int| 0 <= v < n implies #[trigger] parent_link_ok(es, w, dist@, parent@, v) by {
            assert(parent@[v] is None);
        }
        assert forall|v: int|
            0 <= v < n && (#[trigger] dist@[v]) is Some && parent@[v] is None implies exists|k: int| 0 <= k < srcs.len() && srcs[k].0 == v by {
            let j = choose|j: int| 0 <= j < sources@.len() && sources@[j].0 == v && dist@[v] == Some((sources@[j].1, 0u128));
        }
        assert(inv_parents(es, srcs, w, dist@, settled@, parent@, rank, n as int, count));
    }
    while heap.len() > 0
        invariant
            heap.wf(),
            search_inv(es, srcs, w, limit, n as int, dist@, settled@, heap@, count),
            inv_parents(es, srcs, w, dist@, settled@, parent@, rank, n as int, count),
            parent@.len() == n,
            n == graph_nodes(*g).len(),
            es == graph_edges(*g),
            srcs == sources@,
            w == with_access,
        decreases n - count, heap@.len(),
    {
        let ghost old_heap = heap@;
        let (c, v) = heap.pop_min();
        let ghost idx: int = 0;
        proof {
            reveal(inv_queue);
            assert(old_heap[idx] == (c, v));
            assert(v < n);
        }
        if settled[v] {
            proof {
                lemma_queue_after_remove(es, srcs, w, limit, n as int, dist@, settled@, old_heap, idx, count);
                lemma_same_entries(old_heap.remove(idx), heap@, dist@, settled@, limit, n as int);
            }
        } else {
            let (lab, dv) = match dist[v] {
                Some(x) => x,
                None => {
                    proof {
                        reveal(inv_queue);
                        assert(false);
                    }
                    (0, 0)
                },
            };
            if c > dv {
                proof {
                    lemma_queue_after_remove(es, srcs, w, limit, n as int, dist@, settled@, old_heap, idx, count);
                    lemma_same_entries(old_heap.remove(idx), heap@, dist@, settled@, limit, n as int);
                }
            } else {
                proof {
                    assert(c == dv);
                    lemma_settle_exact(es, srcs, w, limit, n as int, dist@, settled@, old_heap, count, v as int, idx);
                }
                let ghost pre_settled = settled@;
                settled.set(v, true);
                proof {
                    lemma_parents_settle(es, srcs, w, dist@, pre_settled, parent@, rank, n as int, count, v as int);
                    rank = rank.update(v as int, count as int);
                    assert(settled_set(settled@, n as int) =~= settled_set(pre_settled, n as int).insert(v as int));
                    assert(!settled_set(pre_settled, n as int).contains(v as int));
                    count = count + 1;
                    assert(settled_set(settled@, n as int).subset_of(set_int_range(0, n as int)));
                    lemma_int_range(0, n as int);
                    lemma_len_subset(settled_set(settled@, n as int), set_int_range(0, n as int));
                    lemma_after_settle(es, srcs, w, limit, n as int, dist@, pre_settled, settled@, old_heap, old_heap.remove(idx), (count - 1) as nat, v as int, idx);
                    lemma_same_entries(old_heap.remove(idx), heap@, dist@, settled@, limit, n as int);
                }
                let nbrs = graph_edges_at(g, v);
                let mut j: usize = 0;
                while j < nbrs.len()
                    invariant
                        j <= nbrs@.len(),
                        n == graph_nodes(*g).len(),
                        es == graph_edges(*g),
                        srcs == sources@,
                        w == with_access,
                        v < n,
                        settled@[v as int],
                        dist@.len() == n,
                        settled@.len() == n,
                        dist@[v as int] == Some((lab, dv)),
                        dv <= (count - 1) * max_edge_cost(),
                        1 <= count <= n,
                        reached_with_label(es, srcs, v as int, lab, dv as int, w),
                        heap.wf(),
                        parent@.len() == n,
                        inv_parents(es, srcs, w, dist@, settled@, parent@, rank, n as int, count),
                        inv_queue(heap@, dist@, limit, n as int),
                        inv_exact(es, srcs, w, dist@, settled@, n as int),
                        inv_reached(es, srcs, w, limit, dist@, n as int, count),
                        inv_relaxed(es, w, limit, dist@, settled@, n as int, v as int),
                        inv_queued(heap@, dist@, settled@, n as int),
                        inv_sources(srcs, dist@, n as int),
                        settled_set(settled@, n as int).finite(),
                        settled_set(settled@, n as int).len() == count,
                        forall|jj: int| 0 <= jj < j ==> relaxed(es, w, limit, dist@, n as int, v as int, (#[trigger] nbrs@[jj]).0 as int),
                        forall|jj: int|
                            0 <= jj < nbrs@.len() ==> {
                                &&& (#[trigger] nbrs@[jj]).0 < es.len()
                                &&& touches(es[nbrs@[jj].0 as int], v as int)
                                &&& nbrs@[jj].1 as int == other_end(es[nbrs@[jj].0 as int], v as int)
                                &&& nbrs@[jj].1 < n
                            },
                    decreases nbrs@.len() - j,
                {
                    let (e, t) = nbrs[j];
                    let ew = match graph_edge_weight(g, e) {
                        Some(x) => edge_weight(x, with_access),
                        None => {
                            proof {
                                assert(false);
                            }
                            0
                        },
                    };
                    proof {
                        assert(ew == edge_cost(es[e as int].2, w));
                        assert(dv + ew <= count * max_edge_cost()) by (nonlinear_arith)
                            requires
                                dv <= (count - 1) * max_edge_cost(),
                                ew <= max_edge_cost(),
                                count >= 1;
                        assert(count * max_edge_cost() <= 0xffff_ffff_ffff_ffff * 0xffff_ffff_ffff_ffff) by (nonlinear_arith)
                            requires
                                count <= n,
                                n <= 0xffff_ffff_ffff_ffff;
                    }
                    let nc: u128 = dv + ew as u128;
                    let ok = match limit {
                        None => true,
                        Some(m) => nc <= m,
                    };
                    let better = if !ok {
                        false
                    } else {
                        match dist[t] {
                            None => true,
                            Some((_, dt)) => nc < dt,
                        }
                    };
                    if better {
                        let ghost before_dist = dist@;
                        let ghost before_heap = heap@;
                        proof {
                            lemma_walk_extends(es, srcs, w, v as int, lab, dv as int, e as int);
                        }
                        let ghost before_parent = parent@;
                        dist.set(t, Some((lab, nc)));
                        parent.set(t, Some((e, v)));
                        heap.push((nc, t));
                        proof {
                            lemma_after_update(es, srcs, w, limit, n as int, before_dist, dist@, settled@, before_heap, before_heap.push((nc, t)), count, v as int, lab, dv, t as int, nc, e as int);
                            lemma_same_entries(before_heap.push((nc, t)), heap@, dist@, settled@, limit, n as int);
                            lemma_parents_update(es, srcs, w, before_dist, settled@, before_parent, rank, n as int, count, v, t, e, lab, nc);
                            assert forall|jj: int| 0 <= jj <= j implies relaxed(es, w, limit, dist@, n as int, v as int, (#[trigger] nbrs@[jj]).0 as int) by {
                                if jj < j {
                                    lemma_relaxed_keeps(es, w, limit, n as int, before_dist, dist@, v as int, nbrs@[jj].0 as int, t as int, nc);
                                }
                            }
                        }
                    } else {
                        proof {
                            assert(relaxed(es, w, limit, dist@, n as int, v as int, e as int));
                        }
                    }
                    j = j + 1;
                }
                proof {
                    reveal(inv_relaxed);
                    assert forall|u: int, e: int|
                        0 <= u < n && settled@[u] && u != -1 && 0 <= e < es.len() && #[trigger] touches(es[e], u)
                        implies relaxed(es, w, limit, dist@, n as int, u, e) by {
                        if u == v {
                            let jj = choose|jj: int| 0 <= jj < nbrs@.len() && nbrs@[jj].0 == e;
                            assert(relaxed(es, w, limit, dist@, n as int, v as int, nbrs@[jj].0 as int));
                        }
                    }
                }
            }
        }
    }
    proof {
        reveal(inv_exact);
        reveal(inv_reached);
        reveal(inv_queued);
        reveal(inv_sources);
        assert forall|t: int| 0 <= t < dist@.len() implies match #[trigger] dist@[t] {
            Some((l, d)) => {
                &&& within(d as int, limit)
                &&& is_distance_from(es, srcs, t, d as int, w)
                &&& reached_with_label(es, srcs, t, l, d as int, w)
                &&& d <= n * max_edge_cost()
            },
            None => forall|k: int, p: Seq<int>|
                0 <= k < srcs.len() && #[trigger] is_walk(es, srcs[k].0 as int, t, p)
                    ==> !within(walk_cost(es, p, w) as int, limit),
        } by {
            if dist@[t] is Some {
                assert(count * max_edge_cost() <= n * max_edge_cost()) by (nonlinear_arith)
                    requires
                        count <= n;
                if !settled@[t] {
                    let i = choose|i: int| 0 <= i < heap@.len() && heap@[i] == (dist@[t]->Some_0.1, t as usize);
                }
            } else {
                assert forall|k: int, p: Seq<int>|
                    0 <= k < srcs.len() && #[trigger] is_walk(es, srcs[k].0 as int, t, p)
                    implies !within(walk_cost(es, p, w) as int, limit) by {
                    assert(!settled@[t]) by {
                        if settled@[t] {
                            assert(dist@[t] is Some);
                        }
                    }
                    lemma_cut(es, srcs, w, limit, n as int, dist@, settled@, heap@, count, k, p);
                }
            }
        }
        reveal(inv_parents);
        assert forall|v: int| 0 <= v < parent@.len() && (#[trigger] parent@[v]) is Some implies 0 <= parent@[v]->Some_0.1 < parent@.len()
            && rank[parent@[v]->Some_0.1 as int] < rank[v] by {
            assert(parent_link_ok(es, w, dist@, parent@, v));
            assert(dist@[v] is Some);
            if !settled@[v] {
                let i = choose|i: int| 0 <= i < heap@.len() && heap@[i] == (dist@[v]->Some_0.1, v as usize);
            }
        }
    }
    proof {
        assert(links_ranked(parent@, rank));
    }
    (dist, parent)
}

/// Removing a queue entry whose node is settled, or whose cost is above the
/// node's known cost, keeps the invariant.
proof fn lemma_queue_after_remove(
    es: Seq<(usize, usize, crate::model::Edge)>,
    srcs: Seq<(usize, usize)>,
    w: bool,
    limit: Option<u128>,
    n: int,
    dist: Seq<Option<(usize, u128)>>,
    settled: Seq<bool>,
    heap: Seq<(u128, usize)>,
    idx: int,
    count: nat,
)
    requires
        search_inv(es, srcs, w, limit, n, dist, settled, heap, count),
        0 <= idx < heap.len(),
        settled[heap[idx].1 as int] || heap[idx].0 > cost_of(dist, heap[idx].1 as int),
    ensures
        search_inv(es, srcs, w, limit, n, dist, settled, heap.remove(idx), count),
{
    reveal(inv_queue);
    reveal(inv_queued);
    let h2 = heap.remove(idx);
    assert forall|v: int|
        0 <= v < n && !settled[v] && (#[trigger] dist[v]) is Some implies exists|i: int|
            0 <= i < h2.len() && h2[i] == (dist[v]->Some_0.1, v as usize) by {
        let i = choose|i: int| 0 <= i < heap.len() && heap[i] == (dist[v]->Some_0.1, v as usize);
        assert(i != idx);
        if i < idx {
            assert(h2[i] == heap[i]);
        } else {
            assert(h2[i - 1] == heap[i]);
        }
    }
    assert forall|i: int| 0 <= i < h2.len() implies {
        &&& (#[trigger] h2[i]).1 < n
        &&& dist[h2[i].1 as int] is Some
        &&& cost_of(dist, h2[i].1 as int) <= h2[i].0
        &&& within(h2[i].0 as int, limit)
    } by {
        if i < idx {
            assert(h2[i] == heap[i]);
        } else {
            assert(h2[i] == heap[i + 1]);
        }
    }
}

/// The cheapest queue entry, when current, carries the exact distance of its node.
proof fn lemma_settle_exact(
    es: Seq<(usize, usize, crate::model::Edge)>,
    srcs: Seq<(usize, usize)>,
    w: bool,
    limit: Option<u128>,
    n: int,
    dist: Seq<Option<(usize, u128)>>,
    settled: Seq<bool>,
    heap: Seq<(u128, usize)>,
    count: nat,
    v: int,
    idx: int,
)
    requires
        search_inv(es, srcs, w, limit, n, dist, settled, heap, count),
        0 <= idx < heap.len(),
        heap[idx].1 == v,
        !settled[v],
        heap[idx].0 == cost_of(dist, v),
        forall|i: int| 0 <= i < heap.len() ==> heap[idx].0 <= #[trigger] heap[i].0,
    ensures
        is_distance_from(es, srcs, v, cost_of(dist, v), w),
{
    reveal(inv_reached);
    reveal(inv_queue);
    let d = cost_of(dist, v);
    assert(dist[v] is Some);
    assert(within(d, limit));
    assert forall|k: int, p: Seq<int>|
        0 <= k < srcs.len() && #[trigger] is_walk(es, srcs[k].0 as int, v, p) implies walk_cost(
        es,
        p,
        w,
    ) >= d by {
        lemma_cut(es, srcs, w, limit, n, dist, settled, heap, count, k, p);
        if within(walk_cost(es, p, w) as int, limit) {
            let i = choose|i: int| 0 <= i < heap.len() && heap[i].0 <= walk_cost(es, p, w);
            assert(heap[idx].0 <= heap[i].0);
        }
    }
}

/// Marking the node of the removed cheapest entry settled keeps every part of the
/// invariant but the relaxation of its own edges.
proof fn lemma_after_settle(
    es: Seq<(usize, usize, crate::model::Edge)>,
    srcs: Seq<(usize, usize)>,
    w: bool,
    limit: Option<u128>,
    n: int,
    dist: Seq<Option<(usize, u128)>>,
    settled: Seq<bool>,
    settled2: Seq<bool>,
    heap: Seq<(u128, usize)>,
    heap2: Seq<(u128, usize)>,
    count: nat,
    v: int,
    idx: int,
)
    requires
        search_inv(es, srcs, w, limit, n, dist, settled, heap, count),
        0 <= idx < heap.len(),
        heap[idx].1 == v,
        !settled[v],
        heap[idx].0 == cost_of(dist, v),
        is_distance_from(es, srcs, v, cost_of(dist, v), w),
        settled2 == settled.update(v, true),
        heap2 == heap.remove(idx),
    ensures
        inv_queue(heap2, dist, limit, n),
        inv_exact(es, srcs, w, dist, settled2, n),
        inv_reached(es, srcs, w, limit, dist, n, count + 1),
        inv_relaxed(es, w, limit, dist, settled2, n, v),
        inv_queued(heap2, dist, settled2, n),
        cost_of(dist, v) <= count * max_edge_cost(),
        reached_with_label(es, srcs, v, dist[v]->Some_0.0, cost_of(dist, v), w),
{
    reveal(inv_queue);
    reveal(inv_exact);
    reveal(inv_reached);
    reveal(inv_relaxed);
    reveal(inv_queued);
    assert(dist[v] is Some);
    assert forall|i: int| 0 <= i < heap2.len() implies {
        &&& (#[trigger] heap2[i]).1 < n
        &&& dist[heap2[i].1 as int] is Some
        &&& cost_of(dist, heap2[i].1 as int) <= heap2[i].0
        &&& within(heap2[i].0 as int, limit)
    } by {
        if i < idx {
            assert(heap2[i] == heap[i]);
        } else {
            assert(heap2[i] == heap[i + 1]);
        }
    }
    assert forall|u: int| 0 <= u < n && #[trigger] settled2[u] implies dist[u] is Some
        && is_distance_from(es, srcs, u, cost_of(dist, u), w) by {
        if u != v {
            assert(settled[u]);
        }
    }
    assert forall|u: int| 0 <= u < n && (#[trigger] dist[u]) is Some implies {
        &&& within(cost_of(dist, u), limit)
        &&& reached_with_label(es, srcs, u, dist[u]->Some_0.0, cost_of(dist, u), w)
        &&& cost_of(dist, u) <= (count + 1) * max_edge_cost()
    } by {
        assert(cost_of(dist, u) <= count * max_edge_cost());
    }
    assert forall|u: int, e: int|
        0 <= u < n && settled2[u] && u != v && 0 <= e < es.len() && #[trigger] touches(es[e], u)
        implies relaxed(es, w, limit, dist, n, u, e) by {
        assert(settled[u]);
    }
    assert forall|x: int|
        0 <= x < n && !settled2[x] && (#[trigger] dist[x]) is Some implies exists|i: int|
            0 <= i < heap2.len() && heap2[i] == (dist[x]->Some_0.1, x as usize) by {
        assert(x != v);
        let i = choose|i: int| 0 <= i < heap.len() && heap[i] == (dist[x]->Some_0.1, x as usize);
        assert(i != idx);
        if i < idx {
            assert(heap2[i] == heap[i]);
        } else {
            assert(heap2[i - 1] == heap[i]);
        }
    }
}

/// A source with label `lab` reaching `v` at cost `dv` reaches the other end of
/// an edge at `v` at cost `dv` plus the edge's cost.
proof fn lemma_walk_extends(
    es: Seq<(usize, usize, crate::model::Edge)>,
    srcs: Seq<(usize, usize)>,
    w: bool,
    v: int,
    lab: usize,
    dv: int,
    e: int,
)
    requires
        reached_with_label(es, srcs, v, lab, dv, w),
        0 <= e < es.len(),
        touches(es[e], v),
    ensures
        reached_with_label(es, srcs, other_end(es[e], v), lab, dv + edge_cost(es[e].2, w), w),
{
    let (k, p) = choose|k: int, p: Seq<int>|
        0 <= k < srcs.len() && srcs[k].1 == lab && #[trigger] is_walk(es, srcs[k].0 as int, v, p)
            && walk_cost(es, p, w) == dv;
    lemma_walk_push(es, srcs[k].0 as int, v, p, e, w);
    assert(is_walk(es, srcs[k].0 as int, other_end(es[e], v), p.push(e)));
}

/// Lowering the known cost of node `t` keeps an edge relaxed.
proof fn lemma_relaxed_keeps(
    es: Seq<(usize, usize, crate::model::Edge)>,
    w: bool,
    limit: Option<u128>,
    n: int,
    dist: Seq<Option<(usize, u128)>>,
    dist2: Seq<Option<(usize, u128)>>,
    u: int,
    e: int,
    t: int,
    nc: u128,
)
    requires
        relaxed(es, w, limit, dist, n, u, e),
        0 <= u < n,
        0 <= t < n,
        t != u,
        dist.len() == n,
        dist2 == dist.update(t, Some((dist2[t]->Some_0.0, nc))),
        dist[t] is Some ==> nc < cost_of(dist, t),
    ensures
        relaxed(es, w, limit, dist2, n, u, e),
{
    assert(dist2[u] == dist[u]);
}

/// The situation of lowering the known cost of node `t` to the cost of a walk
/// through the newly settled node `v`.
spec fn update_step(
    es: Seq<(usize, usize, crate::model::Edge)>,
    srcs: Seq<(usize, usize)>,
    w: bool,
    limit: Option<u128>,
    n: int,
    dist: Seq<Option<(usize, u128)>>,
    dist2: Seq<Option<(usize, u128)>>,
    settled: Seq<bool>,
    heap: Seq<(u128, usize)>,
    heap2: Seq<(u128, usize)>,
    count: nat,
    v: int,
    lab: usize,
    dv: u128,
    t: int,
    nc: u128,
    e: int,
) -> bool {
    &&& dist.len() == n
    &&& settled.len() == n
    &&& n <= usize::MAX
    &&& 0 <= v < n
    &&& settled[v]
    &&& dist[v] == Some((lab, dv))
    &&& 0 <= e < es.len()
    &&& touches(es[e], v)
    &&& t == other_end(es[e], v)
    &&& 0 <= t < n
    &&& nc == dv + edge_cost(es[e].2, w)
    &&& nc <= count * max_edge_cost()
    &&& within(nc as int, limit)
    &&& (dist[t] is Some ==> nc < cost_of(dist, t))
    &&& reached_with_label(es, srcs, t, lab, nc as int, w)
    &&& inv_queue(heap, dist, limit, n)
    &&& inv_exact(es, srcs, w, dist, settled, n)
    &&& inv_reached(es, srcs, w, limit, dist, n, count)
    &&& inv_relaxed(es, w, limit, dist, settled, n, v)
    &&& inv_queued(heap, dist, settled, n)
    &&& inv_sources(srcs, dist, n)
    &&& dist2 == dist.update(t, Some((lab, nc)))
    &&& heap2 == heap.push((nc, t as usize))
}

proof fn lemma_update_target_open(
    es: Seq<(usize, usize, crate::model::Edge)>,
    srcs: Seq<(usize, usize)>,
    w: bool,
    limit: Option<u128>,
    n: int,
    dist: Seq<Option<(usize, u128)>>,
    dist2: Seq<Option<(usize, u128)>>,
    settled: Seq<bool>,
    heap: Seq<(u128, usize)>,
    heap2: Seq<(u128, usize)>,
    count: nat,
    v: int,
    lab: usize,
    dv: u128,
    t: int,
    nc: u128,
    e: int,
)
    requires
        update_step(es, srcs, w, limit, n, dist, dist2, settled, heap, heap2, count, v, lab, dv, t, nc, e),
    ensures
        !settled[t],
        t != v,
        dist2[v] == dist[v],
{
    reveal(inv_exact);
    if settled[t] {
        // a settled node already has its exact distance, which no walk undercuts
        let (k, p) = choose|k: int, p: Seq<int>|
            0 <= k < srcs.len() && srcs[k].1 == lab && #[trigger] is_walk(es, srcs[k].0 as int, t, p)
                && walk_cost(es, p, w) == nc;
        assert(is_distance_from(es, srcs, t, cost_of(dist, t), w));
        assert(walk_cost(es, p, w) >= cost_of(dist, t));
        assert(false);
    }
}

proof fn lemma_update_queue(
    es: Seq<(usize, usize, crate::model::Edge)>,
    srcs: Seq<(usize, usize)>,
    w: bool,
    limit: Option<u128>,
    n: int,
    dist: Seq<Option<(usize, u128)>>,
    dist2: Seq<Option<(usize, u128)>>,
    settled: Seq<bool>,
    heap: Seq<(u128, usize)>,
    heap2: Seq<(u128, usize)>,
    count: nat,
    v: int,
    lab: usize,
    dv: u128,
    t: int,
    nc: u128,
    e: int,
)
    requires
        update_step(es, srcs, w, limit, n, dist, dist2, settled, heap, heap2, count, v, lab, dv, t, nc, e),
    ensures
        inv_queue(heap2, dist2, limit, n),
{
    reveal(inv_queue);
    assert forall|i: int| 0 <= i < heap2.len() implies {
        &&& (#[trigger] heap2[i]).1 < n
        &&& dist2[heap2[i].1 as int] is Some
        &&& cost_of(dist2, heap2[i].1 as int) <= heap2[i].0
        &&& within(heap2[i].0 as int, limit)
    } by {
        if i < heap.len() {
            assert(heap2[i] == heap[i]);
        }
    }
}

proof fn lemma_update_exact(
    es: Seq<(usize, usize, crate::model::Edge)>,
    srcs: Seq<(usize, usize)>,
    w: bool,
    limit: Option<u128>,
    n: int,
    dist: Seq<Option<(usize, u128)>>,
    dist2: Seq<Option<(usize, u128)>>,
    settled: Seq<bool>,
    heap: Seq<(u128, usize)>,
    heap2: Seq<(u128, usize)>,
    count: nat,
    v: int,
    lab: usize,
    dv: u128,
    t: int,
    nc: u128,
    e: int,
)
    requires
        update_step(es, srcs, w, limit, n, dist, dist2, settled, heap, heap2, count, v, lab, dv, t, nc, e),
        !settled[t],
    ensures
        inv_exact(es, srcs, w, dist2, settled, n),
{
    reveal(inv_exact);
    assert forall|u: int| 0 <= u < n && #[trigger] settled[u] implies dist2[u] is Some
        && is_distance_from(es, srcs, u, cost_of(dist2, u), w) by {
        assert(u != t);
        assert(dist2[u] == dist[u]);
    }
}

proof fn lemma_update_reached(
    es: Seq<(usize, usize, crate::model::Edge)>,
    srcs: Seq<(usize, usize)>,
    w: bool,
    limit: Option<u128>,
    n: int,
    dist: Seq<Option<(usize, u128)>>,
    dist2: Seq<Option<(usize, u128)>>,
    settled: Seq<bool>,
    heap: Seq<(u128, usize)>,
    heap2: Seq<(u128, usize)>,
    count: nat,
    v: int,
    lab: usize,
    dv: u128,
    t: int,
    nc: u128,
    e: int,
)
    requires
        update_step(es, srcs, w, limit, n, dist, dist2, settled, heap, heap2, count, v, lab, dv, t, nc, e),
    ensures
        inv_reached(es, srcs, w, limit, dist2, n, count),
{
    reveal(inv_reached);
    assert forall|u: int| 0 <= u < n && (#[trigger] dist2[u]) is Some implies {
        &&& within(cost_of(dist2, u), limit)
        &&& reached_with_label(es, srcs, u, dist2[u]->Some_0.0, cost_of(dist2, u), w)
        &&& cost_of(dist2, u) <= count * max_edge_cost()
    } by {
        if u != t {
            assert(dist2[u] == dist[u]);
        }
    }
}

proof fn lemma_update_relaxed(
    es: Seq<(usize, usize, crate::model::Edge)>,
    srcs: Seq<(usize, usize)>,
    w: bool,
    limit: Option<u128>,
    n: int,
    dist: Seq<Option<(usize, u128)>>,
    dist2: Seq<Option<(usize, u128)>>,
    settled: Seq<bool>,
    heap: Seq<(u128, usize)>,
    heap2: Seq<(u128, usize)>,
    count: nat,
    v: int,
    lab: usize,
    dv: u128,
    t: int,
    nc: u128,
    e: int,
)
    requires
        update_step(es, srcs, w, limit, n, dist, dist2, settled, heap, heap2, count, v, lab, dv, t, nc, e),
        !settled[t],
    ensures
        inv_relaxed(es, w, limit, dist2, settled, n, v),
{
    reveal(inv_relaxed);
    assert forall|u: int, f: int|
        0 <= u < n && settled[u] && u != v && 0 <= f < es.len() && #[trigger] touches(es[f], u)
        implies relaxed(es, w, limit, dist2, n, u, f) by {
        assert(relaxed(es, w, limit, dist, n, u, f));
        assert(u != t);
        lemma_relaxed_keeps(es, w, limit, n, dist, dist2, u, f, t, nc);
    }
}

proof fn lemma_update_queued(
    es: Seq<(usize, usize, crate::model::Edge)>,
    srcs: Seq<(usize, usize)>,
    w: bool,
    limit: Option<u128>,
    n: int,
    dist: Seq<Option<(usize, u128)>>,
    dist2: Seq<Option<(usize, u128)>>,
    settled: Seq<bool>,
    heap: Seq<(u128, usize)>,
    heap2: Seq<(u128, usize)>,
    count: nat,
    v: int,
    lab: usize,
    dv: u128,
    t: int,
    nc: u128,
    e: int,
)
    requires
        update_step(es, srcs, w, limit, n, dist, dist2, settled, heap, heap2, count, v, lab, dv, t, nc, e),
    ensures
        inv_queued(heap2, dist2, settled, n),
{
    reveal(inv_queued);
    assert forall|x: int|
        0 <= x < n && !settled[x] && (#[trigger] dist2[x]) is Some implies exists|i: int|
            0 <= i < heap2.len() && heap2[i] == (dist2[x]->Some_0.1, x as usize) by {
        if x == t {
            assert(heap2[heap.len() as int] == (nc, t as usize));
        } else {
            assert(dist2[x] == dist[x]);
            let i = choose|i: int| 0 <= i < heap.len() && heap[i] == (dist[x]->Some_0.1, x as usize);
            assert(heap2[i] == heap[i]);
        }
    }
}

proof fn lemma_update_sources(
    es: Seq<(usize, usize, crate::model::Edge)>,
    srcs: Seq<(usize, usize)>,
    w: bool,
    limit: Option<u128>,
    n: int,
    dist: Seq<Option<(usize, u128)>>,
    dist2: Seq<Option<(usize, u128)>>,
    settled: Seq<bool>,
    heap: Seq<(u128, usize)>,
    heap2: Seq<(u128, usize)>,
    count: nat,
    v: int,
    lab: usize,
    dv: u128,
    t: int,
    nc: u128,
    e: int,
)
    requires
        update_step(es, srcs, w, limit, n, dist, dist2, settled, heap, heap2, count, v, lab, dv, t, nc, e),
    ensures
        inv_sources(srcs, dist2, n),
{
    reveal(inv_sources);
    assert forall|k: int| 0 <= k < srcs.len() implies (#[trigger] srcs[k]).0 < n && dist2[srcs[
        k].0 as int] == Some((srcs[k].1, 0u128)) by {
        if srcs[k].0 as int == t {
            assert(cost_of(dist, t) == 0);
        } else {
            assert(dist2[srcs[k].0 as int] == dist[srcs[k].0 as int]);
        }
    }
}

/// Lowering the known cost of an unsettled node keeps the invariant.
proof fn lemma_after_update(
    es: Seq<(usize, usize, crate::model::Edge)>,
    srcs: Seq<(usize, usize)>,
    w: bool,
    limit: Option<u128>,
    n: int,
    dist: Seq<Option<(usize, u128)>>,
    dist2: Seq<Option<(usize, u128)>>,
    settled: Seq<bool>,
    heap: Seq<(u128, usize)>,
    heap2: Seq<(u128, usize)>,
    count: nat,
    v: int,
    lab: usize,
    dv: u128,
    t: int,
    nc: u128,
    e: int,
)
    requires
        update_step(es, srcs, w, limit, n, dist, dist2, settled, heap, heap2, count, v, lab, dv, t, nc, e),
    ensures
        !settled[t],
        t != v,
        dist2[v] == dist[v],
        inv_queue(heap2, dist2, limit, n),
        inv_exact(es, srcs, w, dist2, settled, n),
        inv_reached(es, srcs, w, limit, dist2, n, count),
        inv_relaxed(es, w, limit, dist2, settled, n, v),
        inv_queued(heap2, dist2, settled, n),
        inv_sources(srcs, dist2, n),
{
    lemma_update_target_open(es, srcs, w, limit, n, dist, dist2, settled, heap, heap2, count, v, lab, dv, t, nc, e);
    lemma_update_queue(es, srcs, w, limit, n, dist, dist2, settled, heap, heap2, count, v, lab, dv, t, nc, e);
    lemma_update_exact(es, srcs, w, limit, n, dist, dist2, settled, heap, heap2, count, v, lab, dv, t, nc, e);
    lemma_update_reached(es, srcs, w, limit, n, dist, dist2, settled, heap, heap2, count, v, lab, dv, t, nc, e);
    lemma_update_relaxed(es, srcs, w, limit, n, dist, dist2, settled, heap, heap2, count, v, lab, dv, t, nc, e);
    lemma_update_queued(es, srcs, w, limit, n, dist, dist2, settled, heap, heap2, count, v, lab, dv, t, nc, e);
    lemma_update_sources(es, srcs, w, limit, n, dist, dist2, settled, heap, heap2, count, v, lab, dv, t, nc, e);
}

} // verus!
