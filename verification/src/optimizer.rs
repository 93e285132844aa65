//! Steiner tree weight estimation and Pareto search over terminal selections.
//!
//! A weight is `Some(millimetres)`, or `None` for an infinite weight (terminals
//! that the road network does not connect).
use std::collections::HashMap;
use vstd::prelude::*;

use crate::model::{BuiltGraph, Edge};
use crate::petgraph_specs::{graph_edges, graph_nodes, SpatialGraph};
use crate::spanning::{
    joins_all, law_prim_spans, law_steiner_is_closure_mst, lemma_closure_is_distance_matrix, list_weight, prim_edges,
};
use crate::walks::{edge_weight, is_distance_from, is_walk, walk_cost};

pub use crate::cluster_greedy::{greedy_cluster_pareto, greedy_cluster_pareto_in_order, ClusterSolution};

verus! {

broadcast use vstd::std_specs::hash::group_hash_axioms;

/// The least walk cost from `s` to `t` (access links counted), or `None` when
/// no walk joins them.
pub open spec fn shortest(es: Seq<(usize, usize, Edge)>, s: usize, t: usize) -> Option<int> {
    if exists|d: int| is_distance_from(es, seq![(s, 0usize)], t as int, d, true) {
        Some(choose|d: int| is_distance_from(es, seq![(s, 0usize)], t as int, d, true))
    } else {
        None
    }
}

/// A least cost is unique.
pub proof fn lemma_distance_unique(
    es: Seq<(usize, usize, Edge)>,
    srcs: Seq<(usize, usize)>,
    t: int,
    d1: int,
    d2: int,
    w: bool,
)
    requires
        is_distance_from(es, srcs, t, d1, w),
        is_distance_from(es, srcs, t, d2, w),
    ensures
        d1 == d2,
{
    let (k1, p1) = choose|k: int, p: Seq<int>|
        0 <= k < srcs.len() && #[trigger] is_walk(es, srcs[k].0 as int, t, p) && walk_cost(es, p, w)
            == d1;
    let (k2, p2) = choose|k: int, p: Seq<int>|
        0 <= k < srcs.len() && #[trigger] is_walk(es, srcs[k].0 as int, t, p) && walk_cost(es, p, w)
            == d2;
}

/// `petgraph::algo::dijkstra` from `start` with no goal, each edge costing its
/// length (access links included).  As its documentation says, the result holds
/// the length of the shortest path from `start` to every reachable node, and no
/// other node.  With `u32` edge lengths and fewer than `u32::MAX` nodes no sum
/// overflows `u64`; the source panics on a `start` outside the graph, which
/// `requires` rules out.
#[verifier::external_body]
fn shortest_from(g: &SpatialGraph, start: usize) -> (r: HashMap<usize, u64>)
    requires
        start < graph_nodes(*g).len(),
    ensures
        forall|t: usize|
            #[trigger] r@.contains_key(t) ==> is_distance_from(
                graph_edges(*g),
                seq![(start, 0usize)],
                t as int,
                r@[t] as int,
                true,
            ),
        forall|t: usize, p: Seq<int>|
            !r@.contains_key(t) ==> !#[trigger] is_walk(graph_edges(*g), start as int, t as int, p),
{
    petgraph::algo::dijkstra(g, petgraph::graph::NodeIndex::new(start), None, |e| edge_weight(e.weight(), true))
        .into_iter()
        .map(|(k, v)| (k.index(), v))
        .collect()
}

/// `a < b` where `None` stands for infinity.
pub open spec fn w_lt(a: Option<int>, b: Option<int>) -> bool {
    match (a, b) {
        (Some(x), Some(y)) => x < y,
        (Some(_), None) => true,
        _ => false,
    }
}

/// `a <= b` where `None` stands for infinity.
pub open spec fn w_le(a: Option<int>, b: Option<int>) -> bool {
    !w_lt(b, a)
}

/// `a + b` where `None` stands for infinity.
pub open spec fn w_add(a: Option<int>, b: Option<int>) -> Option<int> {
    match (a, b) {
        (Some(x), Some(y)) => Some(x + y),
        _ => None,
    }
}

/// An exact weight as a possibly infinite one.
pub open spec fn w_of(w: Option<u128>) -> Option<int> {
    match w {
        Some(x) => Some(x as int),
        None => None,
    }
}

/// `u` is the first node outside the tree with the least key.
pub open spec fn is_first_min(in_tree: Seq<bool>, key: Seq<Option<int>>, u: int) -> bool {
    &&& 0 <= u < in_tree.len()
    &&& !in_tree[u]
    &&& forall|j: int| 0 <= j < in_tree.len() && !in_tree[j] ==> !w_lt(#[trigger] key[j], key[u])
    &&& forall|j: int| 0 <= j < u && !in_tree[j] ==> w_lt(key[u], #[trigger] key[j])
}

/// The state of Prim's algorithm on the distance matrix `m` after `k` steps:
/// which nodes are in the tree, the key of each node (its least distance to
/// the tree) and the total of the keys taken.  Each step takes the first
/// node outside the tree with the least key.
pub open spec fn prim_state(m: Seq<Seq<Option<int>>>, k: nat) -> (Seq<bool>, Seq<Option<int>>, Option<int>)
    decreases k,
{
    let n = m.len();
    if k == 0 {
        (
            Seq::new(n, |i: int| false),
            Seq::new(n, |i: int| if i == 0 { Some(0int) } else { None }),
            Some(0int),
        )
    } else {
        let (in_tree, key, total) = prim_state(m, (k - 1) as nat);
        let u = choose|u: int| is_first_min(in_tree, key, u);
        let in_tree2 = in_tree.update(u, true);
        let key2 = Seq::new(
            n,
            |v: int| if !in_tree2[v] && w_lt(m[u][v], key[v]) { m[u][v] } else { key[v] },
        );
        (in_tree2, key2, w_add(total, key[u]))
    }
}

/// The weight of the spanning tree that Prim's algorithm grows from node 0 on
/// the distance matrix `m` (0 for fewer than two nodes).
pub open spec fn prim_weight(m: Seq<Seq<Option<int>>>) -> Option<int> {
    if m.len() < 2 {
        Some(0)
    } else {
        prim_state(m, m.len()).2
    }
}

/// The matrix of least walk costs between the terminals.
pub open spec fn closure_matrix(es: Seq<(usize, usize, Edge)>, terms: Seq<usize>) -> Seq<Seq<Option<int>>> {
    Seq::new(terms.len(), |i: int| Seq::new(terms.len(), |j: int| shortest(es, terms[i], terms[j])))
}

/// The approximate Steiner tree weight of a set of terminals: the minimum
/// spanning tree weight of their metric closure.
pub open spec fn steiner_spec(es: Seq<(usize, usize, Edge)>, terms: Seq<usize>) -> Option<int> {
    if terms.len() < 2 {
        Some(0)
    } else {
        prim_weight(closure_matrix(es, terms))
    }
}

spec fn matrix_view(d: Seq<Vec<Option<u64>>>) -> Seq<Seq<Option<int>>> {
    Seq::new(
        d.len(),
        |i: int|
            Seq::new(
                d[i]@.len(),
                |j: int|
                    match d[i]@[j] {
                        Some(x) => Some(x as int),
                        None => None,
                    },
            ),
    )
}

spec fn key_view(key: Seq<Option<u64>>) -> Seq<Option<int>> {
    Seq::new(
        key.len(),
        |v: int|
            match key[v] {
                Some(x) => Some(x as int),
                None => None,
            },
    )
}

pub(crate) proof fn lemma_first_min_unique(in_tree: Seq<bool>, key: Seq<Option<int>>, u1: int, u2: int)
    requires
        is_first_min(in_tree, key, u1),
        is_first_min(in_tree, key, u2),
    ensures
        u1 == u2,
{
    if u1 < u2 {
        assert(w_lt(key[u2], key[u1]));
    } else if u2 < u1 {
        assert(w_lt(key[u1], key[u2]));
    }
}

/// Prim's minimum spanning tree on an n×n distance matrix (`None` is an
/// infinite distance); returns the total weight, infinite when the finite
/// distances do not connect all nodes.
#[verifier::spinoff_prover]
fn prim_mst(dist: &Vec<Vec<Option<u64>>>) -> (total: Option<u128>)
    requires
        forall|i: int| 0 <= i < dist@.len() ==> (#[trigger] dist@[i])@.len() == dist@.len(),
    ensures
        w_of(total) == prim_weight(matrix_view(dist@)),
{
    let n = dist.len();
    let ghost m = matrix_view(dist@);
    if n < 2 {
        return Some(0);
    }
    let mut in_tree: Vec<bool> = Vec::new();
    let mut key: Vec<Option<u64>> = Vec::new();
    let mut i: usize = 0;
    while i < n
        invariant
            i <= n,
            in_tree@.len() == i,
            key@.len() == i,
            forall|v: int| 0 <= v < i ==> !(#[trigger] in_tree@[v]),
            forall|v: int| 0 <= v < i ==> (#[trigger] key@[v]) == if v == 0 { Some(0u64) } else { None },
        decreases n - i,
    {
        in_tree.push(false);
        key.push(if i == 0 { Some(0u64) } else { None });
        i = i + 1;
    }
    let mut total: Option<u128> = Some(0);
    proof {
        assert(Set::new(|v: int| 0 <= v < n && in_tree@[v]) =~= Set::<int>::empty());
        assert(in_tree@ =~= prim_state(m, 0).0);
        assert(key_view(key@) =~= prim_state(m, 0).1);
    }
    let mut step: usize = 0;
    while step < n
        invariant
            step <= n,
            n == dist@.len(),
            n >= 2,
            m == matrix_view(dist@),
            forall|i: int| 0 <= i < dist@.len() ==> (#[trigger] dist@[i])@.len() == dist@.len(),
            in_tree@ == prim_state(m, step as nat).0,
            key_view(key@) == prim_state(m, step as nat).1,
            w_of(total) == prim_state(m, step as nat).2,
            in_tree@.len() == n,
            key@.len() == n,
            total is Some ==> total->Some_0 <= step * 0xffff_ffff_ffff_ffffu128,
            Set::new(|v: int| 0 <= v < n && in_tree@[v]).len() == step,
            Set::new(|v: int| 0 <= v < n && in_tree@[v]).finite(),
        decreases n - step,
    {
        // the first node outside the tree with the least key
        let mut best: usize = n;
        let mut j: usize = 0;
        while j < n
            invariant
                j <= n,
                in_tree@.len() == n,
                key@.len() == n,
                best == n || (best < j && !in_tree@[best as int]),
                best < n ==> forall|x: int| 0 <= x < j && !in_tree@[x] ==> !w_lt(
                    #[trigger] key_view(key@)[x],
                    key_view(key@)[best as int],
                ),
                best < n ==> forall|x: int| 0 <= x < best && !in_tree@[x] ==> w_lt(
                    key_view(key@)[best as int],
                    #[trigger] key_view(key@)[x],
                ),
                best == n ==> forall|x: int| 0 <= x < j ==> #[trigger] in_tree@[x],
            decreases n - j,
        {
            if !in_tree[j] {
                let better = if best == n {
                    true
                } else {
                    match (key[j], key[best]) {
                        (Some(a), Some(b)) => a < b,
                        (Some(_), None) => true,
                        _ => false,
                    }
                };
                if better {
                    best = j;
                }
            }
            j = j + 1;
        }
        proof {
            if best == n {
                // every node would be in the tree, but only `step < n` are
                assert(Set::new(|v: int| 0 <= v < n && in_tree@[v]) =~= vstd::set_lib::set_int_range(0, n as int));
                vstd::set_lib::lemma_int_range(0, n as int);
            }
        }
        let u = best;
        let ghost pre = prim_state(m, step as nat);
        proof {
            assert(is_first_min(pre.0, pre.1, u as int));
            lemma_first_min_unique(pre.0, pre.1, u as int, choose|x: int| is_first_min(pre.0, pre.1, x));
        }
        let ku = key[u];
        total = match (total, ku) {
            (Some(t), Some(k)) => {
                proof {
                    assert(t + k <= (step + 1) * 0xffff_ffff_ffff_ffffu128) by (nonlinear_arith)
                        requires t <= step * 0xffff_ffff_ffff_ffffu128, k <= 0xffff_ffff_ffff_ffffu64;
                    assert((step + 1) * 0xffff_ffff_ffff_ffffu128 <= 0xffff_ffff_ffff_ffff_ffff_ffff_ffff_ffffu128) by (nonlinear_arith)
                        requires step < n, n <= usize::MAX;
                }
                Some(t + k as u128)
            },
            _ => None,
        };
        let ghost old_set = Set::new(|v: int| 0 <= v < n && in_tree@[v]);
        in_tree.set(u, true);
        let ghost key0 = key@;
        let mut v: usize = 0;
        while v < n
            invariant
                v <= n,
                u < n,
                key0.len() == n,
                in_tree@.len() == n,
                key@.len() == n,
                dist@.len() == n,
                forall|i: int| 0 <= i < dist@.len() ==> (#[trigger] dist@[i])@.len() == dist@.len(),
                m == matrix_view(dist@),
                forall|x: int| 0 <= x < v ==> #[trigger] key_view(key@)[x] == if !in_tree@[x] && w_lt(m[u as int][x], key_view(key0)[x]) {
                    m[u as int][x]
                } else {
                    key_view(key0)[x]
                },
                forall|x: int| v <= x < n ==> #[trigger] key@[x] == key0[x],
            decreases n - v,
        {
            let ghost prev = key@;
            if !in_tree[v] {
                let d = dist[u][v];
                let better = match (d, key[v]) {
                    (Some(a), Some(b)) => a < b,
                    (Some(_), None) => true,
                    _ => false,
                };
                if better {
                    key.set(v, d);
                }
            }
            proof {
                assert(m[u as int][v as int] == match dist@[u as int]@[v as int] {
                    Some(x) => Some(x as int),
                    None => None,
                });
                assert forall|x: int| 0 <= x < v + 1 implies #[trigger] key_view(key@)[x] == if !in_tree@[x] && w_lt(m[u as int][x], key_view(key0)[x]) {
                    m[u as int][x]
                } else {
                    key_view(key0)[x]
                } by {
                    if x < v {
                        assert(key@[x] == prev[x]);
                        assert(key_view(prev)[x] == key_view(key@)[x]);
                    } else {
                        assert(prev[x] == key0[x]);
                        assert(key_view(key0)[x] == match key0[x] {
                            Some(y) => Some(y as int),
                            None => None,
                        });
                        assert(key_view(key@)[x] == match key@[x] {
                            Some(y) => Some(y as int),
                            None => None,
                        });
                        if !in_tree@[x] && w_lt(m[u as int][x], key_view(key0)[x]) {
                            assert(key@[x] == dist@[u as int]@[x]);
                        } else {
                            assert(key@[x] == key0[x]);
                        }
                    }
                }
            }
            v = v + 1;
        }
        proof {
            let post = prim_state(m, (step + 1) as nat);
            assert(in_tree@ =~= post.0);
            assert(key_view(key@) =~= post.1);
            assert(Set::new(|x: int| 0 <= x < n && in_tree@[x]) =~= old_set.insert(u as int));
        }
        step = step + 1;
    }
    total
}

/// The least costs from `s` that a search found are the `shortest` values.
proof fn lemma_shortest_of_search(
    es: Seq<(usize, usize, Edge)>,
    r: Map<usize, u64>,
    s: usize,
    t: usize,
)
    requires
        forall|x: usize|
            #[trigger] r.contains_key(x) ==> is_distance_from(es, seq![(s, 0usize)], x as int, r[x] as int, true),
        forall|x: usize, p: Seq<int>| !r.contains_key(x) ==> !#[trigger] is_walk(es, s as int, x as int, p),
    ensures
        shortest(es, s, t) == if r.contains_key(t) {
            Some(r[t] as int)
        } else {
            None::<int>
        },
{
    if r.contains_key(t) {
        let d = choose|d: int| is_distance_from(es, seq![(s, 0usize)], t as int, d, true);
        lemma_distance_unique(es, seq![(s, 0usize)], t as int, d, r[t] as int, true);
    } else {
        if exists|d: int| is_distance_from(es, seq![(s, 0usize)], t as int, d, true) {
            let d = choose|d: int| is_distance_from(es, seq![(s, 0usize)], t as int, d, true);
            let (k, p) = choose|k: int, p: Seq<int>|
                0 <= k < 1 && #[trigger] is_walk(es, seq![(s, 0usize)][k].0 as int, t as int, p)
                    && walk_cost(es, p, true) == d;
            assert(is_walk(es, s as int, t as int, p));
        }
    }
}

/// Approximate Steiner tree weight for a set of terminals (node indices): the
/// standard 2-approximation that takes the minimum spanning tree (Prim) of the
/// metric closure (least walk costs between terminals, found by Dijkstra).
/// The weight is infinite when the terminals are not all connected.
#[verifier::spinoff_prover]
pub fn steiner_weight(graph: &BuiltGraph, terminals: &[usize]) -> (w: Option<u128>)
    requires
        terminals@.len() >= 2 ==> forall|k: int| 0 <= k < terminals@.len() ==> #[trigger] terminals@[k] < graph_nodes(graph.graph).len(),
    ensures
        w_of(w) == steiner_spec(graph_edges(graph.graph), terminals@),
        // the weight of a minimum spanning tree of the terminals' metric closure
        forall|t: Seq<(int, int)>|
            #[trigger] joins_all(terminals@.len() as int, t) ==> w_le(
                w_of(w),
                list_weight(closure_matrix(graph_edges(graph.graph), terminals@), t),
            ),
        joins_all(
            terminals@.len() as int,
            prim_edges(closure_matrix(graph_edges(graph.graph), terminals@), terminals@.len()),
        ),
        list_weight(
            closure_matrix(graph_edges(graph.graph), terminals@),
            prim_edges(closure_matrix(graph_edges(graph.graph), terminals@), terminals@.len()),
        ) == w_of(w),
{
    let w = steiner_weight_of(graph, terminals);
    proof {
        let es = graph_edges(graph.graph);
        let terms = terminals@;
        lemma_closure_is_distance_matrix(es, terms);
        law_prim_spans(closure_matrix(es, terms));
        law_steiner_is_closure_mst(es, terms, prim_edges(closure_matrix(es, terms), terms.len()));
        assert forall|t: Seq<(int, int)>| #[trigger] joins_all(terms.len() as int, t) implies w_le(
            w_of(w),
            list_weight(closure_matrix(es, terms), t),
        ) by {
            law_steiner_is_closure_mst(es, terms, t);
        }
    }
    w
}

/// The Steiner weight as Prim's algorithm computes it on the metric closure.
fn steiner_weight_of(graph: &BuiltGraph, terminals: &[usize]) -> (w: Option<u128>)
    requires
        terminals@.len() >= 2 ==> forall|k: int| 0 <= k < terminals@.len() ==> #[trigger] terminals@[k] < graph_nodes(graph.graph).len(),
    ensures
        w_of(w) == steiner_spec(graph_edges(graph.graph), terminals@),
{
    let ghost es = graph_edges(graph.graph);
    let n = terminals.len();
    if n < 2 {
        return Some(0);
    }
    let mut dist: Vec<Vec<Option<u64>>> = Vec::new();
    let mut i: usize = 0;
    while i < n
        invariant
            i <= n,
            n == terminals@.len(),
            es == graph_edges(graph.graph),
            forall|k: int| 0 <= k < terminals@.len() ==> #[trigger] terminals@[k] < graph_nodes(graph.graph).len(),
            dist@.len() == i,
            forall|a: int| 0 <= a < i ==> (#[trigger] dist@[a])@.len() == n,
            forall|a: int, b: int| 0 <= a < i && 0 <= b < n ==> #[trigger] matrix_view(dist@)[a][b]
                == shortest(es, terminals@[a], terminals@[b]),
        decreases n - i,
    {
        let sp = shortest_from(&graph.graph, terminals[i]);
        let mut row: Vec<Option<u64>> = Vec::new();
        let mut j: usize = 0;
        while j < n
            invariant
                j <= n,
                n == terminals@.len(),
                i < n,
                es == graph_edges(graph.graph),
                forall|x: usize|
                    #[trigger] sp@.contains_key(x) ==> is_distance_from(es, seq![(terminals@[i as int], 0usize)], x as int, sp@[x] as int, true),
                forall|x: usize, p: Seq<int>| !sp@.contains_key(x) ==> !#[trigger] is_walk(es, terminals@[i as int] as int, x as int, p),
                row@.len() == j,
                forall|b: int| 0 <= b < j ==> #[trigger] row@[b] == if sp@.contains_key(terminals@[b]) {
                    Some(sp@[terminals@[b]])
                } else {
                    None
                },
            decreases n - j,
        {
            let d = match sp.get(&terminals[j]) {
                Some(x) => Some(*x),
                None => None,
            };
            row.push(d);
            j = j + 1;
        }
        let ghost old_dist = dist@;
        dist.push(row);
        proof {
            assert forall|a: int, b: int| 0 <= a < i + 1 && 0 <= b < n implies #[trigger] matrix_view(dist@)[a][b]
                == shortest(es, terminals@[a], terminals@[b]) by {
                if a < i {
                    assert(dist@[a] == old_dist[a]);
                    assert(matrix_view(old_dist)[a][b] == shortest(es, terminals@[a], terminals@[b]));
                } else {
                    lemma_shortest_of_search(es, sp@, terminals@[a], terminals@[b]);
                }
            }
        }
        i = i + 1;
    }
    proof {
        assert(matrix_view(dist@) =~= closure_matrix(es, terminals@)) by {
            assert forall|a: int| 0 <= a < n implies #[trigger] matrix_view(dist@)[a] =~= closure_matrix(es, terminals@)[a] by {
                assert forall|b: int| 0 <= b < n implies matrix_view(dist@)[a][b] == closure_matrix(es, terminals@)[a][b] by {
                    assert(matrix_view(dist@)[a][b] == shortest(es, terminals@[a], terminals@[b]));
                }
            }
        }
    }
    prim_mst(&dist)
}

/// A point on the Pareto front: the selected terminals (node indices) and the
/// approximate Steiner tree weight that connects them.
#[derive(Debug, Clone)]
pub struct Solution {
    pub selected: Vec<usize>,
    pub tree_weight: Option<u128>,
}

/// Bit `i` of `mask` is set.
pub open spec fn bit_set(mask: u64, i: u64) -> bool {
    (mask >> i) & 1u64 == 1u64
}

/// The candidates whose bits are set in `mask`, in candidate order.
pub open spec fn pick(cands: Seq<usize>, mask: u64) -> Seq<usize>
    decreases cands.len(),
{
    if cands.len() == 0 {
        Seq::empty()
    } else {
        let rest = pick(cands.drop_last(), mask);
        if bit_set(mask, (cands.len() - 1) as u64) {
            rest.push(cands.last())
        } else {
            rest
        }
    }
}

/// The size and weight of the selection of `mask`.
#[verifier::opaque]
pub open spec fn point(es: Seq<(usize, usize, Edge)>, cands: Seq<usize>, mask: u64) -> (int, Option<int>) {
    (pick(cands, mask).len() as int, steiner_spec(es, pick(cands, mask)))
}

/// `p` selects at least as many terminals as `q` for at most its weight.
pub open spec fn dominates(p: (int, Option<int>), q: (int, Option<int>)) -> bool {
    p.0 >= q.0 && w_le(p.1, q.1)
}

/// `mask` is below `bound`, no mask below `bound` reaches a different point
/// that dominates its own, and no smaller mask reaches the same point.
pub open spec fn on_front(es: Seq<(usize, usize, Edge)>, cands: Seq<usize>, mask: u64, bound: int) -> bool {
    &&& 1 <= mask < bound
    &&& forall|t: u64|
        1 <= t < bound ==> !(dominates(#[trigger] point(es, cands, t), point(es, cands, mask)) && point(
            es,
            cands,
            t,
        ) != point(es, cands, mask))
    &&& forall|t: u64| 1 <= t < mask ==> #[trigger] point(es, cands, t) != point(es, cands, mask)
}

proof fn lemma_dominates_trans(a: (int, Option<int>), b: (int, Option<int>), c: (int, Option<int>))
    requires
        dominates(a, b),
        dominates(b, c),
    ensures
        dominates(a, c),
{
}

proof fn lemma_dominates_antisym(a: (int, Option<int>), b: (int, Option<int>))
    requires
        dominates(a, b),
        dominates(b, a),
    ensures
        a == b,
{
}

/// The candidates selected by `mask`.
fn select_mask(candidates: &[usize], mask: u64) -> (sel: Vec<usize>)
    requires
        candidates@.len() <= 64,
    ensures
        sel@ == pick(candidates@, mask),
{
    let n = candidates.len();
    let mut sel: Vec<usize> = Vec::new();
    let mut i: usize = 0;
    while i < n
        invariant
            i <= n,
            n == candidates@.len(),
            n <= 64,
            sel@ == pick(candidates@.take(i as int), mask),
        decreases n - i,
    {
        let ii = i as u64;
        let set = mask & (1u64 << ii) != 0;
        proof {
            assert(set == bit_set(mask, ii)) by (bit_vector)
                requires
                    ii < 64,
                    set == (mask & (1u64 << ii) != 0),
            ;
            assert(candidates@.take(i + 1).drop_last() =~= candidates@.take(i as int));
        }
        if set {
            sel.push(candidates[i]);
        }
        i = i + 1;
    }
    proof {
        assert(candidates@.take(n as int) =~= candidates@);
    }
    sel
}

/// The front entries as masks, sizes and weights of their points.
spec fn front_matches(
    es: Seq<(usize, usize, Edge)>,
    cands: Seq<usize>,
    front: Seq<(u64, usize, Option<u128>)>,
) -> bool {
    forall|k: int|
        0 <= k < front.len() ==> (#[trigger] front[k]).1 as int == point(es, cands, front[k].0).0
            && w_of(front[k].2) == point(es, cands, front[k].0).1
}

/// The front after all masks below `bound`.
spec fn front_inv(
    es: Seq<(usize, usize, Edge)>,
    cands: Seq<usize>,
    front: Seq<(u64, usize, Option<u128>)>,
    bound: int,
) -> bool {
    &&& front_matches(es, cands, front)
    &&& forall|k: int, l: int| 0 <= k < l < front.len() ==> (#[trigger] front[k]).0 < (#[trigger] front[l]).0
    &&& forall|k: int| 0 <= k < front.len() ==> on_front(es, cands, (#[trigger] front[k]).0, bound)
    &&& forall|m: u64| #[trigger] on_front(es, cands, m, bound) ==> exists|k: int| 0 <= k < front.len() && front[k].0 == m
    &&& forall|t: u64| 1 <= t < bound ==> exists|k: int|
        0 <= k < front.len() && dominates(point(es, cands, front[k].0), #[trigger] point(es, cands, t))
}

#[verifier::spinoff_prover]
proof fn lemma_front_dominated(
    es: Seq<(usize, usize, Edge)>,
    cands: Seq<usize>,
    front: Seq<(u64, usize, Option<u128>)>,
    bound: int,
    mask: u64,
    k0: int,
)
    requires
        front_inv(es, cands, front, bound),
        bound >= 1,
        mask == bound,
        0 <= k0 < front.len(),
        dominates(point(es, cands, front[k0].0), point(es, cands, mask)),
    ensures
        front_inv(es, cands, front, bound + 1),
{
    assert forall|k: int| 0 <= k < front.len() implies on_front(es, cands, (#[trigger] front[k]).0, bound + 1) by {
        let m = front[k].0;
        assert(on_front(es, cands, m, bound));
        if dominates(point(es, cands, mask), point(es, cands, m)) && point(es, cands, mask) != point(es, cands, m) {
            lemma_dominates_trans(point(es, cands, front[k0].0), point(es, cands, mask), point(es, cands, m));
            if k0 == k {
                lemma_dominates_antisym(point(es, cands, mask), point(es, cands, m));
            } else {
                let m0 = front[k0].0;
                assert(on_front(es, cands, m0, bound));
                if point(es, cands, m0) == point(es, cands, m) {
                    if m0 < m {
                    } else {
                        assert(m < m0);
                    }
                }
            }
        }
        assert forall|t: u64| 1 <= t < bound + 1 implies !(dominates(#[trigger] point(es, cands, t), point(es, cands, m)) && point(
            es,
            cands,
            t,
        ) != point(es, cands, m)) by {
            if t < bound {
            }
        }
    }
    assert forall|m: u64| #[trigger] on_front(es, cands, m, bound + 1) implies exists|k: int| 0 <= k < front.len() && front[k].0 == m by {
        if m == mask {
            let m0 = front[k0].0;
            assert(on_front(es, cands, m0, bound));
            if point(es, cands, m0) != point(es, cands, m) {
                assert(dominates(point(es, cands, m0), point(es, cands, m)));
            } else {
                assert(m0 < m);
            }
        } else {
            assert(on_front(es, cands, m, bound));
        }
    }
    assert forall|t: u64| 1 <= t < bound + 1 implies exists|k: int|
        0 <= k < front.len() && dominates(point(es, cands, front[k].0), #[trigger] point(es, cands, t)) by {
        if t == mask {
            assert(dominates(point(es, cands, front[k0].0), point(es, cands, t)));
        }
    }
}

/// `(size, weight)` selects at least as many terminals as `f` for at most its weight.
spec fn dom_by(size: usize, weight: Option<u128>, f: (u64, usize, Option<u128>)) -> bool {
    size >= f.1 && w_le(w_of(weight), w_of(f.2))
}

/// The state just before a new undominated entry joins the front: `kept`
/// holds, at the increasing positions `idx` of `front`, exactly the entries
/// that the new one does not dominate.
spec fn added_setup(
    es: Seq<(usize, usize, Edge)>,
    cands: Seq<usize>,
    front: Seq<(u64, usize, Option<u128>)>,
    kept: Seq<(u64, usize, Option<u128>)>,
    idx: Seq<int>,
    bound: int,
    entry: (u64, usize, Option<u128>),
) -> bool {
    &&& front_inv(es, cands, front, bound)
    &&& bound >= 1
    &&& entry.0 == bound
    &&& entry.1 as int == point(es, cands, entry.0).0
    &&& w_of(entry.2) == point(es, cands, entry.0).1
    &&& forall|k: int| 0 <= k < front.len() ==> !dominates(point(es, cands, (#[trigger] front[k]).0), point(es, cands, entry.0))
    &&& idx.len() == kept.len()
    &&& forall|k: int|
        0 <= k < kept.len() ==> 0 <= #[trigger] idx[k] < front.len() && kept[k] == front[idx[k]]
            && !dominates(point(es, cands, entry.0), point(es, cands, front[idx[k]].0))
    &&& forall|j: int|
        0 <= j < front.len() && !dominates(point(es, cands, entry.0), point(es, cands, (#[trigger] front[j]).0))
            ==> exists|k: int| 0 <= k < idx.len() && idx[k] == j
    &&& forall|k: int, l: int| 0 <= k < l < idx.len() ==> #[trigger] idx[k] < #[trigger] idx[l]
}

proof fn lemma_added_matches(
    es: Seq<(usize, usize, Edge)>,
    cands: Seq<usize>,
    front: Seq<(u64, usize, Option<u128>)>,
    kept: Seq<(u64, usize, Option<u128>)>,
    idx: Seq<int>,
    bound: int,
    entry: (u64, usize, Option<u128>),
)
    requires
        added_setup(es, cands, front, kept, idx, bound, entry),
    ensures
        front_matches(es, cands, kept.push(entry)),
{
    let nf = kept.push(entry);
    assert forall|k: int| 0 <= k < nf.len() implies (#[trigger] nf[k]).1 as int == point(es, cands, nf[k].0).0
        && w_of(nf[k].2) == point(es, cands, nf[k].0).1 by {
        if k < kept.len() {
            let j = idx[k];
            assert(nf[k] == front[j]);
        }
    }
}

#[verifier::spinoff_prover]
proof fn lemma_added_on_front(
    es: Seq<(usize, usize, Edge)>,
    cands: Seq<usize>,
    front: Seq<(u64, usize, Option<u128>)>,
    kept: Seq<(u64, usize, Option<u128>)>,
    idx: Seq<int>,
    bound: int,
    entry: (u64, usize, Option<u128>),
)
    requires
        added_setup(es, cands, front, kept, idx, bound, entry),
    ensures
        forall|k: int| 0 <= k < kept.push(entry).len() ==> on_front(es, cands, (#[trigger] kept.push(entry)[k]).0, bound + 1),
{
    let mask = entry.0;
    let pm = point(es, cands, mask);
    let nf = kept.push(entry);
    assert forall|k: int| 0 <= k < nf.len() implies on_front(es, cands, (#[trigger] nf[k]).0, bound + 1) by {
        if k < kept.len() {
            let j = idx[k];
            let m = front[j].0;
            assert(nf[k] == front[j]);
            assert(on_front(es, cands, m, bound));
            assert(!dominates(pm, point(es, cands, m)));
            assert forall|t: u64| 1 <= t < bound + 1 implies !(dominates(#[trigger] point(es, cands, t), point(es, cands, m))
                && point(es, cands, t) != point(es, cands, m)) by {
                if t < bound {
                    assert(on_front(es, cands, m, bound));
                }
            }
        } else {
            assert(nf[k] == entry);
            assert forall|t: u64| 1 <= t < bound + 1 implies !(dominates(#[trigger] point(es, cands, t), pm) && point(
                es,
                cands,
                t,
            ) != pm) by {
                if t < bound && dominates(point(es, cands, t), pm) {
                    let j = choose|j: int| 0 <= j < front.len() && dominates(point(es, cands, front[j].0), point(es, cands, t));
                    lemma_dominates_trans(point(es, cands, front[j].0), point(es, cands, t), pm);
                    assert(!dominates(point(es, cands, front[j].0), pm));
                }
            }
            assert forall|t: u64| 1 <= t < mask implies #[trigger] point(es, cands, t) != pm by {
                if point(es, cands, t) == pm {
                    let j = choose|j: int| 0 <= j < front.len() && dominates(point(es, cands, front[j].0), point(es, cands, t));
                    assert(!dominates(point(es, cands, front[j].0), pm));
                }
            }
        }
    }
}

proof fn lemma_added_order(
    es: Seq<(usize, usize, Edge)>,
    cands: Seq<usize>,
    front: Seq<(u64, usize, Option<u128>)>,
    kept: Seq<(u64, usize, Option<u128>)>,
    idx: Seq<int>,
    bound: int,
    entry: (u64, usize, Option<u128>),
)
    requires
        added_setup(es, cands, front, kept, idx, bound, entry),
    ensures
        forall|k: int, l: int| 0 <= k < l < kept.push(entry).len() ==> (#[trigger] kept.push(entry)[k]).0 < (#[trigger] kept.push(entry)[l]).0,
{
    let nf = kept.push(entry);
    assert forall|k: int, l: int| 0 <= k < l < nf.len() implies (#[trigger] nf[k]).0 < (#[trigger] nf[l]).0 by {
        let a = idx[k];
        assert(nf[k] == front[a]);
        if l < kept.len() {
            let b = idx[l];
            assert(a < b);
            assert(nf[l] == front[b]);
        } else {
            assert(on_front(es, cands, front[a].0, bound));
        }
    }
}

proof fn lemma_added_complete(
    es: Seq<(usize, usize, Edge)>,
    cands: Seq<usize>,
    front: Seq<(u64, usize, Option<u128>)>,
    kept: Seq<(u64, usize, Option<u128>)>,
    idx: Seq<int>,
    bound: int,
    entry: (u64, usize, Option<u128>),
)
    requires
        added_setup(es, cands, front, kept, idx, bound, entry),
    ensures
        forall|m: u64| #[trigger] on_front(es, cands, m, bound + 1) ==> exists|k: int| 0 <= k < kept.push(entry).len() && kept.push(entry)[k].0 == m,
{
    let mask = entry.0;
    let pm = point(es, cands, mask);
    let nf = kept.push(entry);
    assert forall|m: u64| #[trigger] on_front(es, cands, m, bound + 1) implies exists|k: int| 0 <= k < nf.len() && nf[k].0 == m by {
        if m == mask {
            assert(nf[kept.len() as int].0 == m);
        } else {
            assert(on_front(es, cands, m, bound));
            let j = choose|j: int| 0 <= j < front.len() && front[j].0 == m;
            if dominates(pm, point(es, cands, front[j].0)) {
                if point(es, cands, mask) == point(es, cands, m) {
                    assert(dominates(point(es, cands, front[j].0), pm));
                }
            }
            let k = choose|k: int| 0 <= k < idx.len() && idx[k] == j;
            assert(nf[k] == front[j]);
            assert(nf[k].0 == m);
        }
    }
}

#[verifier::spinoff_prover]
proof fn lemma_added_cover(
    es: Seq<(usize, usize, Edge)>,
    cands: Seq<usize>,
    front: Seq<(u64, usize, Option<u128>)>,
    kept: Seq<(u64, usize, Option<u128>)>,
    idx: Seq<int>,
    bound: int,
    entry: (u64, usize, Option<u128>),
)
    requires
        added_setup(es, cands, front, kept, idx, bound, entry),
    ensures
        forall|t: u64| 1 <= t < bound + 1 ==> exists|k: int| 0 <= k < kept.push(entry).len() && dominates(point(es, cands, kept.push(entry)[k].0), #[trigger] point(es, cands, t)),
{
    let mask = entry.0;
    let pm = point(es, cands, mask);
    let nf = kept.push(entry);
    assert forall|t: u64| 1 <= t < bound + 1 implies exists|k: int|
        0 <= k < nf.len() && dominates(point(es, cands, nf[k].0), #[trigger] point(es, cands, t)) by {
        if t == mask {
            assert(nf[kept.len() as int] == entry);
            assert(dominates(point(es, cands, nf[kept.len() as int].0), point(es, cands, t)));
        } else {
            let j = choose|j: int| 0 <= j < front.len() && dominates(point(es, cands, front[j].0), point(es, cands, t));
            if !dominates(pm, point(es, cands, front[j].0)) {
                let k = choose|k: int| 0 <= k < idx.len() && idx[k] == j;
                assert(nf[k] == front[j]);
            } else {
                lemma_dominates_trans(pm, point(es, cands, front[j].0), point(es, cands, t));
                assert(nf[kept.len() as int] == entry);
            }
        }
    }
}

proof fn lemma_front_added(
    es: Seq<(usize, usize, Edge)>,
    cands: Seq<usize>,
    front: Seq<(u64, usize, Option<u128>)>,
    kept: Seq<(u64, usize, Option<u128>)>,
    idx: Seq<int>,
    bound: int,
    entry: (u64, usize, Option<u128>),
)
    requires
        added_setup(es, cands, front, kept, idx, bound, entry),
    ensures
        front_inv(es, cands, kept.push(entry), bound + 1),
{
    lemma_added_matches(es, cands, front, kept, idx, bound, entry);
    lemma_added_on_front(es, cands, front, kept, idx, bound, entry);
    lemma_added_order(es, cands, front, kept, idx, bound, entry);
    lemma_added_complete(es, cands, front, kept, idx, bound, entry);
    lemma_added_cover(es, cands, front, kept, idx, bound, entry);
}

/// Every selected terminal is a candidate.
proof fn lemma_pick_from(cands: Seq<usize>, mask: u64)
    ensures
        forall|k: int| 0 <= k < pick(cands, mask).len() ==> cands.contains(#[trigger] pick(cands, mask)[k]),
        pick(cands, mask).len() <= cands.len(),
    decreases cands.len(),
{
    if cands.len() > 0 {
        lemma_pick_from(cands.drop_last(), mask);
        let rest = pick(cands.drop_last(), mask);
        assert forall|k: int| 0 <= k < pick(cands, mask).len() implies cands.contains(#[trigger] pick(cands, mask)[k]) by {
            if k < rest.len() {
                assert(pick(cands, mask)[k] == rest[k]);
                assert(cands.drop_last().contains(rest[k]));
                let j = choose|j: int| 0 <= j < cands.drop_last().len() && cands.drop_last()[j] == rest[k];
                assert(cands[j] == rest[k]);
            } else {
                assert(pick(cands, mask)[k] == cands.last());
                assert(cands[cands.len() - 1] == cands.last());
            }
        }
    }
}

/// `a <= b` for possibly infinite weights.
fn weight_le(a: Option<u128>, b: Option<u128>) -> (r: bool)
    ensures
        r == w_le(w_of(a), w_of(b)),
{
    match (a, b) {
        (_, None) => true,
        (None, Some(_)) => false,
        (Some(x), Some(y)) => x <= y,
    }
}

/// Two different masks on the front select different numbers of terminals.
proof fn lemma_front_sizes_differ(
    es: Seq<(usize, usize, Edge)>,
    cands: Seq<usize>,
    m1: u64,
    m2: u64,
    bound: int,
)
    requires
        on_front(es, cands, m1, bound),
        on_front(es, cands, m2, bound),
        m1 != m2,
    ensures
        point(es, cands, m1).0 != point(es, cands, m2).0,
{
    let p1 = point(es, cands, m1);
    let p2 = point(es, cands, m2);
    if p1.0 == p2.0 {
        if w_le(p1.1, p2.1) {
            assert(dominates(p1, p2));
            if p1 == p2 {
                if m1 < m2 {
                } else {
                }
            }
        } else {
            assert(dominates(p2, p1));
        }
    }
}

/// `result` lists, by the masks `masks`, exactly the masks on the front below `bound`.
pub open spec fn lists_front(
    es: Seq<(usize, usize, Edge)>,
    cands: Seq<usize>,
    result: Seq<Solution>,
    masks: Seq<u64>,
    bound: int,
) -> bool {
    &&& masks.len() == result.len()
    &&& forall|k: int|
        0 <= k < result.len() ==> {
            &&& on_front(es, cands, #[trigger] masks[k], bound)
            &&& result[k].selected@ == pick(cands, masks[k])
            &&& w_of(result[k].tree_weight) == steiner_spec(es, result[k].selected@)
        }
    &&& forall|m: u64| #[trigger] on_front(es, cands, m, bound) ==> exists|k: int| 0 <= k < masks.len() && masks[k] == m
}

/// The first entry of `front` that selects at least `size` terminals for at
/// most `weight`.
fn find_dominating(front: &Vec<(u64, usize, Option<u128>)>, size: usize, weight: Option<u128>) -> (r: Option<usize>)
    ensures
        match r {
            Some(k) => k < front@.len() && front@[k as int].1 >= size && w_le(w_of(front@[k as int].2), w_of(weight)),
            None => forall|k: int| 0 <= k < front@.len() ==> !((#[trigger] front@[k]).1 >= size && w_le(w_of(front@[k].2), w_of(weight))),
        },
{
    let mut k: usize = 0;
    while k < front.len()
        invariant
            k <= front@.len(),
            forall|j: int| 0 <= j < k ==> !((#[trigger] front@[j]).1 >= size && w_le(w_of(front@[j].2), w_of(weight))),
        decreases front@.len() - k,
    {
        let f = front[k];
        if f.1 >= size && weight_le(f.2, weight) {
            return Some(k);
        }
        k = k + 1;
    }
    None
}

/// The entries of `front` that `(size, weight)` does not dominate, in order,
/// with their positions in `front`.
#[verifier::spinoff_prover]
fn keep_undominated(front: &Vec<(u64, usize, Option<u128>)>, size: usize, weight: Option<u128>) -> (res: (
    Vec<(u64, usize, Option<u128>)>,
    Ghost<Seq<int>>,
))
    ensures
        res.1@.len() == res.0@.len(),
        forall|j: int|
            0 <= j < res.0@.len() ==> 0 <= #[trigger] res.1@[j] < front@.len() && res.0@[j] == front@[res.1@[j]]
                && !dom_by(size, weight, front@[res.1@[j]]),
        forall|i: int|
            0 <= i < front@.len() && !dom_by(size, weight, #[trigger] front@[i]) ==> exists|j: int|
                0 <= j < res.1@.len() && res.1@[j] == i,
        forall|a: int, b: int| 0 <= a < b < res.1@.len() ==> #[trigger] res.1@[a] < #[trigger] res.1@[b],
{
    let mut kept: Vec<(u64, usize, Option<u128>)> = Vec::new();
    let ghost mut idx: Seq<int> = Seq::empty();
    let mut k: usize = 0;
    while k < front.len()
        invariant
            k <= front@.len(),
            idx.len() == kept@.len(),
            forall|j: int|
                0 <= j < kept@.len() ==> 0 <= #[trigger] idx[j] < k && kept@[j] == front@[idx[j]]
                    && !dom_by(size, weight, front@[idx[j]]),
            forall|i: int|
                0 <= i < k && !dom_by(size, weight, #[trigger] front@[i]) ==> exists|j: int| 0 <= j < idx.len() && idx[j] == i,
            forall|a: int, b: int| 0 <= a < b < idx.len() ==> #[trigger] idx[a] < #[trigger] idx[b],
        decreases front@.len() - k,
    {
        let f = front[k];
        let ghost before = idx;
        if !(size >= f.1 && weight_le(weight, f.2)) {
            kept.push(f);
            proof {
                idx = idx.push(k as int);
            }
        }
        proof {
            assert forall|i: int| 0 <= i < k + 1 && !dom_by(size, weight, #[trigger] front@[i]) implies exists|j: int|
                0 <= j < idx.len() && idx[j] == i by {
                if i < k {
                    let j = choose|j: int| 0 <= j < before.len() && before[j] == i;
                    assert(idx[j] == before[j]);
                } else {
                    assert(idx[idx.len() - 1] == i);
                }
            }
        }
        k = k + 1;
    }
    (kept, Ghost(idx))
}

/// The entries of `front` by descending size, with their positions in
/// `front`, given that no two share a size.
#[verifier::spinoff_prover]
fn by_descending_size(front: &Vec<(u64, usize, Option<u128>)>, n: usize) -> (res: (
    Vec<(u64, usize, Option<u128>)>,
    Ghost<Seq<int>>,
))
    requires
        n < usize::MAX,
        forall|i: int| 0 <= i < front@.len() ==> (#[trigger] front@[i]).1 <= n,
        forall|a: int, b: int|
            0 <= a < front@.len() && 0 <= b < front@.len() && a != b ==> (#[trigger] front@[a]).1 != (#[trigger] front@[b]).1,
    ensures
        res.1@.len() == res.0@.len(),
        forall|j: int| 0 <= j < res.0@.len() ==> 0 <= #[trigger] res.1@[j] < front@.len() && res.0@[j] == front@[res.1@[j]],
        forall|i: int| 0 <= i < front@.len() ==> #[trigger] res.1@.contains(i),
        forall|a: int, b: int| 0 <= a < b < res.0@.len() ==> (#[trigger] res.0@[a]).1 > (#[trigger] res.0@[b]).1,
{
    let mut out: Vec<(u64, usize, Option<u128>)> = Vec::new();
    let ghost mut perm: Seq<int> = Seq::empty();
    let mut s: usize = n + 1;
    while s > 0
        invariant
            s <= n + 1,
            n < usize::MAX,
            forall|i: int| 0 <= i < front@.len() ==> (#[trigger] front@[i]).1 <= n,
            forall|a: int, b: int|
                0 <= a < front@.len() && 0 <= b < front@.len() && a != b ==> (#[trigger] front@[a]).1 != (#[trigger] front@[b]).1,
            perm.len() == out@.len(),
            forall|j: int| 0 <= j < out@.len() ==> 0 <= #[trigger] perm[j] < front@.len() && out@[j] == front@[perm[j]],
            forall|j: int| 0 <= j < out@.len() ==> (#[trigger] out@[j]).1 >= s,
            forall|i: int| 0 <= i < front@.len() && (#[trigger] front@[i]).1 >= s ==> exists|j: int| 0 <= j < perm.len() && perm[j] == i,
            forall|a: int, b: int| 0 <= a < b < out@.len() ==> (#[trigger] out@[a]).1 > (#[trigger] out@[b]).1,
        decreases s,
    {
        s = s - 1;
        let ghost before = out@;
        let ghost pbefore = perm;
        let mut k: usize = 0;
        while k < front.len()
            invariant
                k <= front@.len(),
                s <= n,
                forall|a: int, b: int|
                    0 <= a < front@.len() && 0 <= b < front@.len() && a != b ==> (#[trigger] front@[a]).1 != (#[trigger] front@[b]).1,
                perm.len() == out@.len(),
                before.len() <= out@.len() <= before.len() + 1,
                pbefore.len() == before.len(),
                forall|j: int| 0 <= j < before.len() ==> out@[j] == before[j] && perm[j] == pbefore[j],
                forall|j: int| 0 <= j < before.len() ==> (#[trigger] before[j]).1 > s,
                forall|j: int| 0 <= j < before.len() ==> 0 <= #[trigger] pbefore[j] < front@.len() && before[j] == front@[pbefore[j]],
                out@.len() == before.len() + 1 ==> 0 <= perm[before.len() as int] < k && out@[before.len() as int]
                    == front@[perm[before.len() as int]] && front@[perm[before.len() as int]].1 == s,
                out@.len() == before.len() ==> forall|i: int| 0 <= i < k ==> (#[trigger] front@[i]).1 != s,
            decreases front@.len() - k,
        {
            let f = front[k];
            if f.1 == s {
                proof {
                    if out@.len() == before.len() + 1 {
                        let i = perm[before.len() as int];
                        assert(front@[i].1 == front@[k as int].1);
                    }
                }
                out.push(f);
                proof {
                    perm = perm.push(k as int);
                }
            }
            k = k + 1;
        }
        proof {
            assert forall|j: int| 0 <= j < out@.len() implies 0 <= #[trigger] perm[j] < front@.len() && out@[j] == front@[perm[j]] by {
                if j < before.len() {
                    assert(pbefore[j] == perm[j]);
                }
            }
            assert forall|j: int| 0 <= j < out@.len() implies (#[trigger] out@[j]).1 >= s by {
                if j < before.len() {
                    assert(out@[j] == before[j]);
                }
            }
            assert forall|i: int| 0 <= i < front@.len() && (#[trigger] front@[i]).1 >= s implies exists|j: int|
                0 <= j < perm.len() && perm[j] == i by {
                if front@[i].1 > s {
                    let j = choose|j: int| 0 <= j < pbefore.len() && pbefore[j] == i;
                    assert(perm[j] == pbefore[j]);
                } else {
                    if out@.len() == before.len() {
                        assert(front@[i].1 != s);
                    } else {
                        let i2 = perm[before.len() as int];
                        assert(front@[i2].1 == s);
                        assert(i2 == i);
                    }
                }
            }
            assert forall|a: int, b: int| 0 <= a < b < out@.len() implies (#[trigger] out@[a]).1 > (#[trigger] out@[b]).1 by {
                assert(out@[a] == before[a]);
                if b < before.len() {
                    assert(out@[b] == before[b]);
                }
            }
        }
    }
    proof {
        assert forall|i: int| 0 <= i < front@.len() implies #[trigger] perm.contains(i) by {
            assert(front@[i].1 >= s);
            let j = choose|j: int| 0 <= j < perm.len() && perm[j] == i;
            assert(perm[j] == i);
        }
    }
    (out, Ghost(perm))
}

/// Brute-force Pareto search over all non-empty subsets of `candidates`.
///
/// For each subset (in the order of its bit mask) it computes the Steiner tree
/// weight and keeps only non-dominated solutions (no other subset has at least
/// as many nodes for at most the weight); among subsets with the same size and
/// weight the first is kept.  Returns the front sorted by descending node
/// count.  Only feasible for up to about 20 candidates.
#[verifier::spinoff_prover]
pub fn brute_force(graph: &BuiltGraph, candidates: &[usize]) -> (result: Vec<Solution>)
    requires
        candidates@.len() <= 20,
        candidates@.len() >= 2 ==> forall|k: int| 0 <= k < candidates@.len() ==> #[trigger] candidates@[k] < graph_nodes(graph.graph).len(),
    ensures
        exists|masks: Seq<u64>|
            #[trigger] lists_front(graph_edges(graph.graph), candidates@, result@, masks, (1u64 << candidates@.len() as u64) as int),
        forall|k: int, l: int|
            0 <= k < l < result@.len() ==> (#[trigger] result@[k]).selected@.len() > (#[trigger] result@[l]).selected@.len(),
        forall|t: u64|
            1 <= t < (1u64 << candidates@.len() as u64) ==> exists|k: int|
                0 <= k < result@.len() && result@[k].selected@.len() >= #[trigger] pick(candidates@, t).len()
                    && w_le(w_of(result@[k].tree_weight), steiner_spec(graph_edges(graph.graph), pick(candidates@, t))),
{
    let ghost es = graph_edges(graph.graph);
    let ghost cands = candidates@;
    let n = candidates.len();
    let limit: u64 = 1u64 << (n as u64);
    proof {
        let nn = n as u64;
        assert(1u64 <= (1u64 << nn) && (1u64 << nn) <= 0x100000u64) by (bit_vector)
            requires nn <= 20;
    }
    let mut front: Vec<(u64, usize, Option<u128>)> = Vec::new();
    let mut mask: u64 = 1;
    proof {
        reveal(point);
        assert(front_inv(es, cands, front@, 1));
    }
    while mask < limit
        invariant
            1 <= mask <= limit,
            limit <= 0x100000,
            limit == 1u64 << (n as u64),
            n == candidates@.len(),
            n <= 20,
            es == graph_edges(graph.graph),
            cands == candidates@,
            candidates@.len() >= 2 ==> forall|k: int| 0 <= k < candidates@.len() ==> #[trigger] candidates@[k] < graph_nodes(graph.graph).len(),
            front_inv(es, cands, front@, mask as int),
        decreases limit - mask,
    {
        let selected = select_mask(candidates, mask);
        proof {
            lemma_pick_from(cands, mask);
            if selected@.len() >= 2 {
                assert forall|k: int| 0 <= k < selected@.len() implies #[trigger] selected@[k] < graph_nodes(graph.graph).len() by {
                    assert(cands.contains(selected@[k]));
                }
            }
        }
        let weight = steiner_weight(graph, &selected);
        let size = selected.len();
        let entry = (mask, size, weight);
        proof {
            reveal(point);
            assert(entry.1 as int == point(es, cands, mask).0);
            assert(w_of(entry.2) == point(es, cands, mask).1);
        }
        match find_dominating(&front, size, weight) {
            Some(k0) => {
                proof {
                    assert(front_matches(es, cands, front@));
                    assert(front@[k0 as int].1 as int == point(es, cands, front@[k0 as int].0).0);
                    lemma_front_dominated(es, cands, front@, mask as int, mask, k0 as int);
                }
            },
            None => {
                let (mut kept, Ghost(idx)) = keep_undominated(&front, size, weight);
                proof {
                    assert forall|k: int| 0 <= k < front@.len() implies !dominates(point(es, cands, (#[trigger] front@[k]).0), point(es, cands, entry.0)) by {
                        assert(front_matches(es, cands, front@));
                        assert(front@[k].1 as int == point(es, cands, front@[k].0).0);
                    }
                    assert forall|k: int| 0 <= k < front@.len() implies (dom_by(size, weight, #[trigger] front@[k]) <==> dominates(point(es, cands, entry.0), point(es, cands, front@[k].0))) by {
                        assert(front_matches(es, cands, front@));
                        assert(front@[k].1 as int == point(es, cands, front@[k].0).0);
                    }
                    assert(added_setup(es, cands, front@, kept@, idx, mask as int, entry));
                    lemma_front_added(es, cands, front@, kept@, idx, mask as int, entry);
                }
                kept.push(entry);
                front = kept;
            },
        }
        mask = mask + 1;
    }
    proof {
        assert forall|a: int, b: int| 0 <= a < front@.len() && 0 <= b < front@.len() && a != b implies (#[trigger] front@[a]).1 != (#[trigger] front@[b]).1 by {
            assert(front_matches(es, cands, front@));
            if a < b {
                assert(front@[a].0 < front@[b].0);
            } else {
                assert(front@[b].0 < front@[a].0);
            }
            lemma_front_sizes_differ(es, cands, front@[a].0, front@[b].0, limit as int);
        }
        assert forall|i: int| 0 <= i < front@.len() implies (#[trigger] front@[i]).1 <= n by {
            assert(front_matches(es, cands, front@));
            reveal(point);
            lemma_pick_from(cands, front@[i].0);
        }
    }
    let (ordered, Ghost(perm)) = by_descending_size(&front, n);
    let mut result: Vec<Solution> = Vec::new();
    let mut k: usize = 0;
    while k < ordered.len()
        invariant
            k <= ordered@.len(),
            n == candidates@.len(),
            n <= 20,
            result@.len() == k,
            es == graph_edges(graph.graph),
            cands == candidates@,
            front_matches(es, cands, front@),
            perm.len() == ordered@.len(),
            forall|j: int| 0 <= j < ordered@.len() ==> 0 <= #[trigger] perm[j] < front@.len() && ordered@[j] == front@[perm[j]],
            forall|j: int|
                0 <= j < k ==> {
                    &&& (#[trigger] result@[j]).selected@ == pick(cands, ordered@[j].0)
                    &&& w_of(result@[j].tree_weight) == steiner_spec(es, result@[j].selected@)
                    &&& result@[j].selected@.len() == ordered@[j].1
                },
        decreases ordered@.len() - k,
    {
        let f = ordered[k];
        let selected = select_mask(candidates, f.0);
        proof {
            reveal(point);
            let i = perm[k as int];
            assert(front@[i].1 as int == point(es, cands, front@[i].0).0);
            assert(w_of(front@[i].2) == point(es, cands, front@[i].0).1);
        }
        result.push(Solution { selected, tree_weight: f.2 });
        k = k + 1;
    }
    proof {
        let masks = Seq::new(ordered@.len(), |j: int| ordered@[j].0);
        assert forall|j: int| 0 <= j < result@.len() implies on_front(es, cands, #[trigger] masks[j], limit as int) by {
            let i = perm[j];
            assert(ordered@[j] == front@[i]);
        }
        assert forall|m: u64| #[trigger] on_front(es, cands, m, limit as int) implies exists|j: int| 0 <= j < masks.len() && masks[j] == m by {
            let i = choose|i: int| 0 <= i < front@.len() && front@[i].0 == m;
            assert(perm.contains(i));
            let j = choose|j: int| 0 <= j < perm.len() && perm[j] == i;
            assert(ordered@[j] == front@[i]);
            assert(masks[j] == m);
        }
        assert(lists_front(es, cands, result@, masks, limit as int));
        assert forall|t: u64| 1 <= t < limit implies exists|k: int|
            0 <= k < result@.len() && result@[k].selected@.len() >= #[trigger] pick(cands, t).len()
                && w_le(w_of(result@[k].tree_weight), steiner_spec(es, pick(cands, t))) by {
            reveal(point);
            let kf = choose|kf: int| 0 <= kf < front@.len() && dominates(point(es, cands, front@[kf].0), point(es, cands, t));
            assert(perm.contains(kf));
            let j = choose|j: int| 0 <= j < perm.len() && perm[j] == kf;
            assert(ordered@[j] == front@[kf]);
            assert(result@[j].selected@ == pick(cands, ordered@[j].0));
        }
    }
    result
}


/// The weight of `selected` with `node` added.
pub open spec fn trial_weight(es: Seq<(usize, usize, Edge)>, selected: Seq<usize>, node: usize) -> Option<int> {
    steiner_spec(es, selected.push(node))
}

/// `i` is the first position of `remaining` whose node, added to `selected`,
/// gives the least weight.
pub open spec fn is_first_best(es: Seq<(usize, usize, Edge)>, selected: Seq<usize>, remaining: Seq<usize>, i: int) -> bool {
    &&& 0 <= i < remaining.len()
    &&& forall|j: int|
        0 <= j < remaining.len() ==> !w_lt(
            trial_weight(es, selected, #[trigger] remaining[j]),
            trial_weight(es, selected, remaining[i]),
        )
    &&& forall|j: int|
        0 <= j < i ==> w_lt(trial_weight(es, selected, remaining[i]), trial_weight(es, selected, #[trigger] remaining[j]))
}

/// `s` with its element at `i` replaced by its last one, then shortened by one.
pub open spec fn swap_removed<T>(s: Seq<T>, i: int) -> Seq<T> {
    s.update(i, s.last()).drop_last()
}

/// The candidates still to add and the nodes selected after `k` greedy steps;
/// each step moves the first best remaining candidate (by swap removal) to the
/// end of the selection.
pub open spec fn greedy_state(es: Seq<(usize, usize, Edge)>, cands: Seq<usize>, k: nat) -> (Seq<usize>, Seq<usize>)
    decreases k,
{
    if k == 0 {
        (cands, Seq::empty())
    } else {
        let (rem, sel) = greedy_state(es, cands, (k - 1) as nat);
        if rem.len() == 0 {
            (rem, sel)
        } else {
            let i = choose|i: int| is_first_best(es, sel, rem, i);
            (swap_removed(rem, i), sel.push(rem[i]))
        }
    }
}

proof fn lemma_first_best_unique(es: Seq<(usize, usize, Edge)>, selected: Seq<usize>, remaining: Seq<usize>, i1: int, i2: int)
    requires
        is_first_best(es, selected, remaining, i1),
        is_first_best(es, selected, remaining, i2),
    ensures
        i1 == i2,
{
    if i1 < i2 {
        assert(w_lt(trial_weight(es, selected, remaining[i2]), trial_weight(es, selected, remaining[i1])));
    } else if i2 < i1 {
        assert(w_lt(trial_weight(es, selected, remaining[i1]), trial_weight(es, selected, remaining[i2])));
    }
}

/// `a < b` for possibly infinite weights.
fn weight_lt(a: Option<u128>, b: Option<u128>) -> (r: bool)
    ensures
        r == w_lt(w_of(a), w_of(b)),
{
    match (a, b) {
        (Some(x), Some(y)) => x < y,
        (Some(_), None) => true,
        _ => false,
    }
}

/// A copy of `v`.
pub(crate) fn copied(v: &[usize]) -> (r: Vec<usize>)
    ensures
        r@ == v@,
{
    let mut r: Vec<usize> = Vec::new();
    let mut i: usize = 0;
    while i < v.len()
        invariant
            i <= v@.len(),
            r@ == v@.take(i as int),
        decreases v@.len() - i,
    {
        r.push(v[i]);
        proof {
            assert(v@.take(i + 1) =~= v@.take(i as int).push(v@[i as int]));
        }
        i = i + 1;
    }
    proof {
        assert(v@.take(v@.len() as int) =~= v@);
    }
    r
}

/// Greedy Pareto approximation.
///
/// Starting from an empty selection, at each step adds the candidate that
/// gives the least Steiner tree weight (the first such one in the order of the
/// remaining candidates, which swap removal keeps).  Returns one solution per
/// step, from one selected node up to all candidates.
#[verifier::spinoff_prover]
pub fn greedy_pareto(graph: &BuiltGraph, candidates: &[usize]) -> (result: Vec<Solution>)
    requires
        candidates@.len() >= 2 ==> forall|k: int| 0 <= k < candidates@.len() ==> #[trigger] candidates@[k] < graph_nodes(graph.graph).len(),
    ensures
        result@.len() == candidates@.len(),
        forall|k: int|
            0 <= k < result@.len() ==> {
                &&& (#[trigger] result@[k]).selected@ == greedy_state(graph_edges(graph.graph), candidates@, (k + 1) as nat).1
                &&& w_of(result@[k].tree_weight) == steiner_spec(graph_edges(graph.graph), result@[k].selected@)
            },
{
    let ghost es = graph_edges(graph.graph);
    let ghost cands = candidates@;
    let ghost nv = graph_nodes(graph.graph).len();
    let mut remaining = copied(candidates);
    let mut selected: Vec<usize> = Vec::new();
    let mut solutions: Vec<Solution> = Vec::new();
    while remaining.len() > 0
        invariant
            es == graph_edges(graph.graph),
            cands == candidates@,
            nv == graph_nodes(graph.graph).len(),
            remaining@ == greedy_state(es, cands, solutions@.len() as nat).0,
            selected@ == greedy_state(es, cands, solutions@.len() as nat).1,
            remaining@.len() + solutions@.len() == cands.len(),
            selected@.len() == solutions@.len(),
            cands.len() >= 2 ==> forall|k: int| 0 <= k < remaining@.len() ==> #[trigger] remaining@[k] < nv,
            cands.len() >= 2 ==> forall|k: int| 0 <= k < selected@.len() ==> #[trigger] selected@[k] < nv,
            forall|k: int|
                0 <= k < solutions@.len() ==> {
                    &&& (#[trigger] solutions@[k]).selected@ == greedy_state(es, cands, (k + 1) as nat).1
                    &&& w_of(solutions@[k].tree_weight) == steiner_spec(es, solutions@[k].selected@)
                },
        decreases remaining@.len(),
    {
        let mut best_i: usize = 0;
        let mut best_w: Option<u128> = None;
        let mut i: usize = 0;
        while i < remaining.len()
            invariant
                es == graph_edges(graph.graph),
                nv == graph_nodes(graph.graph).len(),
                i <= remaining@.len(),
                remaining@.len() > 0,
                remaining@.len() + selected@.len() == cands.len(),
                cands.len() >= 2 ==> forall|k: int| 0 <= k < remaining@.len() ==> #[trigger] remaining@[k] < nv,
                cands.len() >= 2 ==> forall|k: int| 0 <= k < selected@.len() ==> #[trigger] selected@[k] < nv,
                i > 0 ==> best_i < i,
                i > 0 ==> w_of(best_w) == trial_weight(es, selected@, remaining@[best_i as int]),
                forall|j: int| 0 <= j < i ==> !w_lt(
                    trial_weight(es, selected@, #[trigger] remaining@[j]),
                    trial_weight(es, selected@, remaining@[best_i as int]),
                ),
                forall|j: int| 0 <= j < best_i ==> w_lt(
                    trial_weight(es, selected@, remaining@[best_i as int]),
                    trial_weight(es, selected@, #[trigger] remaining@[j]),
                ),
            decreases remaining@.len() - i,
        {
            let mut trial = copied(&selected);
            trial.push(remaining[i]);
            proof {
                if trial@.len() >= 2 {
                    assert forall|k: int| 0 <= k < trial@.len() implies #[trigger] trial@[k] < nv by {
                        if k < selected@.len() {
                            assert(trial@[k] == selected@[k]);
                        }
                    }
                }
            }
            let w = steiner_weight(graph, &trial);
            proof {
                assert(trial@ == selected@.push(remaining@[i as int]));
            }
            if i == 0 || weight_lt(w, best_w) {
                best_i = i;
                best_w = w;
            }
            i = i + 1;
        }
        proof {
            let pre = greedy_state(es, cands, solutions@.len() as nat);
            assert(is_first_best(es, selected@, remaining@, best_i as int));
            lemma_first_best_unique(es, selected@, remaining@, best_i as int, choose|x: int| is_first_best(es, pre.1, pre.0, x));
        }
        let node = remaining.swap_remove(best_i);
        selected.push(node);
        let sel = copied(&selected);
        solutions.push(Solution { selected: sel, tree_weight: best_w });
        proof {
            if cands.len() >= 2 {
                assert(forall|k: int| 0 <= k < remaining@.len() ==> #[trigger] remaining@[k] < nv);
            }
        }
    }
    solutions
}


/// Law: the front that `brute_force` describes is a Pareto front: no solution
/// in it selects at least as many terminals as another for at most its weight.
pub proof fn law_front_undominated(
    es: Seq<(usize, usize, Edge)>,
    cands: Seq<usize>,
    result: Seq<Solution>,
    masks: Seq<u64>,
    bound: int,
)
    requires
        lists_front(es, cands, result, masks, bound),
        forall|k: int, l: int| 0 <= k < l < result.len() ==> (#[trigger] result[k]).selected@.len() > (#[trigger] result[l]).selected@.len(),
    ensures
        forall|i: int, j: int|
            0 <= i < result.len() && 0 <= j < result.len() && i != j ==> !((#[trigger] result[j]).selected@.len()
                >= (#[trigger] result[i]).selected@.len() && w_le(w_of(result[j].tree_weight), w_of(result[i].tree_weight))),
{
    reveal(point);
    assert forall|i: int, j: int|
        0 <= i < result.len() && 0 <= j < result.len() && i != j implies !((#[trigger] result[j]).selected@.len()
            >= (#[trigger] result[i]).selected@.len() && w_le(w_of(result[j].tree_weight), w_of(result[i].tree_weight))) by {
        if j < i {
            assert(result[j].selected@.len() > result[i].selected@.len());
            assert(on_front(es, cands, masks[i], bound));
            assert(on_front(es, cands, masks[j], bound));
            let pi = point(es, cands, masks[i]);
            let pj = point(es, cands, masks[j]);
            assert(pi == (result[i].selected@.len() as int, w_of(result[i].tree_weight)));
            assert(pj == (result[j].selected@.len() as int, w_of(result[j].tree_weight)));
            if w_le(w_of(result[j].tree_weight), w_of(result[i].tree_weight)) {
                assert(dominates(pj, pi) && pj != pi);
            }
        } else {
            assert(result[i].selected@.len() > result[j].selected@.len());
        }
    }
}

/// Swap removal takes one element out of a sequence, counted with repetition.
pub proof fn lemma_swap_removed_multiset<T>(s: Seq<T>, i: int)
    requires
        0 <= i < s.len(),
    ensures
        swap_removed(s, i).to_multiset() == s.to_multiset().remove(s[i]),
        swap_removed(s, i).len() == s.len() - 1,
{
    broadcast use vstd::seq_lib::group_seq_properties, vstd::multiset::group_multiset_axioms;

    let t = s.update(i, s.last());
    vstd::seq_lib::to_multiset_update(s, i, s.last());
    assert(t.drop_last().push(t.last()) =~= t);
    vstd::seq_lib::to_multiset_build(t.drop_last(), t.last());
    assert(t.last() == s.last());
    assert(s.to_multiset().count(s[i]) > 0);
    let a = s.to_multiset();
    let r = t.drop_last().to_multiset();
    assert forall|v: T| #[trigger] r.count(v) == a.remove(s[i]).count(v) by {
        assert(t.to_multiset().count(v) == r.count(v) + if v == s.last() { 1int } else { 0int });
        assert(t.to_multiset().count(v) == a.insert(s.last()).remove(s[i]).count(v));
    }
    assert(r =~= a.remove(s[i]));
}

/// A first best remaining candidate exists among the first `n`.
proof fn lemma_first_best_prefix(es: Seq<(usize, usize, Edge)>, selected: Seq<usize>, remaining: Seq<usize>, n: int) -> (i: int)
    requires
        1 <= n <= remaining.len(),
    ensures
        0 <= i < n,
        forall|j: int| 0 <= j < n ==> !w_lt(trial_weight(es, selected, #[trigger] remaining[j]), trial_weight(es, selected, remaining[i])),
        forall|j: int| 0 <= j < i ==> w_lt(trial_weight(es, selected, remaining[i]), trial_weight(es, selected, #[trigger] remaining[j])),
    decreases n,
{
    if n == 1 {
        0
    } else {
        let b = lemma_first_best_prefix(es, selected, remaining, n - 1);
        if w_lt(trial_weight(es, selected, remaining[n - 1]), trial_weight(es, selected, remaining[b])) {
            n - 1
        } else {
            b
        }
    }
}

/// Law: after `k` greedy steps, with `k` at most the number of candidates,
/// `k` nodes are selected, each step extends the previous selection by one
/// node, and the selection together with the candidates that remain are the
/// candidates, counted with repetition: after the last step every candidate
/// is selected exactly once.
#[verifier::spinoff_prover]
pub proof fn law_greedy_steps(es: Seq<(usize, usize, Edge)>, cands: Seq<usize>, k: nat)
    requires
        k <= cands.len(),
    ensures
        greedy_state(es, cands, k).1.len() == k,
        greedy_state(es, cands, k).0.len() == cands.len() - k,
        greedy_state(es, cands, k).0.to_multiset().add(greedy_state(es, cands, k).1.to_multiset()) == cands.to_multiset(),
        k < cands.len() ==> greedy_state(es, cands, k + 1).1.drop_last() == greedy_state(es, cands, k).1,
    decreases k,
{
    broadcast use vstd::seq_lib::group_seq_properties, vstd::multiset::group_multiset_axioms;

    if k == 0 {
        assert(Seq::<usize>::empty().to_multiset() =~= vstd::multiset::Multiset::empty());
        assert(cands.to_multiset().add(vstd::multiset::Multiset::empty()) =~= cands.to_multiset());
    } else {
        law_greedy_steps(es, cands, (k - 1) as nat);
        let (rem0, sel0) = greedy_state(es, cands, (k - 1) as nat);
        let b = lemma_first_best_prefix(es, sel0, rem0, rem0.len() as int);
        assert(is_first_best(es, sel0, rem0, b));
        let i = choose|i: int| is_first_best(es, sel0, rem0, i);
        lemma_swap_removed_multiset(rem0, i);
        vstd::seq_lib::to_multiset_build(sel0, rem0[i]);
        assert(rem0.to_multiset().count(rem0[i]) > 0);
        assert(swap_removed(rem0, i).to_multiset().add(sel0.push(rem0[i]).to_multiset()) =~= rem0.to_multiset().add(sel0.to_multiset()));
    }
    if k < cands.len() {
        let (rem, sel) = greedy_state(es, cands, k);
        let b = lemma_first_best_prefix(es, sel, rem, rem.len() as int);
        assert(is_first_best(es, sel, rem, b));
        let i = choose|i: int| is_first_best(es, sel, rem, i);
        assert(greedy_state(es, cands, k + 1) == (swap_removed(rem, i), sel.push(rem[i])));
        assert(sel.push(rem[i]).drop_last() =~= sel);
    }
}


/// Law: each greedy step adds the candidate that gives the least Steiner
/// weight.  Step `k` extends the selection of step `k - 1` (nothing, for the
/// first step) by one node, and its weight is at most the weight of that
/// earlier selection with any candidate not yet in it added.
#[verifier::spinoff_prover]
pub proof fn law_greedy_least_weight(
    es: Seq<(usize, usize, Edge)>,
    cands: Seq<usize>,
    result: Seq<Solution>,
    k: int,
    x: usize,
)
    requires
        result.len() == cands.len(),
        forall|t: int|
            0 <= t < result.len() ==> {
                &&& (#[trigger] result[t]).selected@ == greedy_state(es, cands, (t + 1) as nat).1
                &&& w_of(result[t].tree_weight) == steiner_spec(es, result[t].selected@)
            },
        0 <= k < result.len(),
        cands.contains(x),
        k > 0 ==> !result[k - 1].selected@.contains(x),
    ensures
        ({
            let prev = if k == 0 { Seq::<usize>::empty() } else { result[k - 1].selected@ };
            &&& result[k].selected@ == prev.push(result[k].selected@.last())
            &&& w_le(w_of(result[k].tree_weight), steiner_spec(es, prev.push(x)))
        }),
{
    broadcast use vstd::seq_lib::group_seq_properties, vstd::multiset::group_multiset_axioms;

    law_greedy_steps(es, cands, k as nat);
    let (rem, sel) = greedy_state(es, cands, k as nat);
    let prev = if k == 0 { Seq::<usize>::empty() } else { result[k - 1].selected@ };
    if k > 0 {
        assert(result[k - 1].selected@ == greedy_state(es, cands, k as nat).1);
    }
    assert(sel == prev);
    let b = lemma_first_best_prefix(es, sel, rem, rem.len() as int);
    assert(is_first_best(es, sel, rem, b));
    let i = choose|i: int| is_first_best(es, sel, rem, i);
    assert(greedy_state(es, cands, (k + 1) as nat) == (swap_removed(rem, i), sel.push(rem[i])));
    assert(result[k].selected@ == sel.push(rem[i]));
    assert(!sel.contains(x));
    assert(sel.to_multiset().count(x) == 0);
    assert(cands.to_multiset().count(x) > 0);
    assert(rem.to_multiset().count(x) > 0);
    assert(rem.contains(x));
    let j = choose|j: int| 0 <= j < rem.len() && rem[j] == x;
    assert(!w_lt(trial_weight(es, sel, rem[j]), trial_weight(es, sel, rem[i])));
}

/// Law: the first greedy step selects the first candidate alone, with
/// weight 0 (every single node weighs 0, and ties go to the earliest).
pub proof fn law_greedy_first_step(es: Seq<(usize, usize, Edge)>, cands: Seq<usize>, result: Seq<Solution>)
    requires
        result.len() == cands.len(),
        cands.len() > 0,
        forall|t: int|
            0 <= t < result.len() ==> {
                &&& (#[trigger] result[t]).selected@ == greedy_state(es, cands, (t + 1) as nat).1
                &&& w_of(result[t].tree_weight) == steiner_spec(es, result[t].selected@)
            },
    ensures
        result[0].selected@ == seq![cands[0]],
        result[0].tree_weight == Some(0u128),
{
    let s0 = Seq::<usize>::empty();
    assert(greedy_state(es, cands, 0) == (cands, s0));
    let b = lemma_first_best_prefix(es, s0, cands, cands.len() as int);
    assert(is_first_best(es, s0, cands, b));
    let i = choose|i: int| is_first_best(es, s0, cands, i);
    assert(s0.push(cands[0]) =~= seq![cands[0]]);
    if i > 0 {
        assert(s0.push(cands[i]) =~= seq![cands[i]]);
        assert(w_lt(trial_weight(es, s0, cands[i]), trial_weight(es, s0, cands[0])));
        assert(false);
    }
    assert(greedy_state(es, cands, 1) == (swap_removed(cands, i), s0.push(cands[i])));
    assert(result[0].selected@ == greedy_state(es, cands, 1).1);
}

/// A least walk cost from `s` to `t` is one from `t` to `s`.
proof fn lemma_distance_flip(es: Seq<(usize, usize, Edge)>, s: usize, t: usize, d: int)
    requires
        is_distance_from(es, seq![(s, 0usize)], t as int, d, true),
    ensures
        is_distance_from(es, seq![(t, 0usize)], s as int, d, true),
{
    let (k, p) = choose|k: int, p: Seq<int>|
        0 <= k < 1 && #[trigger] is_walk(es, seq![(s, 0usize)][k].0 as int, t as int, p) && walk_cost(es, p, true) == d;
    assert(is_walk(es, s as int, t as int, p));
    crate::walks::law_walk_reverse(es, s as int, t as int, p, true);
    assert(is_walk(es, seq![(t, 0usize)][0].0 as int, s as int, p.reverse()));
    assert forall|k2: int, q: Seq<int>|
        0 <= k2 < 1 && #[trigger] is_walk(es, seq![(t, 0usize)][k2].0 as int, s as int, q) implies walk_cost(es, q, true) >= d by {
        assert(is_walk(es, t as int, s as int, q));
        crate::walks::law_walk_reverse(es, t as int, s as int, q, true);
        assert(is_walk(es, seq![(s, 0usize)][0].0 as int, t as int, q.reverse()));
    }
}

/// Law: the road distance between two nodes is the same both ways, so the
/// distance matrix of a terminal set is symmetric.
pub proof fn law_shortest_symmetric(es: Seq<(usize, usize, Edge)>, s: usize, t: usize)
    ensures
        shortest(es, s, t) == shortest(es, t, s),
{
    if exists|d: int| is_distance_from(es, seq![(s, 0usize)], t as int, d, true) {
        let d = choose|d: int| is_distance_from(es, seq![(s, 0usize)], t as int, d, true);
        lemma_distance_flip(es, s, t, d);
        let d2 = choose|d2: int| is_distance_from(es, seq![(t, 0usize)], s as int, d2, true);
        lemma_distance_unique(es, seq![(t, 0usize)], s as int, d, d2, true);
    } else if exists|d: int| is_distance_from(es, seq![(t, 0usize)], s as int, d, true) {
        let d = choose|d: int| is_distance_from(es, seq![(t, 0usize)], s as int, d, true);
        lemma_distance_flip(es, t, s, d);
    }
}

} // verus!
