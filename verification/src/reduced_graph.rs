//! The coarsened graph of building clusters: one node per cluster, and an
//! edge between two clusters whose nearest-cluster regions meet across an
//! edge of the spatial graph, carrying the road distance between them.
use petgraph::graph::Graph;
use petgraph::Undirected;
use std::collections::HashMap;
use vstd::prelude::*;

use crate::model::{BuiltGraph, Edge, Node};
use crate::petgraph_specs::{graph_edges, graph_node_count, graph_nodes, reduced_add_edge, reduced_add_node, reduced_edges, reduced_new, reduced_nodes};
use crate::search::{max_edge_cost, nearest_sources};
use crate::steiner_bound::lemma_walk_concat;
use crate::walks::{
    edge_cost, edge_weight, is_distance_from, is_walk, law_walk_reverse, lemma_walk_push, reached_with_label, walk_cost,
    within,
};

verus! {

broadcast use vstd::std_specs::hash::group_hash_axioms;

/// A cluster as a node of the reduced graph: its id, its number of buildings
/// and the centroid of their coordinates (rounded down; 0 for a cluster
/// without buildings).
#[derive(Debug, Clone)]
pub struct ReducedClusterNode {
    pub cluster_id: usize,
    pub size: usize,
    pub centroid_x: i64,
    pub centroid_y: i64,
}

/// The road distance between two neighbouring clusters, in millimetres.
#[derive(Debug, Clone)]
pub struct ReducedClusterEdge {
    pub distance_mm: u128,
}

/// The graph of clusters.
pub type ReducedGraph = Graph<ReducedClusterNode, ReducedClusterEdge, Undirected>;

/// Node `v` is a building that `m` assigns to cluster `cid`.
pub open spec fn in_cluster(nodes: Seq<Node>, m: Map<usize, usize>, cid: usize, v: int) -> bool {
    &&& m.contains_key(v as usize)
    &&& m[v as usize] == cid
    &&& nodes[v] is Building
}

/// The x coordinate of a node.
pub open spec fn node_x(n: Node) -> int {
    match n {
        Node::Connector { x, .. } => x as int,
        Node::Building { x, .. } => x as int,
    }
}

/// The y coordinate of a node.
pub open spec fn node_y(n: Node) -> int {
    match n {
        Node::Connector { y, .. } => y as int,
        Node::Building { y, .. } => y as int,
    }
}

/// The number of buildings of cluster `cid` among the nodes below `n`.
pub open spec fn member_count(nodes: Seq<Node>, m: Map<usize, usize>, cid: usize, n: nat) -> int
    decreases n,
{
    if n == 0 {
        0
    } else {
        member_count(nodes, m, cid, (n - 1) as nat) + if in_cluster(nodes, m, cid, n - 1) {
            1int
        } else {
            0int
        }
    }
}

/// The sum of the x coordinates of the buildings of cluster `cid` among the
/// nodes below `n`.
pub open spec fn member_x_sum(nodes: Seq<Node>, m: Map<usize, usize>, cid: usize, n: nat) -> int
    decreases n,
{
    if n == 0 {
        0
    } else {
        member_x_sum(nodes, m, cid, (n - 1) as nat) + if in_cluster(nodes, m, cid, n - 1) {
            node_x(nodes[n - 1])
        } else {
            0int
        }
    }
}

/// The sum of the y coordinates of the buildings of cluster `cid` among the
/// nodes below `n`.
pub open spec fn member_y_sum(nodes: Seq<Node>, m: Map<usize, usize>, cid: usize, n: nat) -> int
    decreases n,
{
    if n == 0 {
        0
    } else {
        member_y_sum(nodes, m, cid, (n - 1) as nat) + if in_cluster(nodes, m, cid, n - 1) {
            node_y(nodes[n - 1])
        } else {
            0int
        }
    }
}

/// The mean of `count` values that sum to `sum`, rounded down; 0 when there
/// are none.
pub open spec fn centroid(sum: int, count: int) -> int {
    if count > 0 {
        sum / count
    } else {
        0
    }
}

/// Inserts `c` into the strictly increasing `ids` unless it is there.
fn sorted_insert(ids: &mut Vec<usize>, c: usize)
    requires
        forall|i: int, j: int| 0 <= i < j < old(ids)@.len() ==> old(ids)@[i] < old(ids)@[j],
    ensures
        forall|i: int, j: int| 0 <= i < j < final(ids)@.len() ==> final(ids)@[i] < final(ids)@[j],
        final(ids)@.to_set() == old(ids)@.to_set().insert(c),
{
    let mut k: usize = 0;
    while k < ids.len() && ids[k] < c
        invariant
            k <= ids@.len(),
            forall|i: int| 0 <= i < k ==> ids@[i] < c,
        decreases ids@.len() - k,
    {
        k = k + 1;
    }
    let ghost before = ids@;
    if k < ids.len() && ids[k] == c {
        proof {
            assert(before.to_set().insert(c) =~= before.to_set());
        }
    } else {
        ids.insert(k, c);
        proof {
            assert(ids@ == before.insert(k as int, c));
            assert forall|i: int, j: int| 0 <= i < j < ids@.len() implies ids@[i] < ids@[j] by {
                if j <= k {
                } else if i < k {
                    assert(ids@[j] == before[j - 1]);
                } else if i == k {
                    assert(ids@[j] == before[j - 1]);
                    assert(before[k as int] >= c);
                    if j - 1 > k {
                        assert(before[k as int] < before[j - 1]);
                    }
                } else {
                    assert(ids@[i] == before[i - 1]);
                    assert(ids@[j] == before[j - 1]);
                }
            }
            assert(ids@.to_set() =~= before.to_set().insert(c)) by {
                assert forall|x: usize| ids@.to_set().contains(x) implies before.to_set().insert(c).contains(x) by {
                    let i = choose|i: int| 0 <= i < ids@.len() && ids@[i] == x;
                    if i < k {
                        assert(before[i] == x);
                    } else if i > k {
                        assert(before[i - 1] == x);
                    }
                }
                assert forall|x: usize| before.to_set().insert(c).contains(x) implies ids@.to_set().contains(x) by {
                    if x == c {
                        assert(ids@[k as int] == c);
                    } else {
                        let i = choose|i: int| 0 <= i < before.len() && before[i] == x;
                        if i < k {
                            assert(ids@[i] == x);
                        } else {
                            assert(ids@[i + 1] == x);
                        }
                    }
                }
            }
        }
    }
}


/// The cluster ids of the clustered nodes below `v`.
spec fn ids_below(m: Map<usize, usize>, v: int) -> Set<usize> {
    Set::new(|c: usize| exists|s: usize| s < v && m.contains_key(s) && #[trigger] m[s] == c)
}

/// The clustered nodes as search sources `(node, cluster)` in node order, and
/// the distinct cluster ids in increasing order.
#[verifier::spinoff_prover]
fn cluster_sources(m: &HashMap<usize, usize>, n: usize) -> (res: (Vec<(usize, usize)>, Vec<usize>))
    requires
        forall|s: usize| #[trigger] m@.contains_key(s) ==> s < n,
    ensures
        forall|k: int|
            0 <= k < res.0@.len() ==> m@.contains_key((#[trigger] res.0@[k]).0) && m@[res.0@[k].0] == res.0@[k].1
                && res.0@[k].0 < n,
        forall|k: int, l: int| 0 <= k < l < res.0@.len() ==> (#[trigger] res.0@[k]).0 < (#[trigger] res.0@[l]).0,
        forall|s: usize| #[trigger] m@.contains_key(s) ==> exists|k: int| 0 <= k < res.0@.len() && res.0@[k].0 == s,
        forall|i: int, j: int| 0 <= i < j < res.1@.len() ==> res.1@[i] < res.1@[j],
        res.1@.to_set() == m@.values(),
        res.0@.len() <= n,
{
    let mut sources: Vec<(usize, usize)> = Vec::new();
    let mut ids: Vec<usize> = Vec::new();
    let mut v: usize = 0;
    while v < n
        invariant
            v <= n,
            forall|s: usize| #[trigger] m@.contains_key(s) ==> s < n,
            forall|k: int|
                0 <= k < sources@.len() ==> m@.contains_key((#[trigger] sources@[k]).0) && m@[sources@[k].0]
                    == sources@[k].1 && sources@[k].0 < v,
            forall|k: int, l: int| 0 <= k < l < sources@.len() ==> (#[trigger] sources@[k]).0 < (#[trigger] sources@[l]).0,
            forall|s: usize| #[trigger] m@.contains_key(s) && s < v ==> exists|k: int| 0 <= k < sources@.len() && sources@[k].0 == s,
            forall|i: int, j: int| 0 <= i < j < ids@.len() ==> ids@[i] < ids@[j],
            ids@.to_set() == ids_below(m@, v as int),
            sources@.len() <= v,
        decreases n - v,
    {
        let ghost before = sources@;
        match m.get(&v) {
            Some(c) => {
                let c = *c;
                sources.push((v, c));
                sorted_insert(&mut ids, c);
                proof {
                    assert(ids_below(m@, v + 1) =~= ids_below(m@, v as int).insert(c)) by {
                        assert forall|x: usize| ids_below(m@, v + 1).contains(x) implies ids_below(m@, v as int).insert(c).contains(x) by {
                            let s = choose|s: usize| s < v + 1 && m@.contains_key(s) && #[trigger] m@[s] == x;
                            if s < v {
                                assert(ids_below(m@, v as int).contains(x));
                            }
                        }
                        assert(m@[v] == c);
                    }
                    assert forall|s: usize| #[trigger] m@.contains_key(s) && s < v + 1 implies exists|k: int|
                        0 <= k < sources@.len() && sources@[k].0 == s by {
                        if s < v {
                            let k = choose|k: int| 0 <= k < before.len() && before[k].0 == s;
                            assert(sources@[k] == before[k]);
                        } else {
                            assert(sources@[before.len() as int].0 == s);
                        }
                    }
                }
            },
            None => {
                proof {
                    assert(ids_below(m@, v + 1) =~= ids_below(m@, v as int)) by {
                        assert forall|x: usize| ids_below(m@, v + 1).contains(x) implies ids_below(m@, v as int).contains(x) by {
                            let s = choose|s: usize| s < v + 1 && m@.contains_key(s) && #[trigger] m@[s] == x;
                            assert(s != v);
                        }
                    }
                }
            },
        }
        v = v + 1;
    }
    proof {
        assert(ids_below(m@, n as int) =~= m@.values()) by {
            assert forall|x: usize| m@.values().contains(x) implies ids_below(m@, n as int).contains(x) by {
                let s = choose|s: usize| m@.contains_key(s) && m@[s] == x;
                assert(s < n);
            }
        }
    }
    let res = (sources, ids);
    proof {
        assert forall|s: usize| #[trigger] m@.contains_key(s) implies exists|k: int| 0 <= k < res.0@.len() && res.0@[k].0 == s by {
            assert(s < n);
            let k = choose|k: int| 0 <= k < res.0@.len() && res.0@[k].0 == s;
        }
    }
    res
}


/// The position of each id in `ids`.
fn id_positions(ids: &Vec<usize>) -> (pos: HashMap<usize, usize>)
    requires
        forall|i: int, j: int| 0 <= i < j < ids@.len() ==> ids@[i] < ids@[j],
    ensures
        forall|i: int| 0 <= i < ids@.len() ==> pos@.contains_key(#[trigger] ids@[i]) && pos@[ids@[i]] == i,
        forall|c: usize| #[trigger] pos@.contains_key(c) ==> pos@[c] < ids@.len() && ids@[pos@[c] as int] == c,
{
    let mut pos: HashMap<usize, usize> = HashMap::new();
    let mut p: usize = 0;
    while p < ids.len()
        invariant
            p <= ids@.len(),
            forall|i: int, j: int| 0 <= i < j < ids@.len() ==> ids@[i] < ids@[j],
            forall|i: int| 0 <= i < p ==> pos@.contains_key(#[trigger] ids@[i]) && pos@[ids@[i]] == i,
            forall|c: usize| #[trigger] pos@.contains_key(c) ==> pos@[c] < p && ids@[pos@[c] as int] == c,
        decreases ids@.len() - p,
    {
        pos.insert(ids[p], p);
        proof {
            assert forall|i: int| 0 <= i < p + 1 implies pos@.contains_key(#[trigger] ids@[i]) && pos@[ids@[i]] == i by {
                if i < p {
                    assert(ids@[i] < ids@[p as int]);
                }
            }
        }
        p = p + 1;
    }
    pos
}

/// The number of buildings of each cluster of `ids` and the sums of their
/// coordinates.
#[verifier::spinoff_prover]
fn cluster_totals(graph: &BuiltGraph, m: &HashMap<usize, usize>, ids: &Vec<usize>, pos: &HashMap<usize, usize>) -> (totals: Vec<(usize, i128, i128)>)
    requires
        forall|s: usize| #[trigger] m@.contains_key(s) ==> s < graph_nodes(graph.graph).len(),
        ids@.to_set() == m@.values(),
        forall|i: int, j: int| 0 <= i < j < ids@.len() ==> ids@[i] < ids@[j],
        forall|i: int| 0 <= i < ids@.len() ==> pos@.contains_key(#[trigger] ids@[i]) && pos@[ids@[i]] == i,
        forall|c: usize| #[trigger] pos@.contains_key(c) ==> pos@[c] < ids@.len() && ids@[pos@[c] as int] == c,
    ensures
        totals@.len() == ids@.len(),
        forall|p: int|
            0 <= p < ids@.len() ==> {
                let nodes = graph_nodes(graph.graph);
                let n = nodes.len();
                &&& (#[trigger] totals@[p]).0 == member_count(nodes, m@, ids@[p], n)
                &&& totals@[p].1 == member_x_sum(nodes, m@, ids@[p], n)
                &&& totals@[p].2 == member_y_sum(nodes, m@, ids@[p], n)
                &&& totals@[p].0 * i64::MIN <= totals@[p].1 <= totals@[p].0 * i64::MAX
                &&& totals@[p].0 * i64::MIN <= totals@[p].2 <= totals@[p].0 * i64::MAX
            },
{
    let ghost nodes = graph_nodes(graph.graph);
    let n = graph_node_count(&graph.graph);
    let mut totals: Vec<(usize, i128, i128)> = Vec::new();
    let mut p: usize = 0;
    while p < ids.len()
        invariant
            p <= ids@.len(),
            totals@.len() == p,
            forall|q: int| 0 <= q < p ==> #[trigger] totals@[q] == (0usize, 0i128, 0i128),
        decreases ids@.len() - p,
    {
        totals.push((0, 0, 0));
        p = p + 1;
    }
    let mut v: usize = 0;
    while v < n
        invariant
            v <= n,
            n == nodes.len(),
            n <= u32::MAX,
            nodes == graph_nodes(graph.graph),
            totals@.len() == ids@.len(),
            ids@.to_set() == m@.values(),
            forall|i: int, j: int| 0 <= i < j < ids@.len() ==> ids@[i] < ids@[j],
            forall|c: usize| #[trigger] pos@.contains_key(c) ==> pos@[c] < ids@.len() && ids@[pos@[c] as int] == c,
            forall|i: int| 0 <= i < ids@.len() ==> pos@.contains_key(#[trigger] ids@[i]) && pos@[ids@[i]] == i,
            forall|q: int|
                0 <= q < ids@.len() ==> {
                    &&& (#[trigger] totals@[q]).0 == member_count(nodes, m@, ids@[q], v as nat)
                    &&& totals@[q].1 == member_x_sum(nodes, m@, ids@[q], v as nat)
                    &&& totals@[q].2 == member_y_sum(nodes, m@, ids@[q], v as nat)
                    &&& totals@[q].0 <= v
                    &&& totals@[q].0 * i64::MIN <= totals@[q].1 <= totals@[q].0 * i64::MAX
                    &&& totals@[q].0 * i64::MIN <= totals@[q].2 <= totals@[q].0 * i64::MAX
                },
        decreases n - v,
    {
        let node = match crate::petgraph_specs::graph_node_weight(&graph.graph, v) {
            Some(w) => w,
            None => {
                proof {
                    assert(false);
                }
                return totals;
            },
        };
        let ghost before = totals@;
        match m.get(&v) {
            Some(c) => {
                let c = *c;
                proof {
                    assert(m@.values().contains(c));
                    assert(ids@.to_set().contains(c));
                    let i = choose|i: int| 0 <= i < ids@.len() && ids@[i] == c;
                    assert(pos@.contains_key(ids@[i]));
                }
                let p = match pos.get(&c) {
                    Some(p) => *p,
                    None => {
                        proof {
                            assert(false);
                        }
                        return totals;
                    },
                };
                match node {
                    Node::Building { x, y, .. } => {
                        let (cnt, sx, sy) = totals[p];
                        totals.set(p, (cnt + 1, sx + *x as i128, sy + *y as i128));
                    },
                    Node::Connector { .. } => {},
                }
                proof {
                    assert forall|q: int| 0 <= q < ids@.len() implies {
                        &&& (#[trigger] totals@[q]).0 == member_count(nodes, m@, ids@[q], (v + 1) as nat)
                        &&& totals@[q].1 == member_x_sum(nodes, m@, ids@[q], (v + 1) as nat)
                        &&& totals@[q].2 == member_y_sum(nodes, m@, ids@[q], (v + 1) as nat)
                        &&& totals@[q].0 <= v + 1
                        &&& totals@[q].0 * i64::MIN <= totals@[q].1 <= totals@[q].0 * i64::MAX
                        &&& totals@[q].0 * i64::MIN <= totals@[q].2 <= totals@[q].0 * i64::MAX
                    } by {
                        if q != p {
                            assert(ids@[q] != c);
                            assert(totals@[q] == before[q]);
                        }
                    }
                }
            },
            None => {},
        }
        v = v + 1;
    }
    totals
}

/// `sum / count` rounded down, for a mean of `count` values of `i64`.
fn floor_mean(sum: i128, count: usize) -> (r: i64)
    requires
        count > 0,
        count * i64::MIN <= sum <= count * i64::MAX,
    ensures
        r == (sum as int) / (count as int),
{
    let c: u128 = count as u128;
    if sum >= 0 {
        let q: u128 = (sum as u128) / c;
        proof {
            assert(q <= i64::MAX) by (nonlinear_arith)
                requires
                    q == (sum as int) / (count as int),
                    sum <= count * i64::MAX,
                    count > 0,
                    sum >= 0,
            ;
        }
        q as i64
    } else {
        let mag: u128 = (-sum) as u128;
        let q: u128 = (mag + c - 1) / c;
        proof {
            assert(-(q as int) == (sum as int) / (count as int)) by (nonlinear_arith)
                requires
                    q == (mag + c - 1) as int / (c as int),
                    mag == -sum,
                    c == count,
                    count > 0,
                    sum < 0,
            ;
            assert((sum as int) / (count as int) >= i64::MIN) by (nonlinear_arith)
                requires
                    count * i64::MIN <= sum,
                    count > 0,
            ;
        }
        (-(q as i128)) as i64
    }
}


/// `d` is the least cost (access links counted) of a walk from a clustered
/// node of `m` to `t`.
pub open spec fn cluster_distance(es: Seq<(usize, usize, Edge)>, m: Map<usize, usize>, t: int, d: int) -> bool {
    &&& exists|s: usize, p: Seq<int>|
        m.contains_key(s) && #[trigger] is_walk(es, s as int, t, p) && walk_cost(es, p, true) == d
    &&& forall|s: usize, p: Seq<int>|
        m.contains_key(s) && #[trigger] is_walk(es, s as int, t, p) ==> walk_cost(es, p, true) >= d
}

/// A node of cluster `l` reaches `t` by a walk of cost `d`.
pub open spec fn reached_by_cluster(es: Seq<(usize, usize, Edge)>, m: Map<usize, usize>, t: int, l: usize, d: int) -> bool {
    exists|s: usize, p: Seq<int>|
        m.contains_key(s) && m[s] == l && #[trigger] is_walk(es, s as int, t, p) && walk_cost(es, p, true) == d
}

/// `lab` gives each of the `n` nodes the least cost of reaching it from a
/// clustered node and a cluster that reaches it at that cost, or `None` when
/// no clustered node reaches it; every clustered node keeps its own cluster.
pub open spec fn nearest_labeling(es: Seq<(usize, usize, Edge)>, m: Map<usize, usize>, n: nat, lab: Seq<Option<(usize, u128)>>) -> bool {
    &&& lab.len() == n
    &&& forall|t: int|
        0 <= t < n ==> match #[trigger] lab[t] {
            Some((l, d)) => cluster_distance(es, m, t, d as int) && reached_by_cluster(es, m, t, l, d as int),
            None => forall|s: usize, p: Seq<int>| m.contains_key(s) ==> !#[trigger] is_walk(es, s as int, t, p),
        }
    &&& forall|s: usize| #[trigger] m.contains_key(s) ==> lab[s as int] == Some((m[s], 0u128))
}

/// Edge `e` joins a node labelled with cluster `a` to one labelled with
/// cluster `b` (`a < b`), and `d` is the road distance between the clusters
/// through it: the cost of reaching each end plus the edge's own.
pub open spec fn crossing(es: Seq<(usize, usize, Edge)>, lab: Seq<Option<(usize, u128)>>, e: int, a: usize, b: usize, d: int) -> bool {
    es[e].0 < lab.len() && es[e].1 < lab.len() && match (lab[es[e].0 as int], lab[es[e].1 as int]) {
        (Some((cu, du)), Some((cv, dv))) => {
            &&& cu != cv
            &&& (if cu < cv { (cu, cv) } else { (cv, cu) }) == (a, b)
            &&& d == du + edge_cost(es[e].2, true) + dv
        },
        _ => false,
    }
}

/// The nodes of the reduced graph: the cluster ids of `m` in increasing
/// order, each with its building count and centroid.
pub open spec fn reduced_nodes_match(nodes: Seq<Node>, m: Map<usize, usize>, rn: Seq<ReducedClusterNode>) -> bool {
    &&& forall|i: int, j: int| 0 <= i < j < rn.len() ==> (#[trigger] rn[i]).cluster_id < (#[trigger] rn[j]).cluster_id
    &&& forall|i: int| 0 <= i < rn.len() ==> m.values().contains((#[trigger] rn[i]).cluster_id)
    &&& forall|c: usize| #[trigger] m.values().contains(c) ==> exists|i: int| 0 <= i < rn.len() && rn[i].cluster_id == c
    &&& forall|i: int|
        0 <= i < rn.len() ==> {
            let c = (#[trigger] rn[i]).cluster_id;
            let count = member_count(nodes, m, c, nodes.len());
            &&& rn[i].size == count
            &&& rn[i].centroid_x == centroid(member_x_sum(nodes, m, c, nodes.len()), count)
            &&& rn[i].centroid_y == centroid(member_y_sum(nodes, m, c, nodes.len()), count)
        }
}

/// `d` is the least cost (access links counted) of a walk from a node of
/// cluster `a` to a node of cluster `b`: the road distance between the two
/// clusters.
pub open spec fn cluster_gap(es: Seq<(usize, usize, Edge)>, m: Map<usize, usize>, a: usize, b: usize, d: int) -> bool {
    &&& exists|s: usize, t: usize, p: Seq<int>|
        m.contains_key(s) && m[s] == a && m.contains_key(t) && m[t] == b && #[trigger] is_walk(es, s as int, t as int, p)
            && walk_cost(es, p, true) == d
    &&& forall|s: usize, t: usize, p: Seq<int>|
        m.contains_key(s) && m[s] == a && m.contains_key(t) && m[t] == b && #[trigger] is_walk(es, s as int, t as int, p)
            ==> walk_cost(es, p, true) >= d
}

/// `edge` joins two clusters, lower first, whose regions meet across an edge
/// of the spatial graph under `lab`, and carries the road distance between
/// them.
pub open spec fn reduced_edge_ok(
    es: Seq<(usize, usize, Edge)>,
    m: Map<usize, usize>,
    lab: Seq<Option<(usize, u128)>>,
    rn: Seq<ReducedClusterNode>,
    edge: (usize, usize, ReducedClusterEdge),
) -> bool {
    let a = rn[edge.0 as int].cluster_id;
    let b = rn[edge.1 as int].cluster_id;
    &&& edge.0 < edge.1 < rn.len()
    &&& exists|e: int, d: int| 0 <= e < es.len() && #[trigger] crossing(es, lab, e, a, b, d)
    &&& cluster_gap(es, m, a, b, edge.2.distance_mm as int)
}

/// The edges of the reduced graph under the labelling `lab`: one edge, from
/// the lower cluster to the higher, for each pair of clusters whose regions
/// some edge of the spatial graph crosses between, carrying the road
/// distance between the two clusters.
pub open spec fn reduced_edges_match(
    es: Seq<(usize, usize, Edge)>,
    m: Map<usize, usize>,
    lab: Seq<Option<(usize, u128)>>,
    rn: Seq<ReducedClusterNode>,
    re: Seq<(usize, usize, ReducedClusterEdge)>,
) -> bool {
    &&& forall|j: int| 0 <= j < re.len() ==> reduced_edge_ok(es, m, lab, rn, #[trigger] re[j])
    &&& forall|j: int, k: int| 0 <= j < k < re.len() ==> ((#[trigger] re[j]).0, re[j].1) != ((#[trigger] re[k]).0, re[k].1)
    &&& forall|e: int, a: usize, b: usize, d: int|
        0 <= e < es.len() && #[trigger] crossing(es, lab, e, a, b, d) ==> exists|j: int|
            0 <= j < re.len() && rn[re[j].0 as int].cluster_id == a && rn[re[j].1 as int].cluster_id == b
}

/// A crossing between the regions of clusters `a` and `b` is a walk from a
/// node of `a` to a node of `b` of the crossing's cost.
proof fn lemma_crossing_walk(
    es: Seq<(usize, usize, Edge)>,
    m: Map<usize, usize>,
    lab: Seq<Option<(usize, u128)>>,
    e: int,
    a: usize,
    b: usize,
    d: int,
)
    requires
        nearest_labeling(es, m, lab.len(), lab),
        0 <= e < es.len(),
        crossing(es, lab, e, a, b, d),
    ensures
        exists|s: usize, t: usize, p: Seq<int>|
            m.contains_key(s) && m[s] == a && m.contains_key(t) && m[t] == b && #[trigger] is_walk(es, s as int, t as int, p)
                && walk_cost(es, p, true) == d,
{
    let u = es[e].0 as int;
    let v = es[e].1 as int;
    let (cu, du) = lab[u]->Some_0;
    let (cv, dv) = lab[v]->Some_0;
    assert(reached_by_cluster(es, m, u, cu, du as int));
    assert(reached_by_cluster(es, m, v, cv, dv as int));
    let (su, pu) = choose|s: usize, p: Seq<int>|
        m.contains_key(s) && m[s] == cu && #[trigger] is_walk(es, s as int, u, p) && walk_cost(es, p, true) == du;
    let (sv, pv) = choose|s: usize, p: Seq<int>|
        m.contains_key(s) && m[s] == cv && #[trigger] is_walk(es, s as int, v, p) && walk_cost(es, p, true) == dv;
    lemma_walk_push(es, su as int, u, pu, e, true);
    let q1 = pu.push(e);
    assert(is_walk(es, su as int, v, q1));
    law_walk_reverse(es, sv as int, v, pv, true);
    let q2 = pv.reverse();
    lemma_walk_concat(es, su as int, q1, q2);
    let w = q1 + q2;
    assert(is_walk(es, su as int, sv as int, w));
    assert(walk_cost(es, w, true) == d);
    if cu == a {
        assert(m.contains_key(su) && m[su] == a && m.contains_key(sv) && m[sv] == b && is_walk(es, su as int, sv as int, w));
    } else {
        law_walk_reverse(es, su as int, sv as int, w, true);
        assert(m.contains_key(sv) && m[sv] == a && m.contains_key(su) && m[su] == b
            && is_walk(es, sv as int, su as int, w.reverse()));
    }
}

/// The road distance between clusters `a` and `b`, given `srcs`, the
/// clustered nodes of `m` with their clusters in node order, and `bound`, the
/// cost of some walk between them: a search from the nodes of `a`, stopped
/// past `bound`, and the least cost it finds at a node of `b`.
#[verifier::spinoff_prover]
fn gap_between(
    graph: &BuiltGraph,
    srcs: &Vec<(usize, usize)>,
    a: usize,
    b: usize,
    bound: u128,
    Ghost(m): Ghost<Map<usize, usize>>,
) -> (d: u128)
    requires
        forall|k: int|
            0 <= k < srcs@.len() ==> m.contains_key((#[trigger] srcs@[k]).0) && m[srcs@[k].0] == srcs@[k].1 && srcs@[k].0
                < graph_nodes(graph.graph).len(),
        forall|k: int, l: int| 0 <= k < l < srcs@.len() ==> (#[trigger] srcs@[k]).0 < (#[trigger] srcs@[l]).0,
        forall|s: usize| #[trigger] m.contains_key(s) ==> exists|k: int| 0 <= k < srcs@.len() && srcs@[k].0 == s,
        exists|s: usize, t: usize, p: Seq<int>|
            m.contains_key(s) && m[s] == a && m.contains_key(t) && m[t] == b && #[trigger] is_walk(
                graph_edges(graph.graph),
                s as int,
                t as int,
                p,
            ) && walk_cost(graph_edges(graph.graph), p, true) <= bound,
    ensures
        cluster_gap(graph_edges(graph.graph), m, a, b, d as int),
{
    let ghost es = graph_edges(graph.graph);
    let ghost n = graph_nodes(graph.graph).len();
    // the nodes of `a`
    let mut from: Vec<(usize, usize)> = Vec::new();
    let mut i: usize = 0;
    while i < srcs.len()
        invariant
            i <= srcs@.len(),
            forall|k: int|
                0 <= k < srcs@.len() ==> m.contains_key((#[trigger] srcs@[k]).0) && m[srcs@[k].0] == srcs@[k].1 && srcs@[k].0 < n,
            forall|k: int, l: int| 0 <= k < l < srcs@.len() ==> (#[trigger] srcs@[k]).0 < (#[trigger] srcs@[l]).0,
            forall|k: int|
                0 <= k < from@.len() ==> m.contains_key((#[trigger] from@[k]).0) && m[from@[k].0] == a && from@[k].1 == a
                    && from@[k].0 < n,
            forall|k: int| 0 <= k < from@.len() ==> exists|x: int| 0 <= x < i && srcs@[x].0 == (#[trigger] from@[k]).0,
            forall|k: int, l: int| 0 <= k < l < from@.len() ==> (#[trigger] from@[k]).0 < (#[trigger] from@[l]).0,
            forall|x: int| 0 <= x < i && (#[trigger] srcs@[x]).1 == a ==> exists|k: int| 0 <= k < from@.len() && from@[k].0 == srcs@[x].0,
        decreases srcs@.len() - i,
    {
        let ghost before = from@;
        if srcs[i].1 == a {
            from.push((srcs[i].0, a));
            proof {
                assert forall|k: int, l: int| 0 <= k < l < from@.len() implies (#[trigger] from@[k]).0 < (#[trigger] from@[l]).0 by {
                    if l == before.len() {
                        let x = choose|x: int| 0 <= x < i && srcs@[x].0 == before[k].0;
                        assert(srcs@[x].0 < srcs@[i as int].0);
                    } else {
                        assert(from@[k] == before[k] && from@[l] == before[l]);
                    }
                }
                assert forall|k: int| 0 <= k < from@.len() implies exists|x: int| 0 <= x < i + 1 && srcs@[x].0 == (#[trigger] from@[k]).0 by {
                    if k < before.len() {
                        assert(from@[k] == before[k]);
                        let x = choose|x: int| 0 <= x < i && srcs@[x].0 == before[k].0;
                    } else {
                        assert(srcs@[i as int].0 == from@[k].0);
                    }
                }
                assert forall|x: int| 0 <= x < i + 1 && (#[trigger] srcs@[x]).1 == a implies exists|k: int|
                    0 <= k < from@.len() && from@[k].0 == srcs@[x].0 by {
                    if x < i {
                        let k = choose|k: int| 0 <= k < before.len() && before[k].0 == srcs@[x].0;
                        assert(from@[k] == before[k]);
                    } else {
                        assert(from@[before.len() as int].0 == srcs@[x].0);
                    }
                }
            }
        }
        i = i + 1;
    }
    let dist = nearest_sources(&graph.graph, &from, true, Some(bound));
    // the least cost found at a node of `b`
    let mut best: Option<u128> = None;
    let mut k: usize = 0;
    while k < srcs.len()
        invariant
            k <= srcs@.len(),
            dist@.len() == n,
            forall|x: int|
                0 <= x < srcs@.len() ==> m.contains_key((#[trigger] srcs@[x]).0) && m[srcs@[x].0] == srcs@[x].1 && srcs@[x].0 < n,
            best is None ==> forall|x: int| 0 <= x < k && (#[trigger] srcs@[x]).1 == b ==> dist@[srcs@[x].0 as int] is None,
            best is Some ==> exists|x: int|
                0 <= x < k && (#[trigger] srcs@[x]).1 == b && dist@[srcs@[x].0 as int] is Some
                    && dist@[srcs@[x].0 as int]->Some_0.1 == best->Some_0,
            best is Some ==> forall|x: int|
                0 <= x < k && (#[trigger] srcs@[x]).1 == b && dist@[srcs@[x].0 as int] is Some ==> best->Some_0
                    <= dist@[srcs@[x].0 as int]->Some_0.1,
        decreases srcs@.len() - k,
    {
        if srcs[k].1 == b {
            match dist[srcs[k].0] {
                Some((_, y)) => {
                    let better = match best {
                        Some(x) => y < x,
                        None => true,
                    };
                    if better {
                        best = Some(y);
                    }
                },
                None => {},
            }
        }
        k = k + 1;
    }
    proof {
        let (s0, t0, p0) = choose|s: usize, t: usize, p: Seq<int>|
            m.contains_key(s) && m[s] == a && m.contains_key(t) && m[t] == b && #[trigger] is_walk(es, s as int, t as int, p)
                && walk_cost(es, p, true) <= bound;
        let x0 = choose|x: int| 0 <= x < srcs@.len() && srcs@[x].0 == t0;
        let xs = choose|x: int| 0 <= x < srcs@.len() && srcs@[x].0 == s0;
        assert(srcs@[xs].1 == a);
        let ks = choose|kk: int| 0 <= kk < from@.len() && from@[kk].0 == srcs@[xs].0;
        assert(is_walk(es, from@[ks].0 as int, t0 as int, p0));
        assert(srcs@[x0].1 == b);
        assert(dist@[t0 as int] is Some);
        assert(best is Some);
        let d = best->Some_0;
        assert(d <= dist@[t0 as int]->Some_0.1);
        let xb = choose|x: int|
            0 <= x < srcs@.len() && (#[trigger] srcs@[x]).1 == b && dist@[srcs@[x].0 as int] is Some
                && dist@[srcs@[x].0 as int]->Some_0.1 == d;
        let tb = srcs@[xb].0;
        assert(is_distance_from(es, from@, tb as int, d as int, true));
        let (kb, pb) = choose|kk: int, p: Seq<int>|
            0 <= kk < from@.len() && #[trigger] is_walk(es, from@[kk].0 as int, tb as int, p) && walk_cost(es, p, true) == d;
        assert(m.contains_key(from@[kb].0) && m[from@[kb].0] == a && m.contains_key(tb) && m[tb] == b
            && is_walk(es, from@[kb].0 as int, tb as int, pb));
        assert forall|s: usize, t: usize, p: Seq<int>|
            m.contains_key(s) && m[s] == a && m.contains_key(t) && m[t] == b && #[trigger] is_walk(es, s as int, t as int, p)
            implies walk_cost(es, p, true) >= d by {
            let xt = choose|x: int| 0 <= x < srcs@.len() && srcs@[x].0 == t;
            let xs2 = choose|x: int| 0 <= x < srcs@.len() && srcs@[x].0 == s;
            assert(srcs@[xs2].1 == a);
            let ks2 = choose|kk: int| 0 <= kk < from@.len() && from@[kk].0 == srcs@[xs2].0;
            assert(is_walk(es, from@[ks2].0 as int, t as int, p));
            assert(srcs@[xt].1 == b);
            if dist@[t as int] is None {
                assert(!within(walk_cost(es, p, true) as int, Some(bound)));
            }
        }
    }
    best.unwrap()
}

/// The road distance between the clusters of each pair of `pairs`, in place
/// of the pair's crossing distance.
#[verifier::spinoff_prover]
fn pair_gaps(
    graph: &BuiltGraph,
    srcs: &Vec<(usize, usize)>,
    ids: &Vec<usize>,
    pairs: &Vec<(usize, usize, u128)>,
    Ghost(m): Ghost<Map<usize, usize>>,
    Ghost(lab): Ghost<Seq<Option<(usize, u128)>>>,
) -> (gaps: Vec<(usize, usize, u128)>)
    requires
        nearest_labeling(graph_edges(graph.graph), m, lab.len(), lab),
        forall|k: int|
            0 <= k < srcs@.len() ==> m.contains_key((#[trigger] srcs@[k]).0) && m[srcs@[k].0] == srcs@[k].1 && srcs@[k].0
                < graph_nodes(graph.graph).len(),
        forall|k: int, l: int| 0 <= k < l < srcs@.len() ==> (#[trigger] srcs@[k]).0 < (#[trigger] srcs@[l]).0,
        forall|s: usize| #[trigger] m.contains_key(s) ==> exists|k: int| 0 <= k < srcs@.len() && srcs@[k].0 == s,
        forall|j: int|
            0 <= j < pairs@.len() ==> {
                let a = ids@[(#[trigger] pairs@[j]).0 as int];
                let b = ids@[pairs@[j].1 as int];
                &&& pairs@[j].0 < pairs@[j].1 < ids@.len()
                &&& exists|e: int| 0 <= e < graph_edges(graph.graph).len() && #[trigger] crossing(graph_edges(graph.graph), lab, e, a, b, pairs@[j].2 as int)
            },
    ensures
        gaps@.len() == pairs@.len(),
        forall|j: int|
            0 <= j < gaps@.len() ==> (#[trigger] gaps@[j]).0 == pairs@[j].0 && gaps@[j].1 == pairs@[j].1 && cluster_gap(
                graph_edges(graph.graph),
                m,
                ids@[pairs@[j].0 as int],
                ids@[pairs@[j].1 as int],
                gaps@[j].2 as int,
            ),
{
    let ghost es = graph_edges(graph.graph);
    let mut gaps: Vec<(usize, usize, u128)> = Vec::new();
    let mut j: usize = 0;
    while j < pairs.len()
        invariant
            j <= pairs@.len(),
            es == graph_edges(graph.graph),
            nearest_labeling(es, m, lab.len(), lab),
            forall|k: int|
                0 <= k < srcs@.len() ==> m.contains_key((#[trigger] srcs@[k]).0) && m[srcs@[k].0] == srcs@[k].1 && srcs@[k].0
                    < graph_nodes(graph.graph).len(),
            forall|k: int, l: int| 0 <= k < l < srcs@.len() ==> (#[trigger] srcs@[k]).0 < (#[trigger] srcs@[l]).0,
            forall|s: usize| #[trigger] m.contains_key(s) ==> exists|k: int| 0 <= k < srcs@.len() && srcs@[k].0 == s,
            forall|jj: int|
                0 <= jj < pairs@.len() ==> {
                    let a = ids@[(#[trigger] pairs@[jj]).0 as int];
                    let b = ids@[pairs@[jj].1 as int];
                    &&& pairs@[jj].0 < pairs@[jj].1 < ids@.len()
                    &&& exists|e: int| 0 <= e < es.len() && #[trigger] crossing(es, lab, e, a, b, pairs@[jj].2 as int)
                },
            gaps@.len() == j,
            forall|jj: int|
                0 <= jj < j ==> (#[trigger] gaps@[jj]).0 == pairs@[jj].0 && gaps@[jj].1 == pairs@[jj].1 && cluster_gap(
                    es,
                    m,
                    ids@[pairs@[jj].0 as int],
                    ids@[pairs@[jj].1 as int],
                    gaps@[jj].2 as int,
                ),
        decreases pairs@.len() - j,
    {
        let (pa, pb, bound) = pairs[j];
        proof {
            assert(pairs@[j as int].0 < pairs@[j as int].1 < ids@.len());
        }
        let a = ids[pa];
        let b = ids[pb];
        proof {
            let e = choose|e: int| 0 <= e < es.len() && #[trigger] crossing(es, lab, e, a, b, bound as int);
            lemma_crossing_walk(es, m, lab, e, a, b, bound as int);
        }
        let g = gap_between(graph, srcs, a, b, bound, Ghost(m));
        let ghost before = gaps@;
        gaps.push((pa, pb, g));
        proof {
            assert forall|jj: int| 0 <= jj < j + 1 implies (#[trigger] gaps@[jj]).0 == pairs@[jj].0 && gaps@[jj].1 == pairs@[jj].1
                && cluster_gap(es, m, ids@[pairs@[jj].0 as int], ids@[pairs@[jj].1 as int], gaps@[jj].2 as int) by {
                if jj < j {
                    assert(gaps@[jj] == before[jj]);
                }
            }
        }
        j = j + 1;
    }
    gaps
}

/// The key of a pair of positions below `2^32`.
spec fn pair_key(a: int, b: int) -> int {
    a * 0x1_0000_0000 + b
}

/// `p` joins the clusters at positions `p.0 < p.1` of `ids` at the least road
/// distance of a crossing between them among the edges below `bound`.
spec fn pair_ok(
    es: Seq<(usize, usize, Edge)>,
    lab: Seq<Option<(usize, u128)>>,
    ids: Seq<usize>,
    bound: int,
    p: (usize, usize, u128),
) -> bool {
    let a = ids[p.0 as int];
    let b = ids[p.1 as int];
    &&& p.0 < p.1 < ids.len()
    &&& exists|x: int| 0 <= x < bound && #[trigger] crossing(es, lab, x, a, b, p.2 as int)
    &&& forall|x: int, d: int| 0 <= x < bound && #[trigger] crossing(es, lab, x, a, b, d) ==> p.2 <= d
}

/// Every crossing among the edges below `bound` has its pair of clusters in
/// `pairs`.
spec fn pairs_cover(
    es: Seq<(usize, usize, Edge)>,
    lab: Seq<Option<(usize, u128)>>,
    ids: Seq<usize>,
    pairs: Seq<(usize, usize, u128)>,
    bound: int,
) -> bool {
    forall|x: int, a: usize, b: usize, d: int|
        0 <= x < bound && #[trigger] crossing(es, lab, x, a, b, d) ==> exists|j: int|
            0 <= j < pairs.len() && ids[pairs[j].0 as int] == a && ids[pairs[j].1 as int] == b
}

/// No two entries of `pairs` join the same positions.
spec fn pairs_distinct(pairs: Seq<(usize, usize, u128)>) -> bool {
    forall|j: int, k: int| 0 <= j < k < pairs.len() ==> ((#[trigger] pairs[j]).0, pairs[j].1) != ((#[trigger] pairs[k]).0, pairs[k].1)
}

/// `index` maps the key of each pair's positions to its place in `pairs`.
spec fn index_ok(index: Map<u64, usize>, pairs: Seq<(usize, usize, u128)>) -> bool {
    &&& forall|j: int|
        0 <= j < pairs.len() ==> index.contains_key(pair_key((#[trigger] pairs[j]).0 as int, pairs[j].1 as int) as u64)
            && index[pair_key(pairs[j].0 as int, pairs[j].1 as int) as u64] == j
    &&& forall|key: u64| #[trigger] index.contains_key(key) ==> index[key] < pairs.len()
        && pair_key(pairs[index[key] as int].0 as int, pairs[index[key] as int].1 as int) == key
}

/// The pairs found among the edges below `bound`.
spec fn boundary_state(
    es: Seq<(usize, usize, Edge)>,
    lab: Seq<Option<(usize, u128)>>,
    ids: Seq<usize>,
    pairs: Seq<(usize, usize, u128)>,
    index: Map<u64, usize>,
    bound: int,
) -> bool {
    &&& pairs.len() <= bound
    &&& forall|j: int| 0 <= j < pairs.len() ==> pair_ok(es, lab, ids, bound, #[trigger] pairs[j])
    &&& pairs_distinct(pairs)
    &&& pairs_cover(es, lab, ids, pairs, bound)
    &&& index_ok(index, pairs)
}

/// Equal ids sit at equal positions of a strictly increasing sequence.
proof fn lemma_increasing_injective(ids: Seq<usize>, i: int, j: int)
    requires
        forall|a: int, b: int| 0 <= a < b < ids.len() ==> ids[a] < ids[b],
        0 <= i < ids.len(),
        0 <= j < ids.len(),
        ids[i] == ids[j],
    ensures
        i == j,
{
    if i < j {
        assert(ids[i] < ids[j]);
    } else if j < i {
        assert(ids[j] < ids[i]);
    }
}

/// An edge that crosses between no clusters changes nothing.
proof fn lemma_boundary_skip(
    es: Seq<(usize, usize, Edge)>,
    lab: Seq<Option<(usize, u128)>>,
    ids: Seq<usize>,
    pairs: Seq<(usize, usize, u128)>,
    index: Map<u64, usize>,
    e: int,
)
    requires
        boundary_state(es, lab, ids, pairs, index, e),
        e >= 0,
        forall|a: usize, b: usize, d: int| !#[trigger] crossing(es, lab, e, a, b, d),
    ensures
        boundary_state(es, lab, ids, pairs, index, e + 1),
{
    assert forall|j: int| 0 <= j < pairs.len() implies pair_ok(es, lab, ids, e + 1, #[trigger] pairs[j]) by {
        assert(pair_ok(es, lab, ids, e, pairs[j]));
        let a = ids[pairs[j].0 as int];
        let b = ids[pairs[j].1 as int];
        let x0 = choose|x: int| 0 <= x < e && #[trigger] crossing(es, lab, x, a, b, pairs[j].2 as int);
        assert(crossing(es, lab, x0, a, b, pairs[j].2 as int));
    }
    assert forall|x: int, a: usize, b: usize, d: int|
        0 <= x < e + 1 && #[trigger] crossing(es, lab, x, a, b, d) implies exists|j: int|
            0 <= j < pairs.len() && ids[pairs[j].0 as int] == a && ids[pairs[j].1 as int] == b by {
        assert(x < e);
    }
}

/// A crossing between clusters whose pair is already known keeps the lesser
/// distance.
#[verifier::spinoff_prover]
proof fn lemma_boundary_lower(
    es: Seq<(usize, usize, Edge)>,
    lab: Seq<Option<(usize, u128)>>,
    ids: Seq<usize>,
    pairs: Seq<(usize, usize, u128)>,
    pairs2: Seq<(usize, usize, u128)>,
    index: Map<u64, usize>,
    e: int,
    j: int,
    ia: usize,
    ib: usize,
    road: u128,
)
    requires
        boundary_state(es, lab, ids, pairs, index, e),
        e >= 0,
        forall|a: int, b: int| 0 <= a < b < ids.len() ==> ids[a] < ids[b],
        0 <= j < pairs.len(),
        pairs[j].0 == ia,
        pairs[j].1 == ib,
        crossing(es, lab, e, ids[ia as int], ids[ib as int], road as int),
        forall|a2: usize, b2: usize, d2: int|
            #[trigger] crossing(es, lab, e, a2, b2, d2) ==> a2 == ids[ia as int] && b2 == ids[ib as int] && d2 == road,
        pairs2 == if road < pairs[j].2 {
            pairs.update(j, (ia, ib, road))
        } else {
            pairs
        },
    ensures
        boundary_state(es, lab, ids, pairs2, index, e + 1),
{
    let a = ids[ia as int];
    let b = ids[ib as int];
    assert(pair_ok(es, lab, ids, e, pairs[j]));
    assert forall|jj: int| 0 <= jj < pairs2.len() implies pair_ok(es, lab, ids, e + 1, #[trigger] pairs2[jj]) by {
        let p = pairs[jj];
        let q = pairs2[jj];
        assert(pair_ok(es, lab, ids, e, p));
        let a1 = ids[p.0 as int];
        let b1 = ids[p.1 as int];
        assert(q.0 == p.0 && q.1 == p.1);
        if jj == j && road < pairs[j].2 {
            assert(q == (ia, ib, road));
            assert(crossing(es, lab, e, a1, b1, q.2 as int));
            assert forall|x: int, d: int| 0 <= x < e + 1 && #[trigger] crossing(es, lab, x, a1, b1, d) implies q.2 <= d by {
                if x < e {
                    assert(p.2 <= d);
                }
            }
        } else {
            assert(q == p);
            let x0 = choose|x: int| 0 <= x < e && #[trigger] crossing(es, lab, x, a1, b1, p.2 as int);
            assert(crossing(es, lab, x0, a1, b1, q.2 as int));
            assert forall|x: int, d: int| 0 <= x < e + 1 && #[trigger] crossing(es, lab, x, a1, b1, d) implies q.2 <= d by {
                if x == e {
                    assert(a1 == a && b1 == b);
                    lemma_increasing_injective(ids, p.0 as int, ia as int);
                    lemma_increasing_injective(ids, p.1 as int, ib as int);
                    if jj != j {
                        assert((p.0, p.1) != (ia, ib));
                    }
                } else {
                    assert(p.2 <= d);
                }
            }
        }
        assert(exists|x: int| 0 <= x < e + 1 && #[trigger] crossing(es, lab, x, a1, b1, q.2 as int));
        assert(pair_ok(es, lab, ids, e + 1, q));
    }
    assert(pairs_distinct(pairs2)) by {
        assert forall|j1: int, k1: int| 0 <= j1 < k1 < pairs2.len() implies ((#[trigger] pairs2[j1]).0, pairs2[j1].1) != ((#[trigger] pairs2[k1]).0, pairs2[k1].1) by {
            assert((pairs[j1].0, pairs[j1].1) != (pairs[k1].0, pairs[k1].1));
        }
    }
    assert forall|x: int, a2: usize, b2: usize, d: int|
        0 <= x < e + 1 && #[trigger] crossing(es, lab, x, a2, b2, d) implies exists|jj: int|
            0 <= jj < pairs2.len() && ids[pairs2[jj].0 as int] == a2 && ids[pairs2[jj].1 as int] == b2 by {
        if x == e {
            assert(ids[pairs2[j].0 as int] == a2 && ids[pairs2[j].1 as int] == b2);
        } else {
            let jj = choose|jj: int| 0 <= jj < pairs.len() && ids[pairs[jj].0 as int] == a2 && ids[pairs[jj].1 as int] == b2;
            assert(pairs2[jj].0 == pairs[jj].0 && pairs2[jj].1 == pairs[jj].1);
        }
    }
    assert(index_ok(index, pairs2)) by {
        assert forall|jj: int| 0 <= jj < pairs2.len() implies index.contains_key(pair_key((#[trigger] pairs2[jj]).0 as int, pairs2[jj].1 as int) as u64)
            && index[pair_key(pairs2[jj].0 as int, pairs2[jj].1 as int) as u64] == jj by {
            assert(pairs2[jj].0 == pairs[jj].0 && pairs2[jj].1 == pairs[jj].1);
        }
        assert forall|key: u64| #[trigger] index.contains_key(key) implies index[key] < pairs2.len()
            && pair_key(pairs2[index[key] as int].0 as int, pairs2[index[key] as int].1 as int) == key by {
            let q = index[key] as int;
            assert(pairs2[q].0 == pairs[q].0 && pairs2[q].1 == pairs[q].1);
        }
    }
}

/// A crossing between clusters whose pair is new adds the pair.
#[verifier::spinoff_prover]
proof fn lemma_boundary_add(
    es: Seq<(usize, usize, Edge)>,
    lab: Seq<Option<(usize, u128)>>,
    ids: Seq<usize>,
    pairs: Seq<(usize, usize, u128)>,
    index: Map<u64, usize>,
    e: int,
    ia: usize,
    ib: usize,
    road: u128,
    key: u64,
)
    requires
        boundary_state(es, lab, ids, pairs, index, e),
        e >= 0,
        pairs.len() <= usize::MAX,
        forall|a: int, b: int| 0 <= a < b < ids.len() ==> ids[a] < ids[b],
        ia < ib < ids.len(),
        ib < 0x1_0000_0000,
        key == pair_key(ia as int, ib as int),
        !index.contains_key(key),
        crossing(es, lab, e, ids[ia as int], ids[ib as int], road as int),
        forall|a2: usize, b2: usize, d2: int|
            #[trigger] crossing(es, lab, e, a2, b2, d2) ==> a2 == ids[ia as int] && b2 == ids[ib as int] && d2 == road,
    ensures
        boundary_state(es, lab, ids, pairs.push((ia, ib, road)), index.insert(key, pairs.len() as usize), e + 1),
{
    let a = ids[ia as int];
    let b = ids[ib as int];
    let pairs2 = pairs.push((ia, ib, road));
    let index2 = index.insert(key, pairs.len() as usize);
    assert forall|jj: int| 0 <= jj < pairs.len() implies (pairs[jj].0, pairs[jj].1) != (ia, ib) by {
        assert(index.contains_key(pair_key(pairs[jj].0 as int, pairs[jj].1 as int) as u64));
    }
    assert forall|jj: int| 0 <= jj < pairs2.len() implies pair_ok(es, lab, ids, e + 1, #[trigger] pairs2[jj]) by {
        let q = pairs2[jj];
        if jj == pairs.len() {
            assert(q == (ia, ib, road));
            assert(crossing(es, lab, e, a, b, q.2 as int));
            assert forall|x: int, d: int| 0 <= x < e + 1 && #[trigger] crossing(es, lab, x, a, b, d) implies q.2 <= d by {
                if x < e {
                    let j0 = choose|j0: int| 0 <= j0 < pairs.len() && ids[pairs[j0].0 as int] == a && ids[pairs[j0].1 as int] == b;
                    lemma_increasing_injective(ids, pairs[j0].0 as int, ia as int);
                    lemma_increasing_injective(ids, pairs[j0].1 as int, ib as int);
                }
            }
            assert(exists|x: int| 0 <= x < e + 1 && #[trigger] crossing(es, lab, x, a, b, q.2 as int));
            assert(pair_ok(es, lab, ids, e + 1, q));
        } else {
            let p = pairs[jj];
            assert(q == p);
            assert(pair_ok(es, lab, ids, e, p));
            let a1 = ids[p.0 as int];
            let b1 = ids[p.1 as int];
            let x0 = choose|x: int| 0 <= x < e && #[trigger] crossing(es, lab, x, a1, b1, p.2 as int);
            assert(crossing(es, lab, x0, a1, b1, p.2 as int));
            assert forall|x: int, d: int| 0 <= x < e + 1 && #[trigger] crossing(es, lab, x, a1, b1, d) implies p.2 <= d by {
                if x == e {
                    assert(a1 == a && b1 == b);
                    lemma_increasing_injective(ids, p.0 as int, ia as int);
                    lemma_increasing_injective(ids, p.1 as int, ib as int);
                } else {
                    assert(p.2 <= d);
                }
            }
            assert(exists|x: int| 0 <= x < e + 1 && #[trigger] crossing(es, lab, x, a1, b1, q.2 as int));
            assert(pair_ok(es, lab, ids, e + 1, q));
        }
    }
    assert(pairs_distinct(pairs2)) by {
        assert forall|j1: int, k1: int| 0 <= j1 < k1 < pairs2.len() implies ((#[trigger] pairs2[j1]).0, pairs2[j1].1) != ((#[trigger] pairs2[k1]).0, pairs2[k1].1) by {
            assert(pairs2[j1] == pairs[j1]);
            if k1 < pairs.len() {
                assert(pairs2[k1] == pairs[k1]);
            }
        }
    }
    assert forall|x: int, a2: usize, b2: usize, d: int|
        0 <= x < e + 1 && #[trigger] crossing(es, lab, x, a2, b2, d) implies exists|jj: int|
            0 <= jj < pairs2.len() && ids[pairs2[jj].0 as int] == a2 && ids[pairs2[jj].1 as int] == b2 by {
        if x == e {
            assert(ids[pairs2[pairs.len() as int].0 as int] == a2);
        } else {
            let jj = choose|jj: int| 0 <= jj < pairs.len() && ids[pairs[jj].0 as int] == a2 && ids[pairs[jj].1 as int] == b2;
            assert(pairs2[jj] == pairs[jj]);
        }
    }
    assert(index_ok(index2, pairs2)) by {
        assert forall|jj: int| 0 <= jj < pairs2.len() implies index2.contains_key(pair_key((#[trigger] pairs2[jj]).0 as int, pairs2[jj].1 as int) as u64)
            && index2[pair_key(pairs2[jj].0 as int, pairs2[jj].1 as int) as u64] == jj by {
            if jj < pairs.len() {
                assert(pairs2[jj] == pairs[jj]);
                assert(index.contains_key(pair_key(pairs[jj].0 as int, pairs[jj].1 as int) as u64));
                assert(pair_key(pairs[jj].0 as int, pairs[jj].1 as int) as u64 != key);
            } else {
                assert(pairs2[jj] == (ia, ib, road));
                assert(0 <= pair_key(ia as int, ib as int) < 0x1_0000_0000_0000_0000);
                assert(pair_key(ia as int, ib as int) as u64 == key);
            }
        }
        assert forall|k2: u64| #[trigger] index2.contains_key(k2) implies index2[k2] < pairs2.len()
            && pair_key(pairs2[index2[k2] as int].0 as int, pairs2[index2[k2] as int].1 as int) == k2 by {
            if k2 != key {
                assert(index.contains_key(k2));
                assert(pairs2[index[k2] as int] == pairs[index[k2] as int]);
            }
        }
    }
}

/// The pairs of clusters (by position in `ids`, lower first) that edges of
/// the graph cross between under the labelling `lab`, each once, with the
/// least road distance of a crossing.
#[verifier::spinoff_prover]
fn boundary_pairs(
    graph: &BuiltGraph,
    lab: &Vec<Option<(usize, u128)>>,
    ids: &Vec<usize>,
    pos: &HashMap<usize, usize>,
) -> (pairs: Vec<(usize, usize, u128)>)
    requires
        lab@.len() == graph_nodes(graph.graph).len(),
        forall|t: int|
            0 <= t < lab@.len() && (#[trigger] lab@[t]) is Some ==> pos@.contains_key(lab@[t]->Some_0.0)
                && lab@[t]->Some_0.1 <= graph_nodes(graph.graph).len() * max_edge_cost(),
        ids@.len() <= graph_nodes(graph.graph).len(),
        forall|i: int, j: int| 0 <= i < j < ids@.len() ==> ids@[i] < ids@[j],
        forall|i: int| 0 <= i < ids@.len() ==> pos@.contains_key(#[trigger] ids@[i]) && pos@[ids@[i]] == i,
        forall|c: usize| #[trigger] pos@.contains_key(c) ==> pos@[c] < ids@.len() && ids@[pos@[c] as int] == c,
    ensures
        pairs@.len() <= graph_edges(graph.graph).len(),
        graph_edges(graph.graph).len() <= u32::MAX,
        forall|j: int|
            0 <= j < pairs@.len() ==> {
                let es = graph_edges(graph.graph);
                let a = ids@[(#[trigger] pairs@[j]).0 as int];
                let b = ids@[pairs@[j].1 as int];
                &&& pairs@[j].0 < pairs@[j].1 < ids@.len()
                &&& exists|e: int| 0 <= e < es.len() && #[trigger] crossing(es, lab@, e, a, b, pairs@[j].2 as int)
                &&& forall|e: int, d: int| 0 <= e < es.len() && #[trigger] crossing(es, lab@, e, a, b, d) ==> pairs@[j].2 <= d
            },
        forall|j: int, k: int| 0 <= j < k < pairs@.len() ==> ((#[trigger] pairs@[j]).0, pairs@[j].1) != ((#[trigger] pairs@[k]).0, pairs@[k].1),
        forall|e: int, a: usize, b: usize, d: int|
            0 <= e < graph_edges(graph.graph).len() && #[trigger] crossing(graph_edges(graph.graph), lab@, e, a, b, d) ==> exists|j: int|
                0 <= j < pairs@.len() && ids@[pairs@[j].0 as int] == a && ids@[pairs@[j].1 as int] == b,
{
    let ghost es = graph_edges(graph.graph);
    let ghost nv = graph_nodes(graph.graph).len();
    let n = graph_node_count(&graph.graph);
    let e_count = crate::petgraph_specs::graph_edge_count(&graph.graph);
    let mut pairs: Vec<(usize, usize, u128)> = Vec::new();
    let mut index: HashMap<u64, usize> = HashMap::new();
    let mut e: usize = 0;
    while e < e_count
        invariant
            e <= e_count,
            e_count == es.len(),
            es == graph_edges(graph.graph),
            n == nv,
            nv == graph_nodes(graph.graph).len(),
            n <= u32::MAX,
            e_count <= u32::MAX,
            lab@.len() == n,
            forall|t: int|
                0 <= t < lab@.len() && (#[trigger] lab@[t]) is Some ==> pos@.contains_key(lab@[t]->Some_0.0)
                    && lab@[t]->Some_0.1 <= nv * max_edge_cost(),
            ids@.len() <= n,
            forall|i: int, j: int| 0 <= i < j < ids@.len() ==> ids@[i] < ids@[j],
            forall|i: int| 0 <= i < ids@.len() ==> pos@.contains_key(#[trigger] ids@[i]) && pos@[ids@[i]] == i,
            forall|c: usize| #[trigger] pos@.contains_key(c) ==> pos@[c] < ids@.len() && ids@[pos@[c] as int] == c,
            boundary_state(es, lab@, ids@, pairs@, index@, e as int),
        decreases e_count - e,
    {
        let (u, v) = match crate::petgraph_specs::graph_edge_endpoints(&graph.graph, e) {
            Some(x) => x,
            None => {
                proof {
                    assert(false);
                }
                return pairs;
            },
        };
        let w = match crate::petgraph_specs::graph_edge_weight(&graph.graph, e) {
            Some(x) => edge_weight(x, true),
            None => {
                proof {
                    assert(false);
                }
                return pairs;
            },
        };
        proof {
            assert(es[e as int].0 == u && es[e as int].1 == v);
        }
        let mut crosses = false;
        match (lab[u], lab[v]) {
            (Some((cu, du)), Some((cv, dv))) => {
                if cu != cv {
                    crosses = true;
                    let (a, b) = if cu < cv {
                        (cu, cv)
                    } else {
                        (cv, cu)
                    };
                    proof {
                        assert(lab@[u as int] is Some);
                        assert(lab@[v as int] is Some);
                    }
                    let ia = match pos.get(&a) {
                        Some(x) => *x,
                        None => {
                            proof {
                                assert(false);
                            }
                            return pairs;
                        },
                    };
                    let ib = match pos.get(&b) {
                        Some(x) => *x,
                        None => {
                            proof {
                                assert(false);
                            }
                            return pairs;
                        },
                    };
                    proof {
                        assert(ids@[ia as int] == a);
                        assert(ids@[ib as int] == b);
                        if ib <= ia {
                            if ib < ia {
                                assert(ids@[ib as int] < ids@[ia as int]);
                            }
                        }
                        assert(du + w + dv <= 3 * 0xffff_ffff * 0xffff_ffff) by (nonlinear_arith)
                            requires
                                du <= nv * max_edge_cost(),
                                dv <= nv * max_edge_cost(),
                                w <= 0xffff_ffff,
                                nv <= 0xffff_ffff,
                                max_edge_cost() == 0xffff_ffff,
                        ;
                    }
                    let road: u128 = du + w as u128 + dv;
                    let key: u64 = (ia as u64) * 0x1_0000_0000u64 + ib as u64;
                    proof {
                        assert(crossing(es, lab@, e as int, a, b, road as int));
                        assert forall|a2: usize, b2: usize, d2: int| #[trigger] crossing(es, lab@, e as int, a2, b2, d2) implies a2 == a
                            && b2 == b && d2 == road by {}
                    }
                    match index.get(&key) {
                        Some(jr) => {
                            let j = *jr;
                            let ghost before = pairs@;
                            proof {
                                assert(pair_key(pairs@[j as int].0 as int, pairs@[j as int].1 as int) == key);
                                assert(pairs@[j as int].0 == ia && pairs@[j as int].1 == ib);
                            }
                            if road < pairs[j].2 {
                                pairs.set(j, (ia, ib, road));
                            }
                            proof {
                                lemma_boundary_lower(es, lab@, ids@, before, pairs@, index@, e as int, j as int, ia, ib, road);
                            }
                        },
                        None => {
                            let ghost before = pairs@;
                            let ghost index0 = index@;
                            index.insert(key, pairs.len());
                            pairs.push((ia, ib, road));
                            proof {
                                lemma_boundary_add(es, lab@, ids@, before, index0, e as int, ia, ib, road, key);
                            }
                        },
                    }
                }
            },
            _ => {},
        }
        if !crosses {
            proof {
                assert forall|a2: usize, b2: usize, d2: int| !#[trigger] crossing(es, lab@, e as int, a2, b2, d2) by {}
                lemma_boundary_skip(es, lab@, ids@, pairs@, index@, e as int);
            }
        }
        e = e + 1;
    }
    proof {
        assert forall|j: int| 0 <= j < pairs@.len() implies pair_ok(es, lab@, ids@, es.len() as int, pairs@[j]) by {}
    }
    pairs
}

/// The least costs that a multi-source search from the clustered nodes finds,
/// with the labels of the sources that reach them, form a nearest labelling.
#[verifier::spinoff_prover]
proof fn lemma_search_labeling(
    es: Seq<(usize, usize, Edge)>,
    m: Map<usize, usize>,
    n: nat,
    srcs: Seq<(usize, usize)>,
    lab: Seq<Option<(usize, u128)>>,
)
    requires
        forall|k: int| 0 <= k < srcs.len() ==> m.contains_key((#[trigger] srcs[k]).0) && m[srcs[k].0] == srcs[k].1,
        forall|s: usize| #[trigger] m.contains_key(s) ==> exists|k: int| 0 <= k < srcs.len() && srcs[k].0 == s,
        lab.len() == n,
        forall|t: int|
            0 <= t < n ==> match #[trigger] lab[t] {
                Some((l, d)) => {
                    &&& is_distance_from(es, srcs, t, d as int, true)
                    &&& reached_with_label(es, srcs, t, l, d as int, true)
                },
                None => forall|k: int, p: Seq<int>|
                    0 <= k < srcs.len() && #[trigger] is_walk(es, srcs[k].0 as int, t, p) ==> !within(walk_cost(es, p, true) as int, None),
            },
        forall|k: int| 0 <= k < srcs.len() ==> lab[(#[trigger] srcs[k]).0 as int] == Some((srcs[k].1, 0u128)),
    ensures
        nearest_labeling(es, m, n, lab),
{
    assert forall|t: int| 0 <= t < n implies match #[trigger] lab[t] {
        Some((l, d)) => cluster_distance(es, m, t, d as int) && reached_by_cluster(es, m, t, l, d as int),
        None => forall|s: usize, p: Seq<int>| m.contains_key(s) ==> !#[trigger] is_walk(es, s as int, t, p),
    } by {
        match lab[t] {
            Some((l, d)) => {
                let (k, p) = choose|k: int, p: Seq<int>|
                    0 <= k < srcs.len() && #[trigger] is_walk(es, srcs[k].0 as int, t, p) && walk_cost(es, p, true) == d;
                assert(m.contains_key(srcs[k].0) && is_walk(es, srcs[k].0 as int, t, p));
                assert forall|s: usize, q: Seq<int>| m.contains_key(s) && #[trigger] is_walk(es, s as int, t, q) implies walk_cost(es, q, true) >= d by {
                    let k2 = choose|k2: int| 0 <= k2 < srcs.len() && srcs[k2].0 == s;
                    assert(is_walk(es, srcs[k2].0 as int, t, q));
                }
                let (k3, p3) = choose|k3: int, p3: Seq<int>|
                    0 <= k3 < srcs.len() && srcs[k3].1 == l && #[trigger] is_walk(es, srcs[k3].0 as int, t, p3)
                        && walk_cost(es, p3, true) == d;
                assert(m.contains_key(srcs[k3].0) && m[srcs[k3].0] == l && is_walk(es, srcs[k3].0 as int, t, p3));
            },
            None => {
                assert forall|s: usize, p: Seq<int>| m.contains_key(s) implies !#[trigger] is_walk(es, s as int, t, p) by {
                    let k = choose|k: int| 0 <= k < srcs.len() && srcs[k].0 == s;
                    if is_walk(es, s as int, t, p) {
                        assert(is_walk(es, srcs[k].0 as int, t, p));
                    }
                }
            },
        }
    }
    assert forall|s: usize| #[trigger] m.contains_key(s) implies lab[s as int] == Some((m[s], 0u128)) by {
        let k = choose|k: int| 0 <= k < srcs.len() && srcs[k].0 == s;
        assert(lab[srcs[k].0 as int] == Some((srcs[k].1, 0u128)));
    }
}


/// The number of distinct cluster ids is at most the number of clustered
/// nodes.
proof fn lemma_ids_bound(m: Map<usize, usize>, srcs: Seq<(usize, usize)>, ids: Seq<usize>)
    requires
        forall|k: int| 0 <= k < srcs.len() ==> m.contains_key((#[trigger] srcs[k]).0) && m[srcs[k].0] == srcs[k].1,
        forall|s: usize| #[trigger] m.contains_key(s) ==> exists|k: int| 0 <= k < srcs.len() && srcs[k].0 == s,
        forall|i: int, j: int| 0 <= i < j < ids.len() ==> ids[i] < ids[j],
        ids.to_set() == m.values(),
    ensures
        ids.len() <= srcs.len(),
{
    assert(ids.no_duplicates()) by {
        assert forall|i: int, j: int| 0 <= i < ids.len() && 0 <= j < ids.len() && i != j implies ids[i] != ids[j] by {
            if i < j {
                assert(ids[i] < ids[j]);
            } else {
                assert(ids[j] < ids[i]);
            }
        }
    }
    ids.unique_seq_to_set();
    let vals = srcs.map_values(|x: (usize, usize)| x.1);
    assert(m.values() =~= vals.to_set()) by {
        assert forall|c: usize| m.values().contains(c) implies vals.to_set().contains(c) by {
            let s = choose|s: usize| m.contains_key(s) && m[s] == c;
            let k = choose|k: int| 0 <= k < srcs.len() && srcs[k].0 == s;
            assert(vals[k] == c);
        }
        assert forall|c: usize| vals.to_set().contains(c) implies m.values().contains(c) by {
            let k = choose|k: int| 0 <= k < vals.len() && #[trigger] vals[k] == c;
            assert(m.contains_key(srcs[k].0) && m[srcs[k].0] == c);
        }
    }
    vals.lemma_cardinality_of_set();
}

/// The reduced graph's nodes: one per id of `ids`, in order, with the
/// building count and centroid of its cluster.
#[verifier::spinoff_prover]
fn cluster_nodes(graph: &BuiltGraph, m: &HashMap<usize, usize>, ids: &Vec<usize>, totals: &Vec<(usize, i128, i128)>) -> (r: ReducedGraph)
    requires
        ids@.len() <= u32::MAX,
        totals@.len() == ids@.len(),
        forall|q: int|
            0 <= q < ids@.len() ==> {
                let nodes = graph_nodes(graph.graph);
                let n = nodes.len();
                &&& (#[trigger] totals@[q]).0 == member_count(nodes, m@, ids@[q], n)
                &&& totals@[q].1 == member_x_sum(nodes, m@, ids@[q], n)
                &&& totals@[q].2 == member_y_sum(nodes, m@, ids@[q], n)
                &&& totals@[q].0 * i64::MIN <= totals@[q].1 <= totals@[q].0 * i64::MAX
                &&& totals@[q].0 * i64::MIN <= totals@[q].2 <= totals@[q].0 * i64::MAX
            },
    ensures
        reduced_nodes(r).len() == ids@.len(),
        reduced_edges(r).len() == 0,
        forall|q: int|
            0 <= q < ids@.len() ==> {
                let nodes = graph_nodes(graph.graph);
                let c = ids@[q];
                let count = member_count(nodes, m@, c, nodes.len());
                &&& (#[trigger] reduced_nodes(r)[q]).cluster_id == c
                &&& reduced_nodes(r)[q].size == count
                &&& reduced_nodes(r)[q].centroid_x == centroid(member_x_sum(nodes, m@, c, nodes.len()), count)
                &&& reduced_nodes(r)[q].centroid_y == centroid(member_y_sum(nodes, m@, c, nodes.len()), count)
            },
{
    let ghost nodes = graph_nodes(graph.graph);
    let mut r = reduced_new();
    let mut p: usize = 0;
    while p < ids.len()
        invariant
            p <= ids@.len(),
            ids@.len() <= u32::MAX,
            nodes == graph_nodes(graph.graph),
            totals@.len() == ids@.len(),
            forall|q: int|
                0 <= q < ids@.len() ==> {
                    &&& (#[trigger] totals@[q]).0 == member_count(nodes, m@, ids@[q], nodes.len())
                    &&& totals@[q].1 == member_x_sum(nodes, m@, ids@[q], nodes.len())
                    &&& totals@[q].2 == member_y_sum(nodes, m@, ids@[q], nodes.len())
                    &&& totals@[q].0 * i64::MIN <= totals@[q].1 <= totals@[q].0 * i64::MAX
                    &&& totals@[q].0 * i64::MIN <= totals@[q].2 <= totals@[q].0 * i64::MAX
                },
            reduced_nodes(r).len() == p,
            reduced_edges(r).len() == 0,
            forall|q: int|
                0 <= q < p ==> {
                    let c = ids@[q];
                    let count = member_count(nodes, m@, c, nodes.len());
                    &&& (#[trigger] reduced_nodes(r)[q]).cluster_id == c
                    &&& reduced_nodes(r)[q].size == count
                    &&& reduced_nodes(r)[q].centroid_x == centroid(member_x_sum(nodes, m@, c, nodes.len()), count)
                    &&& reduced_nodes(r)[q].centroid_y == centroid(member_y_sum(nodes, m@, c, nodes.len()), count)
                },
        decreases ids@.len() - p,
    {
        let (count, sx, sy) = totals[p];
        let cx = if count > 0 {
            floor_mean(sx, count)
        } else {
            0
        };
        let cy = if count > 0 {
            floor_mean(sy, count)
        } else {
            0
        };
        let ghost before = reduced_nodes(r);
        reduced_add_node(&mut r, ReducedClusterNode { cluster_id: ids[p], size: count, centroid_x: cx, centroid_y: cy });
        proof {
            assert forall|q: int| 0 <= q < p + 1 implies {
                let c = ids@[q];
                let count = member_count(nodes, m@, c, nodes.len());
                &&& (#[trigger] reduced_nodes(r)[q]).cluster_id == c
                &&& reduced_nodes(r)[q].size == count
                &&& reduced_nodes(r)[q].centroid_x == centroid(member_x_sum(nodes, m@, c, nodes.len()), count)
                &&& reduced_nodes(r)[q].centroid_y == centroid(member_y_sum(nodes, m@, c, nodes.len()), count)
            } by {
                if q < p {
                    assert(reduced_nodes(r)[q] == before[q]);
                }
            }
        }
        p = p + 1;
    }
    r
}

/// Every label that the search hands out is a cluster id with a position.
proof fn lemma_labels_known(
    es: Seq<(usize, usize, Edge)>,
    m: Map<usize, usize>,
    n: nat,
    lab: Seq<Option<(usize, u128)>>,
    ids: Seq<usize>,
    pos: Map<usize, usize>,
)
    requires
        nearest_labeling(es, m, n, lab),
        ids.to_set() == m.values(),
        forall|i: int| 0 <= i < ids.len() ==> pos.contains_key(#[trigger] ids[i]) && pos[ids[i]] == i,
    ensures
        forall|t: int| 0 <= t < lab.len() && (#[trigger] lab[t]) is Some ==> pos.contains_key(lab[t]->Some_0.0),
{
    assert forall|t: int| 0 <= t < lab.len() && (#[trigger] lab[t]) is Some implies pos.contains_key(lab[t]->Some_0.0) by {
        let l = lab[t]->Some_0.0;
        let d = lab[t]->Some_0.1;
        assert(reached_by_cluster(es, m, t, l, d as int));
        let (s, q) = choose|s: usize, q: Seq<int>|
            m.contains_key(s) && m[s] == l && #[trigger] is_walk(es, s as int, t, q) && walk_cost(es, q, true) == d;
        assert(m.values().contains(l));
        assert(ids.to_set().contains(l));
        let i = choose|i: int| 0 <= i < ids.len() && ids[i] == l;
        assert(pos.contains_key(ids[i]));
    }
}

/// The edges built from the boundary pairs match the reduced graph's spec.
#[verifier::spinoff_prover]
proof fn lemma_edges_from_pairs(
    es: Seq<(usize, usize, Edge)>,
    m: Map<usize, usize>,
    lab: Seq<Option<(usize, u128)>>,
    rn: Seq<ReducedClusterNode>,
    ids: Seq<usize>,
    pairs: Seq<(usize, usize, u128)>,
    gaps: Seq<(usize, usize, u128)>,
    re: Seq<(usize, usize, ReducedClusterEdge)>,
)
    requires
        rn.len() == ids.len(),
        forall|q: int| 0 <= q < rn.len() ==> (#[trigger] rn[q]).cluster_id == ids[q],
        gaps.len() == pairs.len(),
        re.len() == pairs.len(),
        forall|jj: int|
            0 <= jj < re.len() ==> #[trigger] re[jj] == (gaps[jj].0, gaps[jj].1, ReducedClusterEdge { distance_mm: gaps[jj].2 }),
        forall|j: int|
            0 <= j < gaps.len() ==> (#[trigger] gaps[j]).0 == pairs[j].0 && gaps[j].1 == pairs[j].1 && cluster_gap(
                es,
                m,
                ids[pairs[j].0 as int],
                ids[pairs[j].1 as int],
                gaps[j].2 as int,
            ),
        forall|j: int|
            0 <= j < pairs.len() ==> {
                let a = ids[(#[trigger] pairs[j]).0 as int];
                let b = ids[pairs[j].1 as int];
                &&& pairs[j].0 < pairs[j].1 < ids.len()
                &&& exists|e: int| 0 <= e < es.len() && #[trigger] crossing(es, lab, e, a, b, pairs[j].2 as int)
            },
        forall|j: int, k: int| 0 <= j < k < pairs.len() ==> ((#[trigger] pairs[j]).0, pairs[j].1) != ((#[trigger] pairs[k]).0, pairs[k].1),
        forall|e: int, a: usize, b: usize, d: int|
            0 <= e < es.len() && #[trigger] crossing(es, lab, e, a, b, d) ==> exists|j: int|
                0 <= j < pairs.len() && ids[pairs[j].0 as int] == a && ids[pairs[j].1 as int] == b,
    ensures
        reduced_edges_match(es, m, lab, rn, re),
{
    assert forall|jj: int| 0 <= jj < re.len() implies reduced_edge_ok(es, m, lab, rn, #[trigger] re[jj]) by {
        let pj = pairs[jj];
        let gj = gaps[jj];
        assert(gj.0 == pj.0 && gj.1 == pj.1);
        assert(re[jj] == (pj.0, pj.1, ReducedClusterEdge { distance_mm: gj.2 }));
        assert(pj.0 < pj.1 < ids.len());
        let a = ids[pj.0 as int];
        let b = ids[pj.1 as int];
        assert(rn[pj.0 as int].cluster_id == a);
        assert(rn[pj.1 as int].cluster_id == b);
        let e0 = choose|e: int| 0 <= e < es.len() && #[trigger] crossing(es, lab, e, a, b, pj.2 as int);
        assert(crossing(es, lab, e0, a, b, pj.2 as int));
        assert(cluster_gap(es, m, a, b, re[jj].2.distance_mm as int));
    }
    assert forall|j1: int, k1: int| 0 <= j1 < k1 < re.len() implies ((#[trigger] re[j1]).0, re[j1].1) != ((#[trigger] re[k1]).0, re[k1].1) by {
        assert(re[j1] == (gaps[j1].0, gaps[j1].1, ReducedClusterEdge { distance_mm: gaps[j1].2 }));
        assert(re[k1] == (gaps[k1].0, gaps[k1].1, ReducedClusterEdge { distance_mm: gaps[k1].2 }));
        assert(gaps[j1].0 == pairs[j1].0 && gaps[j1].1 == pairs[j1].1);
        assert(gaps[k1].0 == pairs[k1].0 && gaps[k1].1 == pairs[k1].1);
    }
    assert forall|e: int, a: usize, b: usize, d: int|
        0 <= e < es.len() && #[trigger] crossing(es, lab, e, a, b, d) implies exists|jj: int|
            0 <= jj < re.len() && rn[re[jj].0 as int].cluster_id == a && rn[re[jj].1 as int].cluster_id == b by {
        let jj = choose|jj: int| 0 <= jj < pairs.len() && ids[pairs[jj].0 as int] == a && ids[pairs[jj].1 as int] == b;
        assert(re[jj] == (gaps[jj].0, gaps[jj].1, ReducedClusterEdge { distance_mm: gaps[jj].2 }));
        assert(gaps[jj].0 == pairs[jj].0 && gaps[jj].1 == pairs[jj].1);
        assert(pairs[jj].0 < pairs[jj].1 < ids.len());
    }
}

/// Adds one edge per entry of `gaps` to a reduced graph without edges.
fn add_reduced_edges(r: &mut ReducedGraph, gaps: &Vec<(usize, usize, u128)>, Ghost(nr): Ghost<nat>)
    requires
        reduced_nodes(*old(r)).len() == nr,
        reduced_edges(*old(r)).len() == 0,
        gaps@.len() <= u32::MAX,
        forall|jj: int| 0 <= jj < gaps@.len() ==> (#[trigger] gaps@[jj]).0 < gaps@[jj].1 < nr,
    ensures
        reduced_nodes(*final(r)) == reduced_nodes(*old(r)),
        reduced_edges(*final(r)).len() == gaps@.len(),
        forall|jj: int|
            0 <= jj < gaps@.len() ==> #[trigger] reduced_edges(*final(r))[jj] == (gaps@[jj].0, gaps@[jj].1, ReducedClusterEdge {
                distance_mm: gaps@[jj].2,
            }),
{
    let ghost nodes0 = reduced_nodes(*r);
    let mut j: usize = 0;
    while j < gaps.len()
        invariant
            j <= gaps@.len(),
            gaps@.len() <= u32::MAX,
            reduced_nodes(*r) == nodes0,
            nodes0.len() == nr,
            forall|jj: int| 0 <= jj < gaps@.len() ==> (#[trigger] gaps@[jj]).0 < gaps@[jj].1 < nr,
            reduced_edges(*r).len() == j,
            forall|jj: int|
                0 <= jj < j ==> #[trigger] reduced_edges(*r)[jj] == (gaps@[jj].0, gaps@[jj].1, ReducedClusterEdge { distance_mm: gaps@[jj].2 }),
        decreases gaps@.len() - j,
    {
        let (a, b, d) = gaps[j];
        let ghost before = reduced_edges(*r);
        proof {
            assert(gaps@[j as int].0 < gaps@[j as int].1 < nr);
        }
        reduced_add_edge(r, a, b, ReducedClusterEdge { distance_mm: d });
        proof {
            assert forall|jj: int| 0 <= jj < j + 1 implies #[trigger] reduced_edges(*r)[jj] == (gaps@[jj].0, gaps@[jj].1, ReducedClusterEdge { distance_mm: gaps@[jj].2 }) by {
                if jj < j {
                    assert(reduced_edges(*r)[jj] == before[jj]);
                }
            }
        }
        j = j + 1;
    }
}

/// Build a coarsened graph of clusters from `building_clusters`, which maps
/// node indices (buildings) to cluster ids.
///
/// 1. One node per cluster id, in increasing id order, with the number of
///    its buildings and the centroid of their coordinates.
/// 2. A multi-source search from all clustered nodes gives every node of the
///    graph its least road distance (access links counted) to a cluster and
///    a cluster at that distance.
/// 3. Two clusters are neighbours when an edge of the spatial graph joins a
///    node nearest to one to a node nearest to the other.
/// 4. One edge per pair of neighbours, from the lower id to the higher,
///    carrying the exact road distance between them: the least cost of a
///    walk (access links counted) from a building of one to a building of
///    the other, found by a search from the first cluster's buildings.
///
/// Which of several equally near clusters labels a node is not fixed: the
/// neighbours are stated for a nearest labelling.
#[verifier::spinoff_prover]
pub fn build_reduced_graph(graph: &BuiltGraph, building_clusters: &HashMap<usize, usize>) -> (r: ReducedGraph)
    requires
        forall|s: usize| #[trigger] building_clusters@.contains_key(s) ==> s < graph_nodes(graph.graph).len(),
    ensures
        reduced_nodes_match(graph_nodes(graph.graph), building_clusters@, reduced_nodes(r)),
        exists|lab: Seq<Option<(usize, u128)>>|
            #[trigger] nearest_labeling(graph_edges(graph.graph), building_clusters@, graph_nodes(graph.graph).len(), lab)
                && reduced_edges_match(graph_edges(graph.graph), building_clusters@, lab, reduced_nodes(r), reduced_edges(r)),
{
    let ghost es = graph_edges(graph.graph);
    let ghost nodes = graph_nodes(graph.graph);
    let ghost m = building_clusters@;
    let n = graph_node_count(&graph.graph);
    let (sources, ids) = cluster_sources(building_clusters, n);
    proof {
        lemma_ids_bound(m, sources@, ids@);
    }
    let pos = id_positions(&ids);
    let totals = cluster_totals(graph, building_clusters, &ids, &pos);
    let mut r = cluster_nodes(graph, building_clusters, &ids, &totals);
    let ghost rn = reduced_nodes(r);
    proof {
        assert forall|c: usize| #[trigger] m.values().contains(c) implies exists|i: int| 0 <= i < rn.len() && rn[i].cluster_id == c by {
            assert(ids@.to_set().contains(c));
            let i = choose|i: int| 0 <= i < ids@.len() && ids@[i] == c;
            assert(rn[i].cluster_id == c);
        }
        assert forall|i: int| 0 <= i < rn.len() implies m.values().contains((#[trigger] rn[i]).cluster_id) by {
            assert(ids@.to_set().contains(ids@[i]));
        }
        assert forall|i: int, j: int| 0 <= i < j < rn.len() implies (#[trigger] rn[i]).cluster_id < (#[trigger] rn[j]).cluster_id by {
            assert(ids@[i] < ids@[j]);
        }
        assert(reduced_nodes_match(nodes, m, rn));
    }
    let dist = nearest_sources(&graph.graph, &sources, true, None);
    proof {
        lemma_search_labeling(es, m, n as nat, sources@, dist@);
        lemma_labels_known(es, m, n as nat, dist@, ids@, pos@);
    }
    let pairs = boundary_pairs(graph, &dist, &ids, &pos);
    let gaps = pair_gaps(graph, &sources, &ids, &pairs, Ghost(m), Ghost(dist@));
    add_reduced_edges(&mut r, &gaps, Ghost(rn.len()));
    proof {
        lemma_edges_from_pairs(es, m, dist@, rn, ids@, pairs@, gaps@, reduced_edges(r));
    }
    r
}

} // verus!
