//! Single-linkage clustering of buildings along the road network.
use std::collections::HashMap;
use vstd::prelude::*;

use crate::id_map::{id_map_values, id_map_view, lists_values};
use crate::model::{BuiltGraph, Edge, Node};
use crate::petgraph_specs::{graph_edges, graph_node_count, graph_node_weight, graph_nodes};
use crate::search::nearest_sources;
use crate::union_find::{is_partition, law_merge_joins, merged};
use crate::walks::{is_distance_from, is_walk, walk_cost, within};

pub use crate::union_find::UnionFind;

verus! {

broadcast use vstd::std_specs::hash::group_hash_axioms;

/// The node indices that a map from ids holds.
pub open spec fn building_set(m: Map<Seq<char>, usize>) -> Set<usize> {
    Set::new(|v: usize| exists|k: Seq<char>| m.contains_key(k) && m[k] == v)
}

/// `b` is another member, a building, that a road walk from `a` reaches within
/// `max` (access links cost nothing).
pub open spec fn linked(
    es: Seq<(usize, usize, Edge)>,
    nodes: Seq<Node>,
    members: Set<usize>,
    max: int,
    a: usize,
    b: usize,
) -> bool {
    &&& a != b
    &&& members.contains(b)
    &&& (b as int) < nodes.len()
    &&& nodes[b as int] is Building
    &&& exists|p: Seq<int>| is_walk(es, a as int, b as int, p) && walk_cost(es, p, false) <= max
}

/// A sequence of members, each linked to the next in one direction or the other.
pub open spec fn is_chain(
    es: Seq<(usize, usize, Edge)>,
    nodes: Seq<Node>,
    members: Set<usize>,
    max: int,
    xs: Seq<usize>,
) -> bool {
    &&& xs.len() >= 1
    &&& forall|k: int| 0 <= k < xs.len() ==> members.contains(#[trigger] xs[k])
    &&& forall|k: int|
        0 <= k < xs.len() - 1 ==> linked(es, nodes, members, max, #[trigger] xs[k], xs[k + 1])
            || linked(es, nodes, members, max, xs[k + 1], xs[k])
}

/// Two members are joined by a chain of links.
pub open spec fn connected(
    es: Seq<(usize, usize, Edge)>,
    nodes: Seq<Node>,
    members: Set<usize>,
    max: int,
    a: usize,
    b: usize,
) -> bool {
    exists|xs: Seq<usize>|
        #[trigger] is_chain(es, nodes, members, max, xs) && xs[0] == a && xs.last() == b
}

/// Some representative has been given cluster id `c`.
spec fn id_assigned(ids: Seq<Option<usize>>, c: int) -> bool {
    exists|r: int| 0 <= r < ids.len() && #[trigger] ids[r] == Some(c as usize)
}

/// Some building has cluster id `c`.
pub open spec fn used_id(m: Map<usize, usize>, c: int) -> bool {
    exists|b: usize| m.contains_key(b) && m[b] == c
}

/// The last position of `b` in `s`, or `-1`.
pub open spec fn last_index(s: Seq<usize>, b: usize) -> int
    decreases s.len(),
{
    if s.len() == 0 {
        -1
    } else if s.last() == b {
        s.len() - 1
    } else {
        last_index(s.drop_last(), b)
    }
}

proof fn lemma_last_index(s: Seq<usize>, b: usize)
    ensures
        -1 <= last_index(s, b) < s.len(),
        last_index(s, b) >= 0 ==> s[last_index(s, b)] == b,
        last_index(s, b) >= 0 <==> s.contains(b),
        forall|k: int| last_index(s, b) < k < s.len() ==> s[k] != b,
    decreases s.len(),
{
    if s.len() > 0 {
        lemma_last_index(s.drop_last(), b);
        if s.last() != b {
            if s.contains(b) {
                let k = choose|k: int| 0 <= k < s.len() && s[k] == b;
                assert(s.drop_last()[k] == b);
            }
            assert forall|k: int| last_index(s, b) < k < s.len() implies s[k] != b by {
                if k < s.len() - 1 {
                    assert(s.drop_last()[k] == s[k]);
                }
            }
        }
    }
}

proof fn lemma_connected_refl(
    es: Seq<(usize, usize, Edge)>,
    nodes: Seq<Node>,
    members: Set<usize>,
    max: int,
    a: usize,
)
    requires
        members.contains(a),
    ensures
        connected(es, nodes, members, max, a, a),
{
    let xs = seq![a];
    assert(is_chain(es, nodes, members, max, xs));
}

proof fn lemma_connected_link(
    es: Seq<(usize, usize, Edge)>,
    nodes: Seq<Node>,
    members: Set<usize>,
    max: int,
    a: usize,
    b: usize,
)
    requires
        members.contains(a),
        linked(es, nodes, members, max, a, b),
    ensures
        connected(es, nodes, members, max, a, b),
{
    let xs = seq![a, b];
    assert(is_chain(es, nodes, members, max, xs));
}

proof fn lemma_connected_sym(
    es: Seq<(usize, usize, Edge)>,
    nodes: Seq<Node>,
    members: Set<usize>,
    max: int,
    a: usize,
    b: usize,
)
    requires
        connected(es, nodes, members, max, a, b),
    ensures
        connected(es, nodes, members, max, b, a),
{
    let xs = choose|xs: Seq<usize>|
        #[trigger] is_chain(es, nodes, members, max, xs) && xs[0] == a && xs.last() == b;
    let ys = xs.reverse();
    assert forall|k: int| 0 <= k < ys.len() implies members.contains(#[trigger] ys[k]) by {
        assert(ys[k] == xs[xs.len() - 1 - k]);
    }
    assert forall|k: int| 0 <= k < ys.len() - 1 implies linked(
        es,
        nodes,
        members,
        max,
        #[trigger] ys[k],
        ys[k + 1],
    ) || linked(es, nodes, members, max, ys[k + 1], ys[k]) by {
        let j = xs.len() - 2 - k;
        assert(ys[k] == xs[j + 1]);
        assert(ys[k + 1] == xs[j]);
        assert(linked(es, nodes, members, max, xs[j], xs[j + 1]) || linked(
            es,
            nodes,
            members,
            max,
            xs[j + 1],
            xs[j],
        ));
    }
    assert(is_chain(es, nodes, members, max, ys));
}

proof fn lemma_connected_trans(
    es: Seq<(usize, usize, Edge)>,
    nodes: Seq<Node>,
    members: Set<usize>,
    max: int,
    a: usize,
    b: usize,
    c: usize,
)
    requires
        connected(es, nodes, members, max, a, b),
        connected(es, nodes, members, max, b, c),
    ensures
        connected(es, nodes, members, max, a, c),
{
    let xs = choose|xs: Seq<usize>|
        #[trigger] is_chain(es, nodes, members, max, xs) && xs[0] == a && xs.last() == b;
    let ys = choose|ys: Seq<usize>|
        #[trigger] is_chain(es, nodes, members, max, ys) && ys[0] == b && ys.last() == c;
    let zs = xs + ys.skip(1);
    assert forall|k: int| 0 <= k < zs.len() implies members.contains(#[trigger] zs[k]) by {
        if k < xs.len() {
            assert(zs[k] == xs[k]);
        } else {
            assert(zs[k] == ys[k - xs.len() + 1]);
        }
    }
    assert forall|k: int| 0 <= k < zs.len() - 1 implies linked(
        es,
        nodes,
        members,
        max,
        #[trigger] zs[k],
        zs[k + 1],
    ) || linked(es, nodes, members, max, zs[k + 1], zs[k]) by {
        if k < xs.len() - 1 {
            assert(zs[k] == xs[k]);
            assert(zs[k + 1] == xs[k + 1]);
        } else {
            let j = k - xs.len() + 1;
            assert(zs[k] == ys[j]);
            assert(zs[k + 1] == ys[j + 1]);
            assert(linked(es, nodes, members, max, ys[j], ys[j + 1]) || linked(
                es,
                nodes,
                members,
                max,
                ys[j + 1],
                ys[j],
            ));
        }
    }
    assert(is_chain(es, nodes, members, max, zs));
    assert(zs.last() == c);
}

/// Members joined by a chain of links share a representative, given that every
/// link from each member's last position has been merged.
proof fn lemma_chain_merged(
    es: Seq<(usize, usize, Edge)>,
    nodes: Seq<Node>,
    members: Set<usize>,
    max: int,
    bs: Seq<usize>,
    v: Seq<int>,
    xs: Seq<usize>,
)
    requires
        is_chain(es, nodes, members, max, xs),
        v.len() == bs.len(),
        forall|b: usize| members.contains(b) ==> #[trigger] last_index(bs, b) >= 0,
        forall|k: int, t: usize|
            0 <= k < bs.len() && #[trigger] linked(es, nodes, members, max, bs[k], t) ==> v[k]
                == v[last_index(bs, t)],
        forall|b: usize| #[trigger] members.contains(b) ==> bs[last_index(bs, b)] == b,
    ensures
        v[last_index(bs, xs[0])] == v[last_index(bs, xs.last())],
    decreases xs.len(),
{
    if xs.len() > 1 {
        let ys = xs.drop_last();
        assert(is_chain(es, nodes, members, max, ys)) by {
            assert forall|k: int| 0 <= k < ys.len() implies members.contains(#[trigger] ys[k]) by {
                assert(ys[k] == xs[k]);
            }
            assert forall|k: int| 0 <= k < ys.len() - 1 implies linked(
                es,
                nodes,
                members,
                max,
                #[trigger] ys[k],
                ys[k + 1],
            ) || linked(es, nodes, members, max, ys[k + 1], ys[k]) by {
                assert(ys[k] == xs[k]);
                assert(ys[k + 1] == xs[k + 1]);
            }
        }
        lemma_chain_merged(es, nodes, members, max, bs, v, ys);
        let x = xs[xs.len() - 2];
        let y = xs.last();
        assert(members.contains(x));
        assert(members.contains(y));
        let kx = last_index(bs, x);
        let ky = last_index(bs, y);
        lemma_last_index(bs, x);
        lemma_last_index(bs, y);
        assert(kx >= 0);
        assert(ky >= 0);
        assert(ys[0] == xs[0]);
        assert(ys.last() == x);
        if linked(es, nodes, members, max, x, y) {
            assert(linked(es, nodes, members, max, bs[kx], y));
            assert(v[kx] == v[ky]);
        } else {
            assert(linked(es, nodes, members, max, xs[xs.len() - 1], xs[xs.len() - 2]));
            assert(linked(es, nodes, members, max, bs[ky], x));
            assert(v[ky] == v[kx]);
        }
    }
}

/// Every value of the map is listed, and every listed value is in the map.
proof fn lemma_members_listed(bm: Map<Seq<char>, usize>, bs: Seq<usize>)
    requires
        lists_values(bm, bs),
    ensures
        forall|b: usize| #[trigger] building_set(bm).contains(b) <==> bs.contains(b),
{
    let keys = choose|keys: Seq<Seq<char>>|
        {
            &&& keys.len() == bs.len()
            &&& keys.no_duplicates()
            &&& forall|k: int|
                0 <= k < keys.len() ==> bm.contains_key(#[trigger] keys[k]) && bs[k] == bm[keys[k]]
            &&& forall|s: Seq<char>| bm.contains_key(s) ==> keys.contains(s)
        };
    assert forall|b: usize| #[trigger] building_set(bm).contains(b) <==> bs.contains(b) by {
        if building_set(bm).contains(b) {
            let k = choose|k: Seq<char>| bm.contains_key(k) && bm[k] == b;
            assert(keys.contains(k));
            let i = choose|i: int| 0 <= i < keys.len() && keys[i] == k;
            assert(bs[i] == b);
        }
        if bs.contains(b) {
            let i = choose|i: int| 0 <= i < bs.len() && bs[i] == b;
            assert(bm.contains_key(keys[i]));
        }
    }
}

/// With distinct values, each listed value occurs once.
proof fn lemma_listed_once(bm: Map<Seq<char>, usize>, bs: Seq<usize>, k: int)
    requires
        lists_values(bm, bs),
        0 <= k < bs.len(),
        forall|k1: Seq<char>, k2: Seq<char>|
            bm.contains_key(k1) && bm.contains_key(k2) && k1 != k2 ==> bm[k1] != bm[k2],
    ensures
        last_index(bs, bs[k]) == k,
{
    let keys = choose|keys: Seq<Seq<char>>|
        {
            &&& keys.len() == bs.len()
            &&& keys.no_duplicates()
            &&& forall|k: int|
                0 <= k < keys.len() ==> bm.contains_key(#[trigger] keys[k]) && bs[k] == bm[keys[k]]
            &&& forall|s: Seq<char>| bm.contains_key(s) ==> keys.contains(s)
        };
    lemma_last_index(bs, bs[k]);
    let k2 = last_index(bs, bs[k]);
    if k2 != k {
        assert(keys[k2] != keys[k]);
        assert(bm.contains_key(keys[k2]));
        assert(bm.contains_key(keys[k]));
    }
}

/// The last position of each node in `buildings`.
fn building_slots(buildings: &Vec<usize>, nn: usize) -> (slot: Vec<Option<usize>>)
    requires
        forall|k: int| 0 <= k < buildings@.len() ==> #[trigger] buildings@[k] < nn,
    ensures
        slot@.len() == nn,
        forall|x: int|
            0 <= x < nn ==> (#[trigger] slot@[x] is Some <==> last_index(buildings@, x as usize)
                >= 0) && (slot@[x] is Some ==> slot@[x]->Some_0 == last_index(
                buildings@,
                x as usize,
            )),
{
    let ghost bs = buildings@;
    let mut slot: Vec<Option<usize>> = Vec::new();
    let mut t: usize = 0;
    while t < nn
        invariant
            t <= nn,
            slot@.len() == t,
            forall|x: int| 0 <= x < t ==> (#[trigger] slot@[x]) is None,
        decreases nn - t,
    {
        slot.push(None);
        t = t + 1;
    }
    let n = buildings.len();
    let mut i: usize = 0;
    while i < n
        invariant
            i <= n,
            n == bs.len(),
            bs == buildings@,
            slot@.len() == nn,
            forall|k: int| 0 <= k < bs.len() ==> #[trigger] bs[k] < nn,
            forall|x: int|
                0 <= x < nn ==> (#[trigger] slot@[x] is Some <==> last_index(
                    bs.take(i as int),
                    x as usize,
                ) >= 0) && (slot@[x] is Some ==> slot@[x]->Some_0 == last_index(
                    bs.take(i as int),
                    x as usize,
                )),
        decreases n - i,
    {
        let b = buildings[i];
        proof {
            assert(bs.take(i + 1).drop_last() =~= bs.take(i as int));
            assert(bs.take(i + 1).last() == b);
            assert forall|x: int| 0 <= x < nn && x != b implies #[trigger] last_index(
                bs.take(i + 1),
                x as usize,
            ) == last_index(bs.take(i as int), x as usize) by {
            }
        }
        slot.set(b, Some(i));
        i = i + 1;
    }
    proof {
        assert(bs.take(n as int) =~= bs);
    }
    slot
}

/// What the union-find holds after the links from the first `i` positions.
#[verifier::opaque]
spec fn links_merged(
    es: Seq<(usize, usize, Edge)>,
    nodes: Seq<Node>,
    members: Set<usize>,
    max: int,
    bs: Seq<usize>,
    v: Seq<int>,
    i: int,
) -> bool {
    &&& v.len() == bs.len()
    &&& forall|k: int, l: int|
        0 <= k < bs.len() && 0 <= l < bs.len() && #[trigger] v[k] == #[trigger] v[l] ==> connected(
            es,
            nodes,
            members,
            max,
            bs[k],
            bs[l],
        )
    &&& forall|k: int, x: usize|
        0 <= k < i && #[trigger] linked(es, nodes, members, max, bs[k], x) ==> v[k] == v[last_index(
            bs,
            x,
        )]
}

/// Merges the set of position `i` with the set of every building that it links to.
#[verifier::spinoff_prover]
fn merge_links_from(
    graph: &BuiltGraph,
    buildings: &Vec<usize>,
    slot: &Vec<Option<usize>>,
    i: usize,
    max_distance: u64,
    uf: &mut UnionFind,
)
    requires
        i < buildings@.len(),
        slot@.len() == graph_nodes(graph.graph).len(),
        forall|k: int| 0 <= k < buildings@.len() ==> #[trigger] buildings@[k] < graph_nodes(graph.graph).len(),
        forall|x: int|
            0 <= x < slot@.len() ==> (#[trigger] slot@[x] is Some <==> last_index(buildings@, x as usize) >= 0)
                && (slot@[x] is Some ==> slot@[x]->Some_0 == last_index(buildings@, x as usize)),
        forall|b: usize|
            #[trigger] building_set(id_map_view(graph.building_nodes)).contains(b) <==> buildings@.contains(b),
        old(uf).wf(),
        old(uf)@.len() == buildings@.len(),
        links_merged(
            graph_edges(graph.graph),
            graph_nodes(graph.graph),
            building_set(id_map_view(graph.building_nodes)),
            max_distance as int,
            buildings@,
            old(uf)@,
            i as int,
        ),
    ensures
        final(uf).wf(),
        final(uf)@.len() == buildings@.len(),
        links_merged(
            graph_edges(graph.graph),
            graph_nodes(graph.graph),
            building_set(id_map_view(graph.building_nodes)),
            max_distance as int,
            buildings@,
            final(uf)@,
            i + 1,
        ),
{
    let ghost members = building_set(id_map_view(graph.building_nodes));
    let ghost es = graph_edges(graph.graph);
    let ghost nodes = graph_nodes(graph.graph);
    let ghost max = max_distance as int;
    let ghost bs = buildings@;
    let n = buildings.len();
    let nn = graph_node_count(&graph.graph);
    let start = buildings[i];
    proof {
        assert(bs.contains(start));
    }
    let mut sources: Vec<(usize, usize)> = Vec::new();
    sources.push((start, 0));
    let dist = nearest_sources(&graph.graph, &sources, false, Some(max_distance as u128));
    proof {
        assert forall|x: int|
            0 <= x < nn implies ((#[trigger] dist@[x]) is Some <==> exists|p: Seq<int>|
                is_walk(es, start as int, x, p) && walk_cost(es, p, false) <= max) by {
            if dist@[x] is Some {
                let d = dist@[x]->Some_0.1;
                assert(is_distance_from(es, sources@, x, d as int, false));
                let (k, p) = choose|k: int, p: Seq<int>|
                    0 <= k < sources@.len() && #[trigger] is_walk(es, sources@[k].0 as int, x, p)
                        && walk_cost(es, p, false) == d;
                assert(k == 0);
                assert(is_walk(es, start as int, x, p));
            } else {
                if exists|p: Seq<int>| is_walk(es, start as int, x, p) && walk_cost(es, p, false) <= max {
                    let p = choose|p: Seq<int>| is_walk(es, start as int, x, p) && walk_cost(es, p, false) <= max;
                    assert(is_walk(es, sources@[0].0 as int, x, p));
                }
            }
        }
    }
    let mut t: usize = 0;
    while t < nn
        invariant
            t <= nn,
            i < n,
            n == bs.len(),
            bs == buildings@,
            start == bs[i as int],
            nn == nodes.len(),
            es == graph_edges(graph.graph),
            nodes == graph_nodes(graph.graph),
            max == max_distance as int,
            members == building_set(id_map_view(graph.building_nodes)),
            forall|b: usize| #[trigger] members.contains(b) <==> bs.contains(b),
            sources@ == seq![(start, 0usize)],
            dist@.len() == nn,
            forall|x: int|
                0 <= x < nn ==> ((#[trigger] dist@[x]) is Some <==> exists|p: Seq<int>|
                    is_walk(es, start as int, x, p) && walk_cost(es, p, false) <= max),
            slot@.len() == nn,
            forall|x: int|
                0 <= x < nn ==> (#[trigger] slot@[x] is Some <==> last_index(bs, x as usize) >= 0)
                    && (slot@[x] is Some ==> slot@[x]->Some_0 == last_index(bs, x as usize)),
            uf.wf(),
            uf@.len() == n,
            links_merged(es, nodes, members, max, bs, uf@, i as int),
            forall|x: usize|
                x < t && #[trigger] linked(es, nodes, members, max, bs[i as int], x) ==> uf@[i as int]
                    == uf@[last_index(bs, x)],
        decreases nn - t,
    {
        let is_bld = match graph_node_weight(&graph.graph, t) {
            Some(Node::Building { .. }) => true,
            _ => false,
        };
        let ghost lk = linked(es, nodes, members, max, start, t as usize);
        proof {
            lemma_last_index(bs, t as usize);
            if lk {
                assert(members.contains(t as usize));
                assert(dist@[t as int] is Some);
            }
        }
        if t != start && is_bld && dist[t].is_some() {
            match slot[t] {
                Some(j) => {
                    proof {
                        assert(bs[j as int] == t);
                        assert(bs.contains(t as usize));
                        assert(members.contains(t as usize));
                        assert(linked(es, nodes, members, max, start, t as usize));
                        uf.law_representatives();
                        law_merge_joins(uf@, i as int, j as int);
                    }
                    let ghost v0 = uf@;
                    uf.union(i, j);
                    proof {
                        lemma_union_keeps_links(es, nodes, members, max, bs, v0, uf@, i as int, j as int, t as usize);
                        assert(uf@[i as int] == uf@[last_index(bs, t as usize)]);
                        assert forall|x: usize|
                            x < t + 1 && #[trigger] linked(es, nodes, members, max, bs[i as int], x)
                            implies uf@[i as int] == uf@[last_index(bs, x)] by {
                            if x < t {
                                assert(members.contains(x));
                                lemma_last_index(bs, x);
                                assert(v0[i as int] == v0[last_index(bs, x)]);
                            }
                        }
                    }
                },
                None => {
                    proof {
                        assert(!lk);
                    }
                },
            }
        } else {
            proof {
                assert(!lk);
            }
        }
        t = t + 1;
    }
    proof {
        assert forall|x: usize| #[trigger] linked(es, nodes, members, max, bs[i as int], x) implies uf@[i as int]
            == uf@[last_index(bs, x)] by {
            assert(x < nn);
        }
        lemma_links_extend(es, nodes, members, max, bs, uf@, i as int);
    }
}

proof fn lemma_links_extend(
    es: Seq<(usize, usize, Edge)>,
    nodes: Seq<Node>,
    members: Set<usize>,
    max: int,
    bs: Seq<usize>,
    v: Seq<int>,
    i: int,
)
    requires
        links_merged(es, nodes, members, max, bs, v, i),
        forall|x: usize| #[trigger] linked(es, nodes, members, max, bs[i], x) ==> v[i] == v[last_index(bs, x)],
    ensures
        links_merged(es, nodes, members, max, bs, v, i + 1),
{
    reveal(links_merged);
}

/// Merging the set of position `i` with that of position `j`, whose node `t`
/// it links to, keeps the merged sets joined by chains.
proof fn lemma_union_keeps_links(
    es: Seq<(usize, usize, Edge)>,
    nodes: Seq<Node>,
    members: Set<usize>,
    max: int,
    bs: Seq<usize>,
    v0: Seq<int>,
    v1: Seq<int>,
    i: int,
    j: int,
    t: usize,
)
    requires
        links_merged(es, nodes, members, max, bs, v0, i),
        is_partition(v0),
        0 <= i < bs.len(),
        0 <= j < bs.len(),
        bs[j] == t,
        members.contains(bs[i]),
        linked(es, nodes, members, max, bs[i], t),
        v1 == merged(v0, i, j),
        forall|b: usize| #[trigger] members.contains(b) ==> bs.contains(b),
    ensures
        links_merged(es, nodes, members, max, bs, v1, i),
        v1[i] == v1[j],
{
    reveal(links_merged);
    law_merge_joins(v0, i, j);
    let start = bs[i];
    assert forall|k: int, l: int|
        0 <= k < bs.len() && 0 <= l < bs.len() && #[trigger] v1[k] == #[trigger] v1[l]
        implies connected(es, nodes, members, max, bs[k], bs[l]) by {
        if v0[k] == v0[l] {
        } else if v0[k] == v0[i] && v0[l] == v0[j] {
            assert(connected(es, nodes, members, max, bs[k], start));
            lemma_connected_link(es, nodes, members, max, start, t);
            assert(connected(es, nodes, members, max, bs[j], bs[l]));
            lemma_connected_trans(es, nodes, members, max, bs[k], start, t);
            lemma_connected_trans(es, nodes, members, max, bs[k], t, bs[l]);
        } else {
            assert(v0[k] == v0[j] && v0[l] == v0[i]);
            assert(connected(es, nodes, members, max, bs[k], t));
            lemma_connected_link(es, nodes, members, max, start, t);
            lemma_connected_sym(es, nodes, members, max, start, t);
            assert(connected(es, nodes, members, max, start, bs[l]));
            lemma_connected_trans(es, nodes, members, max, bs[k], t, start);
            lemma_connected_trans(es, nodes, members, max, bs[k], start, bs[l]);
        }
    }
    assert forall|k: int, x: usize|
        0 <= k < i && #[trigger] linked(es, nodes, members, max, bs[k], x)
        implies v1[k] == v1[last_index(bs, x)] by {
        assert(members.contains(x));
        lemma_last_index(bs, x);
        assert(v0[k] == v0[last_index(bs, x)]);
    }
}

/// Numbers the sets of `reps` in order of first appearance and maps each node
/// of `buildings` to the number of the set of its last position.
#[verifier::spinoff_prover]
fn number_sets(uf: &mut UnionFind, buildings: &Vec<usize>) -> (res: (HashMap<usize, usize>, Ghost<Seq<Option<usize>>>))
    requires
        old(uf).wf(),
        old(uf)@.len() == buildings@.len(),
    ensures
        final(uf).wf(),
        final(uf)@ == old(uf)@,
        ({
            let (clusters, ids) = res;
            let reps = old(uf)@;
            let bs = buildings@;
            &&& ids@.len() == bs.len()
            &&& clusters@.dom() == bs.to_set()
            &&& forall|k: int| 0 <= k < bs.len() ==> (#[trigger] ids@[reps[k]]) is Some
            &&& forall|r1: int, r2: int|
                0 <= r1 < bs.len() && 0 <= r2 < bs.len() && (#[trigger] ids@[r1]) is Some && ids@[r1]
                    == #[trigger] ids@[r2] ==> r1 == r2
            &&& forall|b: usize|
                #[trigger] clusters@.dom().contains(b) ==> clusters@[b] == ids@[reps[last_index(
                    bs,
                    b,
                )]]->Some_0
            &&& forall|b: usize, c: int|
                #![trigger clusters@[b], id_assigned(ids@, c)]
                clusters@.dom().contains(b) && 0 <= c < clusters@[b] ==> id_assigned(ids@, c)
            &&& forall|r: int|
                0 <= r < bs.len() && (#[trigger] ids@[r]) is Some ==> exists|k: int|
                    0 <= k < bs.len() && reps[k] == r
        }),
{
    let ghost bs = buildings@;
    let n = buildings.len();
    let mut ids: Vec<Option<usize>> = Vec::new();
    let mut k: usize = 0;
    while k < n
        invariant
            k <= n,
            ids@.len() == k,
            forall|x: int| 0 <= x < k ==> (#[trigger] ids@[x]) is None,
        decreases n - k,
    {
        ids.push(None);
        k = k + 1;
    }
    proof {
        uf.law_representatives();
    }
    let ghost reps = uf@;
    let mut next: usize = 0;
    let mut clusters: HashMap<usize, usize> = HashMap::new();
    let mut i: usize = 0;
    while i < n
        invariant
            i <= n,
            n == bs.len(),
            bs == buildings@,
            uf.wf(),
            uf@ == reps,
            reps.len() == n,
            is_partition(reps),
            ids@.len() == n,
            next <= i,
            forall|r: int|
                0 <= r < n ==> ((#[trigger] ids@[r]) is Some <==> exists|k: int|
                    0 <= k < i && reps[k] == r),
            forall|r: int| 0 <= r < n && (#[trigger] ids@[r]) is Some ==> ids@[r]->Some_0 < next,
            forall|r1: int, r2: int|
                0 <= r1 < n && 0 <= r2 < n && (#[trigger] ids@[r1]) is Some && ids@[r1] == #[trigger] ids@[r2]
                    ==> r1 == r2,
            forall|c: int| 0 <= c < next ==> #[trigger] id_assigned(ids@, c),
            clusters@.dom() == bs.take(i as int).to_set(),
            forall|b: usize|
                #[trigger] clusters@.dom().contains(b) ==> clusters@[b] == ids@[reps[last_index(
                    bs.take(i as int),
                    b,
                )]]->Some_0,
        decreases n - i,
    {
        let r = uf.find(i);
        let ghost ids0 = ids@;
        let ghost next0 = next;
        let id = match ids[r] {
            Some(x) => x,
            None => {
                ids.set(r, Some(next));
                next = next + 1;
                next - 1
            },
        };
        let ghost before = clusters@;
        clusters.insert(buildings[i], id);
        proof {
            let b = bs[i as int];
            let t0 = bs.take(i as int);
            let t1 = bs.take(i + 1);
            assert(t1.drop_last() =~= t0);
            assert(t1.last() == b);
            assert(t1.to_set() =~= t0.to_set().insert(b)) by {
                assert forall|x: usize| t1.to_set().contains(x) implies t0.to_set().insert(b).contains(x) by {
                    let q = choose|q: int| 0 <= q < t1.len() && #[trigger] t1[q] == x;
                    if q < i {
                        assert(t0[q] == x);
                    }
                }
                assert forall|x: usize| t0.to_set().insert(b).contains(x) implies t1.to_set().contains(x) by {
                    if x == b {
                        assert(t1[i as int] == x);
                    } else {
                        let q = choose|q: int| 0 <= q < t0.len() && #[trigger] t0[q] == x;
                        assert(t1[q] == x);
                    }
                }
            }
            assert forall|rr: int|
                0 <= rr < n implies ((#[trigger] ids@[rr]) is Some <==> exists|kk: int|
                    0 <= kk < i + 1 && reps[kk] == rr) by {
                if rr == r {
                    assert(reps[i as int] == rr);
                } else {
                    assert(ids@[rr] == ids0[rr]);
                }
            }
            assert forall|c: int| 0 <= c < next implies #[trigger] id_assigned(ids@, c) by {
                if c < next0 {
                    assert(id_assigned(ids0, c));
                    let rr = choose|rr: int| 0 <= rr < ids0.len() && #[trigger] ids0[rr] == Some(c as usize);
                    if rr != r {
                        assert(ids@[rr] == ids0[rr]);
                    }
                } else {
                    assert(ids@[r as int] == Some(c as usize));
                }
            }
            assert forall|x: usize| #[trigger] clusters@.dom().contains(x) implies clusters@[x]
                == ids@[reps[last_index(t1, x)]]->Some_0 by {
                if x != b {
                    assert(before.contains_key(x));
                    lemma_last_index(t0, x);
                    let li = last_index(t0, x);
                    assert(t0.contains(x));
                    assert(0 <= li < i);
                    assert(ids0[reps[li]] is Some);
                    if reps[li] == r {
                    } else {
                        assert(ids@[reps[li]] == ids0[reps[li]]);
                    }
                }
            }
        }
        i = i + 1;
    }
    proof {
        assert(bs.take(n as int) =~= bs);
        assert forall|k: int| 0 <= k < bs.len() implies (#[trigger] ids@[reps[k]]) is Some by {
        }
        assert forall|b: usize, c: int|
            #![trigger clusters@[b], id_assigned(ids@, c)]
            clusters@.dom().contains(b) && 0 <= c < clusters@[b] implies id_assigned(ids@, c) by {
            let li = last_index(bs, b);
            lemma_last_index(bs, b);
            assert(bs.contains(b));
            assert(ids@[reps[li]] is Some);
        }
    }
    (clusters, Ghost(ids@))
}

/// The clusters of the buildings, numbered from 0 in the order in which the
/// building map is walked.
#[verifier::spinoff_prover]
fn cluster_buildings_walked(graph: &BuiltGraph, max_distance: u64) -> (clusters: HashMap<
    usize,
    usize,
>)
    requires
        forall|k: Seq<char>|
            #[trigger] id_map_view(graph.building_nodes).contains_key(k) ==> id_map_view(
                graph.building_nodes,
            )[k] < graph_nodes(graph.graph).len(),
    ensures
        ({
            let members = building_set(id_map_view(graph.building_nodes));
            let es = graph_edges(graph.graph);
            let nodes = graph_nodes(graph.graph);
            &&& clusters@.dom() == members
            &&& forall|b1: usize, b2: usize|
                members.contains(b1) && members.contains(b2) ==> (#[trigger] clusters@[b1]
                    == #[trigger] clusters@[b2] <==> connected(
                    es,
                    nodes,
                    members,
                    max_distance as int,
                    b1,
                    b2,
                ))
        }),
        // when each building has its own node, the ids used are exactly 0, 1, ..., k - 1
        (forall|k1: Seq<char>, k2: Seq<char>|
            id_map_view(graph.building_nodes).contains_key(k1) && id_map_view(
                graph.building_nodes,
            ).contains_key(k2) && k1 != k2 ==> id_map_view(graph.building_nodes)[k1]
                != id_map_view(graph.building_nodes)[k2]) ==> forall|b: usize, c: int|
            #![trigger clusters@[b], used_id(clusters@, c)]
            clusters@.dom().contains(b) && 0 <= c < clusters@[b] ==> used_id(clusters@, c),
{
    let ghost bm = id_map_view(graph.building_nodes);
    let ghost members = building_set(bm);
    let ghost es = graph_edges(graph.graph);
    let ghost nodes = graph_nodes(graph.graph);
    let ghost max = max_distance as int;
    let buildings = id_map_values(&graph.building_nodes);
    let ghost bs = buildings@;
    let n = buildings.len();
    let nn = graph_node_count(&graph.graph);
    proof {
        lemma_members_listed(bm, bs);
        assert forall|k: int| 0 <= k < bs.len() implies #[trigger] bs[k] < nn by {
            assert(bs.contains(bs[k]));
            assert(members.contains(bs[k]));
            let key = choose|key: Seq<char>| bm.contains_key(key) && bm[key] == bs[k];
        }
    }
    let slot = building_slots(&buildings, nn);
    let mut uf = UnionFind::new(n);
    proof {
        reveal(links_merged);
        uf.law_representatives();
        assert forall|k: int, l: int|
            0 <= k < bs.len() && 0 <= l < bs.len() && #[trigger] uf@[k] == #[trigger] uf@[l]
            implies connected(es, nodes, members, max, bs[k], bs[l]) by {
            assert(k == l);
            assert(bs.contains(bs[k]));
            lemma_connected_refl(es, nodes, members, max, bs[k]);
        }
    }
    let mut i: usize = 0;
    while i < n
        invariant
            i <= n,
            n == bs.len(),
            bs == buildings@,
            nn == nodes.len(),
            es == graph_edges(graph.graph),
            nodes == graph_nodes(graph.graph),
            max == max_distance as int,
            members == building_set(bm),
            bm == id_map_view(graph.building_nodes),
            slot@.len() == nn,
            forall|k: int| 0 <= k < bs.len() ==> #[trigger] bs[k] < nn,
            forall|b: usize| #[trigger] members.contains(b) <==> bs.contains(b),
            forall|x: int|
                0 <= x < nn ==> (#[trigger] slot@[x] is Some <==> last_index(bs, x as usize) >= 0)
                    && (slot@[x] is Some ==> slot@[x]->Some_0 == last_index(bs, x as usize)),
            uf.wf(),
            uf@.len() == n,
            links_merged(es, nodes, members, max, bs, uf@, i as int),
        decreases n - i,
    {
        merge_links_from(graph, &buildings, &slot, i, max_distance, &mut uf);
        i = i + 1;
    }
    let ghost reps = uf@;
    proof {
        uf.law_representatives();
    }
    let (clusters, ids) = number_sets(&mut uf, &buildings);
    proof {
        reveal(links_merged);
        assert(clusters@.dom() =~= members) by {
            assert forall|b: usize| clusters@.dom().contains(b) <==> members.contains(b) by {
                assert(bs.to_set().contains(b) <==> bs.contains(b));
            }
        }
        assert forall|b: usize| #[trigger] members.contains(b) implies last_index(bs, b) >= 0
            && bs[last_index(bs, b)] == b by {
            lemma_last_index(bs, b);
        }
        assert forall|b1: usize, b2: usize|
            members.contains(b1) && members.contains(b2) implies (#[trigger] clusters@[b1]
                == #[trigger] clusters@[b2] <==> connected(es, nodes, members, max, b1, b2)) by {
            let k1 = last_index(bs, b1);
            let k2 = last_index(bs, b2);
            lemma_last_index(bs, b1);
            lemma_last_index(bs, b2);
            assert(clusters@.dom().contains(b1));
            assert(clusters@.dom().contains(b2));
            assert(ids@[reps[k1]] is Some);
            assert(ids@[reps[k2]] is Some);
            if clusters@[b1] == clusters@[b2] {
                assert(reps[k1] == reps[k2]);
                assert(connected(es, nodes, members, max, bs[k1], bs[k2]));
            }
            if connected(es, nodes, members, max, b1, b2) {
                let xs = choose|xs: Seq<usize>|
                    #[trigger] is_chain(es, nodes, members, max, xs) && xs[0] == b1 && xs.last() == b2;
                lemma_chain_merged(es, nodes, members, max, bs, reps, xs);
            }
        }
        if forall|k1: Seq<char>, k2: Seq<char>|
            bm.contains_key(k1) && bm.contains_key(k2) && k1 != k2 ==> bm[k1] != bm[k2] {
            assert forall|b: usize, c: int|
                #![trigger clusters@[b], used_id(clusters@, c)]
                clusters@.dom().contains(b) && 0 <= c < clusters@[b] implies used_id(clusters@, c) by {
                assert(id_assigned(ids@, c));
                let r = choose|r: int| 0 <= r < ids@.len() && #[trigger] ids@[r] == Some(c as usize);
                let k = choose|k: int| 0 <= k < bs.len() && reps[k] == r;
                let b2 = bs[k];
                lemma_listed_once(bm, bs, k);
                assert(bs.contains(b2));
                assert(clusters@.dom().contains(b2));
                assert(clusters@[b2] == c);
            }
        }
    }
    clusters
}

/// The buildings of `members` below `n`, in increasing order.
pub open spec fn members_below(members: Set<usize>, n: int) -> Seq<usize>
    decreases n,
{
    if n <= 0 {
        Seq::empty()
    } else if members.contains((n - 1) as usize) {
        members_below(members, n - 1).push((n - 1) as usize)
    } else {
        members_below(members, n - 1)
    }
}

/// The numbers of the buildings of `list`, taken in turn: a building takes
/// the number of an earlier one that it shares a cluster with, or else the
/// next number not yet used; with the count of numbers used.
pub open spec fn numbering(
    es: Seq<(usize, usize, Edge)>,
    nodes: Seq<Node>,
    members: Set<usize>,
    max: int,
    list: Seq<usize>,
) -> (Map<usize, usize>, nat)
    decreases list.len(),
{
    if list.len() == 0 {
        (Map::empty(), 0)
    } else {
        let prev = numbering(es, nodes, members, max, list.drop_last());
        let b = list.last();
        if exists|k: int| 0 <= k < list.len() - 1 && #[trigger] connected(es, nodes, members, max, list[k], b) {
            let k = choose|k: int| 0 <= k < list.len() - 1 && #[trigger] connected(es, nodes, members, max, list[k], b);
            (prev.0.insert(b, prev.0[list[k]]), prev.1)
        } else {
            (prev.0.insert(b, prev.1 as usize), prev.1 + 1)
        }
    }
}

/// The cluster numbers of a graph's buildings: numbered in turn from the
/// building with the lowest node index up.
pub open spec fn cluster_map(graph: BuiltGraph, max: int) -> Map<usize, usize> {
    let members = building_set(id_map_view(graph.building_nodes));
    let nodes = graph_nodes(graph.graph);
    numbering(graph_edges(graph.graph), nodes, members, max, members_below(members, nodes.len() as int)).0
}

/// Clustering is repeatable: two graphs with the same nodes, edges and
/// buildings get, for the same distance, the same cluster map, in whatever
/// order their building maps are walked.
pub proof fn law_clustering_repeatable(g1: BuiltGraph, g2: BuiltGraph, max: int)
    requires
        graph_nodes(g1.graph) == graph_nodes(g2.graph),
        graph_edges(g1.graph) == graph_edges(g2.graph),
        id_map_view(g1.building_nodes) == id_map_view(g2.building_nodes),
    ensures
        cluster_map(g1, max) == cluster_map(g2, max),
{
}

/// What `members_below` lists.
proof fn lemma_members_below(members: Set<usize>, n: int)
    requires
        n <= usize::MAX,
    ensures
        forall|b: usize| #[trigger] members_below(members, n).contains(b) <==> members.contains(b) && b < n,
        forall|k: int, l: int|
            0 <= k < l < members_below(members, n).len() ==> (#[trigger] members_below(members, n)[k]) < (#[trigger] members_below(
                members,
                n,
            )[l]),
        forall|k: int| 0 <= k < members_below(members, n).len() ==> #[trigger] members_below(members, n)[k] < n,
    decreases n,
{
    if n > 0 {
        lemma_members_below(members, n - 1);
        let r = members_below(members, n - 1);
        let s = members_below(members, n);
        let top = (n - 1) as usize;
        assert(top == n - 1);
        assert forall|b: usize| #[trigger] s.contains(b) <==> members.contains(b) && b < n by {
            if members.contains(top) {
                if s.contains(b) && b != top {
                    let k = choose|k: int| 0 <= k < s.len() && s[k] == b;
                    assert(r[k] == b);
                }
                if r.contains(b) {
                    let k = choose|k: int| 0 <= k < r.len() && r[k] == b;
                    assert(s[k] == b);
                }
                assert(s[r.len() as int] == top);
            }
        }
        assert forall|k: int, l: int| 0 <= k < l < s.len() implies (#[trigger] s[k]) < (#[trigger] s[l]) by {
            if members.contains(top) {
                assert(s[k] == r[k]);
                if l < r.len() {
                    assert(s[l] == r[l]);
                } else {
                    assert(s[l] == top);
                    assert(r[k] < n - 1);
                }
            }
        }
        assert forall|k: int| 0 <= k < s.len() implies #[trigger] s[k] < n by {
            if members.contains(top) && k == r.len() {
                assert(s[k] == top);
            } else {
                assert(s[k] == r[k]);
            }
        }
    }
}

/// The buildings of `buildings` (all below `n`) in increasing order.
fn buildings_in_order(buildings: &Vec<usize>, n: usize) -> (list: Vec<usize>)
    requires
        forall|k: int| 0 <= k < buildings@.len() ==> #[trigger] buildings@[k] < n,
    ensures
        list@ == members_below(buildings@.to_set(), n as int),
{
    let mut marked: Vec<bool> = Vec::new();
    let mut v: usize = 0;
    while v < n
        invariant
            v <= n,
            marked@.len() == v,
            forall|x: int| 0 <= x < v ==> !(#[trigger] marked@[x]),
        decreases n - v,
    {
        marked.push(false);
        v = v + 1;
    }
    let mut i: usize = 0;
    while i < buildings.len()
        invariant
            i <= buildings@.len(),
            marked@.len() == n,
            forall|k: int| 0 <= k < buildings@.len() ==> #[trigger] buildings@[k] < n,
            forall|x: int| 0 <= x < n ==> (#[trigger] marked@[x] <==> exists|k: int| 0 <= k < i && buildings@[k] == x),
        decreases buildings@.len() - i,
    {
        let b = buildings[i];
        marked.set(b, true);
        proof {
            assert forall|x: int| 0 <= x < n implies (#[trigger] marked@[x] <==> exists|k: int|
                0 <= k < i + 1 && buildings@[k] == x) by {
                if x == b {
                    assert(buildings@[i as int] == x);
                }
            }
        }
        i = i + 1;
    }
    let mut list: Vec<usize> = Vec::new();
    let mut v: usize = 0;
    while v < n
        invariant
            v <= n,
            marked@.len() == n,
            forall|x: int| 0 <= x < n ==> (#[trigger] marked@[x] <==> buildings@.to_set().contains(x as usize)),
            list@ == members_below(buildings@.to_set(), v as int),
        decreases n - v,
    {
        if marked[v] {
            list.push(v);
        }
        v = v + 1;
    }
    list
}

/// A number in use stays in use when a building that had none is numbered.
proof fn lemma_used_kept(before: Map<usize, usize>, after: Map<usize, usize>, b: usize, c: int)
    requires
        used_id(before, c),
        !before.contains_key(b),
        after.contains_key(b),
        after == before.insert(b, after[b]),
    ensures
        used_id(after, c),
{
    let bb = choose|bb: usize| before.contains_key(bb) && before[bb] == c;
    assert(bb != b);
    assert(after.contains_key(bb) && after[bb] == c);
}

/// Numbers the clusters of `old` (buildings mapped to cluster numbers that
/// agree with `connected`) afresh along `list`.
#[verifier::spinoff_prover]
fn renumber(
    old: &HashMap<usize, usize>,
    list: &Vec<usize>,
    Ghost(es): Ghost<Seq<(usize, usize, Edge)>>,
    Ghost(nodes): Ghost<Seq<Node>>,
    Ghost(members): Ghost<Set<usize>>,
    Ghost(max): Ghost<int>,
) -> (new: HashMap<usize, usize>)
    requires
        forall|k: int| 0 <= k < list@.len() ==> old@.contains_key(#[trigger] list@[k]),
        forall|k: int, l: int| 0 <= k < l < list@.len() ==> (#[trigger] list@[k]) < (#[trigger] list@[l]),
        forall|k: int, l: int|
            0 <= k < list@.len() && 0 <= l < list@.len() ==> (old@[#[trigger] list@[k]] == old@[#[trigger] list@[l]]
                <==> connected(es, nodes, members, max, list@[k], list@[l])),
    ensures
        new@ == numbering(es, nodes, members, max, list@).0,
        forall|b: usize| #[trigger] new@.contains_key(b) <==> list@.contains(b),
        forall|k: int, l: int|
            0 <= k < list@.len() && 0 <= l < list@.len() ==> (new@[#[trigger] list@[k]] == new@[#[trigger] list@[l]]
                <==> old@[list@[k]] == old@[list@[l]]),
        forall|b: usize, c: int|
            #![trigger new@[b], used_id(new@, c)]
            new@.contains_key(b) && 0 <= c < new@[b] ==> used_id(new@, c),
{
    let ghost l = list@;
    let mut new: HashMap<usize, usize> = HashMap::new();
    let mut to_new: HashMap<usize, usize> = HashMap::new();
    let mut next: usize = 0;
    let mut i: usize = 0;
    while i < list.len()
        invariant
            i <= l.len(),
            l == list@,
            forall|k: int| 0 <= k < l.len() ==> old@.contains_key(#[trigger] l[k]),
            forall|k: int, k2: int| 0 <= k < k2 < l.len() ==> (#[trigger] l[k]) < (#[trigger] l[k2]),
            forall|k: int, k2: int|
                0 <= k < l.len() && 0 <= k2 < l.len() ==> (old@[#[trigger] l[k]] == old@[#[trigger] l[k2]]
                    <==> connected(es, nodes, members, max, l[k], l[k2])),
            new@ == numbering(es, nodes, members, max, l.take(i as int)).0,
            next == numbering(es, nodes, members, max, l.take(i as int)).1,
            next <= i,
            forall|b: usize| #[trigger] new@.contains_key(b) <==> exists|k: int| 0 <= k < i && l[k] == b,
            forall|o: usize| #[trigger] to_new@.contains_key(o) <==> exists|k: int| 0 <= k < i && old@[l[k]] == o,
            forall|k: int| 0 <= k < i ==> to_new@[old@[#[trigger] l[k]]] == new@[l[k]],
            forall|o1: usize, o2: usize|
                to_new@.contains_key(o1) && to_new@.contains_key(o2) && #[trigger] to_new@[o1] == #[trigger] to_new@[o2]
                    ==> o1 == o2,
            forall|o: usize| #[trigger] to_new@.contains_key(o) ==> to_new@[o] < next,
            forall|c: int| 0 <= c < next ==> #[trigger] used_id(new@, c),
        decreases l.len() - i,
    {
        let b = list[i];
        let o = match old.get(&b) {
            Some(x) => *x,
            None => {
                proof {
                    assert(old@.contains_key(l[i as int]));
                }
                0
            },
        };
        let ghost t = l.take(i + 1);
        let ghost new0 = new@;
        let ghost to0 = to_new@;
        proof {
            assert(t.drop_last() =~= l.take(i as int));
            assert(t.last() == b);
            assert(forall|k: int| 0 <= k < i ==> #[trigger] t[k] == l[k]);
            assert(forall|k: int| 0 <= k < i ==> l[k] < b);
            if new0.contains_key(b) {
                let k = choose|k: int| 0 <= k < i && l[k] == b;
                assert(l[k] < b);
            }
            assert(!new0.contains_key(b));
        }
        match to_new.get(&o) {
            Some(id) => {
                let id = *id;
                proof {
                    let k0 = choose|k: int| 0 <= k < i && old@[l[k]] == o;
                    assert(connected(es, nodes, members, max, t[k0], b));
                    let k = choose|k: int| 0 <= k < t.len() - 1 && #[trigger] connected(es, nodes, members, max, t[k], b);
                    assert(old@[l[k]] == old@[l[i as int]]);
                    assert(to0[old@[l[k]]] == new0[l[k]]);
                }
                new.insert(b, id);
            },
            None => {
                proof {
                    assert forall|k: int| 0 <= k < t.len() - 1 implies !#[trigger] connected(es, nodes, members, max, t[k], b) by {
                        if connected(es, nodes, members, max, t[k], b) {
                            assert(old@[l[k]] == old@[l[i as int]]);
                        }
                    }
                }
                new.insert(b, next);
                to_new.insert(o, next);
                next = next + 1;
            },
        }
        proof {
            assert forall|bb: usize| #[trigger] new@.contains_key(bb) <==> exists|k: int| 0 <= k < i + 1 && l[k] == bb by {
                if new0.contains_key(bb) {
                    let k = choose|k: int| 0 <= k < i && l[k] == bb;
                }
            }
            assert forall|oo: usize| #[trigger] to_new@.contains_key(oo) <==> exists|k: int| 0 <= k < i + 1 && old@[l[k]] == oo by {
                if to0.contains_key(oo) {
                    let k = choose|k: int| 0 <= k < i && old@[l[k]] == oo;
                }
                if oo == o {
                    assert(old@[l[i as int]] == oo);
                }
            }
            assert forall|k: int| 0 <= k < i + 1 implies to_new@[old@[#[trigger] l[k]]] == new@[l[k]] by {
                if k < i {
                    assert(l[k] != b);
                    assert(to0.contains_key(old@[l[k]]));
                }
            }
            assert forall|c: int| 0 <= c < next implies #[trigger] used_id(new@, c) by {
                if c < next - 1 || to0.contains_key(o) {
                    assert(used_id(new0, c));
                    lemma_used_kept(new0, new@, b, c);
                } else {
                    assert(new@.contains_key(b) && new@[b] == c);
                }
            }
        }
        i = i + 1;
    }
    proof {
        assert(l.take(l.len() as int) =~= l);
        assert forall|bb: usize| #[trigger] new@.contains_key(bb) <==> l.contains(bb) by {
            if l.contains(bb) {
                let k = choose|k: int| 0 <= k < l.len() && l[k] == bb;
            }
        }
        assert forall|k: int, k2: int|
            0 <= k < l.len() && 0 <= k2 < l.len() implies (new@[#[trigger] l[k]] == new@[#[trigger] l[k2]]
                <==> old@[l[k]] == old@[l[k2]]) by {
            assert(to_new@.contains_key(old@[l[k]]));
            assert(to_new@.contains_key(old@[l[k2]]));
        }
        assert forall|bb: usize, c: int|
            #![trigger new@[bb], used_id(new@, c)]
            new@.contains_key(bb) && 0 <= c < new@[bb] implies used_id(new@, c) by {
            let k = choose|k: int| 0 <= k < l.len() && l[k] == bb;
            assert(to_new@.contains_key(old@[l[k]]));
        }
    }
    new
}

/// Groups buildings into clusters: two buildings share a cluster exactly when a
/// chain of buildings joins them in which each is within `max_distance`
/// (millimetres, along roads; access links cost nothing) of the next.  Cluster
/// ids are 0, 1, ..., numbered in the order of each cluster's lowest node
/// index, so equal inputs give equal maps.
pub fn cluster_buildings(graph: &BuiltGraph, max_distance: u64) -> (clusters: HashMap<usize, usize>)
    requires
        forall|k: Seq<char>|
            #[trigger] id_map_view(graph.building_nodes).contains_key(k) ==> id_map_view(
                graph.building_nodes,
            )[k] < graph_nodes(graph.graph).len(),
    ensures
        ({
            let members = building_set(id_map_view(graph.building_nodes));
            let es = graph_edges(graph.graph);
            let nodes = graph_nodes(graph.graph);
            &&& clusters@.dom() == members
            &&& forall|b1: usize, b2: usize|
                members.contains(b1) && members.contains(b2) ==> (#[trigger] clusters@[b1]
                    == #[trigger] clusters@[b2] <==> connected(
                    es,
                    nodes,
                    members,
                    max_distance as int,
                    b1,
                    b2,
                ))
            &&& clusters@ == cluster_map(*graph, max_distance as int)
            &&& forall|b: usize, c: int|
                #![trigger clusters@[b], used_id(clusters@, c)]
                clusters@.dom().contains(b) && 0 <= c < clusters@[b] ==> used_id(clusters@, c)
        }),
{
    let ghost bm = id_map_view(graph.building_nodes);
    let ghost members = building_set(bm);
    let ghost es = graph_edges(graph.graph);
    let ghost nodes = graph_nodes(graph.graph);
    let ghost max = max_distance as int;
    let old = cluster_buildings_walked(graph, max_distance);
    let buildings = id_map_values(&graph.building_nodes);
    let nn = graph_node_count(&graph.graph);
    proof {
        lemma_members_listed(bm, buildings@);
        assert forall|k: int| 0 <= k < buildings@.len() implies #[trigger] buildings@[k] < nn by {
            assert(buildings@.contains(buildings@[k]));
            assert(members.contains(buildings@[k]));
            let key = choose|key: Seq<char>| bm.contains_key(key) && bm[key] == buildings@[k];
        }
        assert(buildings@.to_set() =~= members) by {
            assert forall|b: usize| buildings@.to_set().contains(b) <==> members.contains(b) by {}
        }
    }
    let list = buildings_in_order(&buildings, nn);
    proof {
        lemma_members_below(members, nn as int);
        assert forall|k: int| 0 <= k < list@.len() implies old@.contains_key(#[trigger] list@[k]) by {
            assert(list@.contains(list@[k]));
        }
        assert forall|k: int, l: int|
            0 <= k < list@.len() && 0 <= l < list@.len() implies (old@[#[trigger] list@[k]] == old@[#[trigger] list@[l]]
                <==> connected(es, nodes, members, max, list@[k], list@[l])) by {
            assert(list@.contains(list@[k]));
            assert(list@.contains(list@[l]));
        }
    }
    let clusters = renumber(&old, &list, Ghost(es), Ghost(nodes), Ghost(members), Ghost(max));
    proof {
        assert(clusters@.dom() =~= members) by {
            assert forall|b: usize| clusters@.dom().contains(b) <==> members.contains(b) by {
                if members.contains(b) {
                    assert(list@.contains(b));
                }
            }
        }
        assert forall|b1: usize, b2: usize|
            members.contains(b1) && members.contains(b2) implies (#[trigger] clusters@[b1] == #[trigger] clusters@[b2]
                <==> connected(es, nodes, members, max, b1, b2)) by {
            assert(list@.contains(b1));
            assert(list@.contains(b2));
            let k1 = choose|k: int| 0 <= k < list@.len() && list@[k] == b1;
            let k2 = choose|k: int| 0 <= k < list@.len() && list@[k] == b2;
            assert(clusters@[list@[k1]] == clusters@[list@[k2]] <==> old@[list@[k1]] == old@[list@[k2]]);
        }
    }
    clusters
}

} // verus!
