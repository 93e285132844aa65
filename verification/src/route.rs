//! Routing the chosen hubs together over the road graph: each hub after the
//! first is joined by a cheapest walk to the nodes joined before it, and the
//! road segments along those walks are collected.
use std::collections::HashMap;
use vstd::prelude::*;

use crate::id_map::{id_map_contains, id_map_insert, id_map_new, id_map_view};
use crate::model::Edge;
use crate::petgraph_specs::{graph_edge_weight, graph_edges, graph_node_count, graph_nodes, SpatialGraph};
use crate::search::{links_ranked, parent_link_ok, search_with_links};
use crate::sources::{first_occurrences, string_views};
use crate::walks::{
    is_distance_from, is_walk, law_walk_reverse, lemma_walk_empty, lemma_walk_push, walk_cost, walk_end,
};

verus! {

/// The nodes that the walk `p` from `s` passes through, both ends included.
pub open spec fn walk_nodes(es: Seq<(usize, usize, Edge)>, s: int, p: Seq<int>) -> Set<int>
    decreases p.len(),
{
    if p.len() == 0 {
        set![s]
    } else {
        walk_nodes(es, s, p.drop_last()).insert(walk_end(es, s, p))
    }
}

/// The id of the road segment that an edge runs along; none for an access
/// link or a road without an id.
pub open spec fn edge_road_ids(e: Edge) -> Seq<Seq<char>> {
    match e {
        Edge::Road { segment_id, .. } => if segment_id@.len() > 0 {
            seq![segment_id@]
        } else {
            Seq::empty()
        },
        Edge::BuildingAccess { .. } => Seq::empty(),
    }
}

/// The road segment ids along the walk `p`, in walk order, with repeats.
pub open spec fn walk_road_ids(es: Seq<(usize, usize, Edge)>, p: Seq<int>) -> Seq<Seq<char>>
    decreases p.len(),
{
    if p.len() == 0 {
        Seq::empty()
    } else {
        walk_road_ids(es, p.drop_last()) + edge_road_ids(es[p.last()].2)
    }
}

/// `q` is a cheapest walk (access links counted) from `h` to one of the
/// nodes `tree`.
pub open spec fn cheapest_into(es: Seq<(usize, usize, Edge)>, tree: Set<int>, h: int, q: Seq<int>) -> bool {
    &&& exists|t: int| tree.contains(t) && #[trigger] is_walk(es, h, t, q)
    &&& forall|t: int, p: Seq<int>|
        tree.contains(t) && #[trigger] is_walk(es, h, t, p) ==> walk_cost(es, p, true) >= walk_cost(es, q, true)
}

/// No walk leads from `h` to any of the nodes `tree`.
pub open spec fn cut_off(es: Seq<(usize, usize, Edge)>, tree: Set<int>, h: int) -> bool {
    forall|t: int, p: Seq<int>| tree.contains(t) ==> !#[trigger] is_walk(es, h, t, p)
}

/// How hub `h` is joined to the nodes `tree`: `Some(q)` for a cheapest walk
/// `q` from `h` to one of them (empty when `h` is one of them); `None` when
/// no walk from `h` reaches them.
pub open spec fn joins(es: Seq<(usize, usize, Edge)>, tree: Set<int>, h: int, way: Option<Seq<int>>) -> bool {
    match way {
        Some(q) => cheapest_into(es, tree, h, q),
        None => cut_off(es, tree, h),
    }
}

/// The nodes that a way from `h` passes through.
pub open spec fn way_nodes(es: Seq<(usize, usize, Edge)>, h: int, way: Option<Seq<int>>) -> Set<int> {
    match way {
        Some(q) => walk_nodes(es, h, q),
        None => Set::empty(),
    }
}

/// The road segment ids along a way, in order, with repeats.
pub open spec fn way_road_ids(es: Seq<(usize, usize, Edge)>, way: Option<Seq<int>>) -> Seq<Seq<char>> {
    match way {
        Some(q) => walk_road_ids(es, q),
        None => Seq::empty(),
    }
}

/// The nodes joined before hub `j` (for `j >= 1`): the first hub and the
/// nodes of the ways of hubs `1..j`.
pub open spec fn tree_before(
    es: Seq<(usize, usize, Edge)>,
    hubs: Seq<usize>,
    ways: Seq<Option<Seq<int>>>,
    j: int,
) -> Set<int>
    decreases j,
{
    if j <= 1 {
        set![hubs[0] as int]
    } else {
        tree_before(es, hubs, ways, j - 1).union(way_nodes(es, hubs[j - 1] as int, ways[j - 1]))
    }
}

/// The road segment ids along the ways of hubs `1..j`, in order, with repeats.
pub open spec fn route_road_ids(es: Seq<(usize, usize, Edge)>, ways: Seq<Option<Seq<int>>>, j: int) -> Seq<Seq<char>>
    decreases j,
{
    if j <= 1 {
        Seq::empty()
    } else {
        route_road_ids(es, ways, j - 1) + way_road_ids(es, ways[j - 1])
    }
}

/// `ways[j]` joins hub `j` to the nodes joined before it, for every hub after
/// the first.
pub open spec fn routed(es: Seq<(usize, usize, Edge)>, hubs: Seq<usize>, ways: Seq<Option<Seq<int>>>) -> bool {
    &&& ways.len() == hubs.len()
    &&& forall|j: int|
        1 <= j < hubs.len() ==> joins(es, tree_before(es, hubs, ways, j), hubs[j] as int, #[trigger] ways[j])
}

/// What is joined before hub `j` depends on the ways of the hubs before it only.
proof fn lemma_prefix(
    es: Seq<(usize, usize, Edge)>,
    hubs: Seq<usize>,
    ways: Seq<Option<Seq<int>>>,
    w: Option<Seq<int>>,
    j: int,
)
    requires
        j <= ways.len(),
    ensures
        tree_before(es, hubs, ways.push(w), j) == tree_before(es, hubs, ways, j),
        route_road_ids(es, ways.push(w), j) == route_road_ids(es, ways, j),
    decreases j,
{
    if j > 1 {
        lemma_prefix(es, hubs, ways, w, j - 1);
        assert(ways.push(w)[j - 1] == ways[j - 1]);
    }
}

/// A walk from `h` into `tree` whose cost is the least cost of reaching `h`
/// from the nodes of `tree` joins `h` to `tree`.
proof fn lemma_join_found(
    es: Seq<(usize, usize, Edge)>,
    sources: Seq<(usize, usize)>,
    tree: Set<int>,
    h: int,
    d: int,
    q: Seq<int>,
)
    requires
        is_distance_from(es, sources, h, d, true),
        walk_cost(es, q, true) == d,
        exists|t: int| tree.contains(t) && #[trigger] is_walk(es, h, t, q),
        forall|t: int| #[trigger] tree.contains(t) ==> exists|k: int| 0 <= k < sources.len() && sources[k].0 == t,
    ensures
        cheapest_into(es, tree, h, q),
{
    assert forall|t: int, p: Seq<int>| tree.contains(t) && #[trigger] is_walk(es, h, t, p) implies walk_cost(
        es,
        p,
        true,
    ) >= walk_cost(es, q, true) by {
        law_walk_reverse(es, h, t, p, true);
        let k = choose|k: int| 0 <= k < sources.len() && sources[k].0 == t;
        assert(is_walk(es, sources[k].0 as int, h, p.reverse()));
    }
}

/// When no walk leads from the nodes of `tree` to `h`, `h` is joined to
/// nothing.
proof fn lemma_join_none(es: Seq<(usize, usize, Edge)>, sources: Seq<(usize, usize)>, tree: Set<int>, h: int)
    requires
        forall|k: int, p: Seq<int>| 0 <= k < sources.len() ==> !#[trigger] is_walk(es, sources[k].0 as int, h, p),
        forall|t: int| #[trigger] tree.contains(t) ==> exists|k: int| 0 <= k < sources.len() && sources[k].0 == t,
    ensures
        cut_off(es, tree, h),
{
    assert forall|t: int, p: Seq<int>| tree.contains(t) implies !#[trigger] is_walk(es, h, t, p) by {
        if is_walk(es, h, t, p) {
            law_walk_reverse(es, h, t, p, true);
            let k = choose|k: int| 0 <= k < sources.len() && sources[k].0 == t;
            assert(is_walk(es, sources[k].0 as int, h, p.reverse()));
        }
    }
}

/// The nodes marked in `in_tree`, in index order, each with label 0.
fn tree_sources(in_tree: &Vec<bool>) -> (srcs: Vec<(usize, usize)>)
    ensures
        forall|k: int|
            0 <= k < srcs@.len() ==> (#[trigger] srcs@[k]).0 < in_tree@.len() && in_tree@[srcs@[k].0 as int]
                && srcs@[k].1 == 0,
        forall|k: int, l: int| 0 <= k < l < srcs@.len() ==> (#[trigger] srcs@[k]).0 < (#[trigger] srcs@[l]).0,
        forall|v: int|
            0 <= v < in_tree@.len() && #[trigger] in_tree@[v] ==> exists|k: int|
                0 <= k < srcs@.len() && srcs@[k].0 == v,
{
    let mut srcs: Vec<(usize, usize)> = Vec::new();
    let mut v: usize = 0;
    while v < in_tree.len()
        invariant
            v <= in_tree@.len(),
            forall|k: int|
                0 <= k < srcs@.len() ==> (#[trigger] srcs@[k]).0 < v && in_tree@[srcs@[k].0 as int]
                    && srcs@[k].1 == 0,
            forall|k: int, l: int| 0 <= k < l < srcs@.len() ==> (#[trigger] srcs@[k]).0 < (#[trigger] srcs@[l]).0,
            forall|x: int|
                0 <= x < v && #[trigger] in_tree@[x] ==> exists|k: int| 0 <= k < srcs@.len() && srcs@[k].0 == x,
        decreases in_tree@.len() - v,
    {
        if in_tree[v] {
            let ghost before = srcs@;
            srcs.push((v, 0));
            proof {
                assert forall|x: int| 0 <= x <= v && #[trigger] in_tree@[x] implies exists|k: int|
                    0 <= k < srcs@.len() && srcs@[k].0 == x by {
                    if x < v {
                        let k = choose|k: int| 0 <= k < before.len() && before[k].0 == x;
                        assert(srcs@[k] == before[k]);
                    } else {
                        assert(srcs@[before.len() as int].0 == x);
                    }
                }
            }
        }
        v = v + 1;
    }
    srcs
}

/// Follows the links of a search from `h` back to a node that has none,
/// marking each node passed in `in_tree` and adding to `out` (and `seen`)
/// each road segment id passed that `seen` does not hold yet.
#[verifier::spinoff_prover]
fn follow_links(
    g: &SpatialGraph,
    dist: &Vec<Option<(usize, u128)>>,
    parent: &Vec<Option<(usize, usize)>>,
    h: usize,
    in_tree: &mut Vec<bool>,
    seen: &mut HashMap<String, usize>,
    out: &mut Vec<String>,
    Ghost(tree): Ghost<Set<int>>,
    Ghost(ids): Ghost<Seq<Seq<char>>>,
) -> (q: Ghost<Seq<int>>)
    requires
        dist@.len() == graph_nodes(*g).len(),
        parent@.len() == graph_nodes(*g).len(),
        old(in_tree)@.len() == graph_nodes(*g).len(),
        h < graph_nodes(*g).len(),
        dist@[h as int] is Some,
        forall|v: int| 0 <= v < parent@.len() ==> #[trigger] parent_link_ok(graph_edges(*g), true, dist@, parent@, v),
        forall|v: int|
            0 <= v < parent@.len() && (#[trigger] dist@[v]) is Some && parent@[v] is None ==> tree.contains(v)
                && dist@[v]->Some_0.1 == 0,
        exists|rank: Seq<int>| #[trigger] links_ranked(parent@, rank),
        string_views(old(out)@) == first_occurrences(ids),
        forall|x: Seq<char>| #[trigger] id_map_view(*old(seen)).contains_key(x) <==> first_occurrences(ids).contains(x),
    ensures
        exists|t: int| tree.contains(t) && #[trigger] is_walk(graph_edges(*g), h as int, t, q@),
        walk_cost(graph_edges(*g), q@, true) == dist@[h as int]->Some_0.1,
        final(in_tree)@.len() == old(in_tree)@.len(),
        forall|v: int|
            0 <= v < old(in_tree)@.len() ==> (#[trigger] final(in_tree)@[v] <==> old(in_tree)@[v] || walk_nodes(
                graph_edges(*g),
                h as int,
                q@,
            ).contains(v)),
        forall|v: int| #[trigger] walk_nodes(graph_edges(*g), h as int, q@).contains(v) ==> 0 <= v < graph_nodes(*g).len(),
        string_views(final(out)@) == first_occurrences(ids + walk_road_ids(graph_edges(*g), q@)),
        forall|x: Seq<char>|
            #[trigger] id_map_view(*final(seen)).contains_key(x) <==> first_occurrences(
                ids + walk_road_ids(graph_edges(*g), q@),
            ).contains(x),
{
    let ghost es = graph_edges(*g);
    let ghost n = graph_nodes(*g).len();
    let ghost rank = choose|rank: Seq<int>| #[trigger] links_ranked(parent@, rank);
    let ghost start = in_tree@;
    let ghost mut q: Seq<int> = Seq::empty();
    proof {
        lemma_walk_empty(es, h as int, true);
        assert(ids + walk_road_ids(es, q) =~= ids);
    }
    let mut curr = h;
    in_tree.set(h, true);
    while parent[curr].is_some()
        invariant
            es == graph_edges(*g),
            n == graph_nodes(*g).len(),
            dist@.len() == n,
            parent@.len() == n,
            h < n,
            dist@[h as int] is Some,
            forall|v: int| 0 <= v < parent@.len() ==> #[trigger] parent_link_ok(es, true, dist@, parent@, v),
            links_ranked(parent@, rank),
            curr < n,
            dist@[curr as int] is Some,
            is_walk(es, h as int, curr as int, q),
            walk_cost(es, q, true) + dist@[curr as int]->Some_0.1 == dist@[h as int]->Some_0.1,
            in_tree@.len() == n,
            start.len() == n,
            forall|v: int| 0 <= v < n ==> (#[trigger] in_tree@[v] <==> start[v] || walk_nodes(es, h as int, q).contains(v)),
            forall|v: int| #[trigger] walk_nodes(es, h as int, q).contains(v) ==> 0 <= v < n,
            string_views(out@) == first_occurrences(ids + walk_road_ids(es, q)),
            forall|x: Seq<char>|
                #[trigger] id_map_view(*seen).contains_key(x) <==> first_occurrences(ids + walk_road_ids(es, q)).contains(x),
        decreases rank[curr as int],
    {
        let (e, u) = parent[curr].unwrap();
        proof {
            assert(parent_link_ok(es, true, dist@, parent@, curr as int));
            lemma_walk_push(es, h as int, curr as int, q, e as int, true);
            assert(q.push(e as int).drop_last() =~= q);
        }
        let ghost before = ids + walk_road_ids(es, q);
        let ghost r = first_occurrences(before);
        let ew = graph_edge_weight(g, e);
        match ew {
            Some(Edge::Road { segment_id, .. }) => {
                if !segment_id.as_str().is_empty() {
                    proof {
                        assert(edge_road_ids(es[e as int].2) =~= seq![segment_id@]);
                        assert(ids + walk_road_ids(es, q.push(e as int)) =~= before.push(segment_id@));
                        assert(before.push(segment_id@).drop_last() =~= before);
                    }
                    if !id_map_contains(seen, segment_id) {
                        id_map_insert(seen, segment_id.clone(), 0);
                        let ghost out_before = out@;
                        out.push(segment_id.clone());
                        proof {
                            let s = segment_id@;
                            assert(string_views(out@) =~= string_views(out_before).push(s));
                            assert forall|x: Seq<char>| #[trigger] id_map_view(*seen).contains_key(x) <==> r.push(s).contains(x) by {
                                if x != s {
                                    if r.push(s).contains(x) {
                                        let k = choose|k: int| 0 <= k < r.push(s).len() && r.push(s)[k] == x;
                                        assert(r[k] == x);
                                    }
                                    if r.contains(x) {
                                        let k = choose|k: int| 0 <= k < r.len() && r[k] == x;
                                        assert(r.push(s)[k] == x);
                                    }
                                } else {
                                    assert(r.push(s)[r.len() as int] == x);
                                }
                            }
                        }
                    }
                } else {
                    proof {
                        assert(edge_road_ids(es[e as int].2) =~= Seq::<Seq<char>>::empty());
                        assert(ids + walk_road_ids(es, q.push(e as int)) =~= before);
                    }
                }
            },
            _ => {
                proof {
                    assert(edge_road_ids(es[e as int].2) =~= Seq::<Seq<char>>::empty());
                    assert(ids + walk_road_ids(es, q.push(e as int)) =~= before);
                }
            },
        }
        proof {
            assert(walk_nodes(es, h as int, q.push(e as int)) == walk_nodes(es, h as int, q).insert(u as int));
            q = q.push(e as int);
        }
        in_tree.set(u, true);
        curr = u;
    }
    proof {
        assert(tree.contains(curr as int));
        assert(is_walk(es, h as int, curr as int, q));
    }
    Ghost(q)
}

/// Joins the hubs one after another over the graph: the first hub starts the
/// joined set;
/// each later hub is joined by a cheapest walk (access links counted) to a
/// node joined before it, and the nodes of that walk join the set; a hub that
/// no walk connects is left out.  Returns the ids of the road segments along
/// those walks, each once, in the order in which the walks (each read from
/// its hub) first pass them.
#[verifier::spinoff_prover]
pub fn route_segments(g: &SpatialGraph, hubs: &Vec<usize>) -> (segs: Vec<String>)
    requires
        forall|k: int| 0 <= k < hubs@.len() ==> #[trigger] hubs@[k] < graph_nodes(*g).len(),
    ensures
        exists|ways: Seq<Option<Seq<int>>>|
            #[trigger] routed(graph_edges(*g), hubs@, ways) && string_views(segs@) == first_occurrences(
                route_road_ids(graph_edges(*g), ways, hubs@.len() as int),
            ),
{
    let ghost es = graph_edges(*g);
    let n = graph_node_count(g);
    let mut out: Vec<String> = Vec::new();
    if hubs.len() < 2 {
        proof {
            let ways = Seq::new(hubs@.len(), |j: int| None::<Seq<int>>);
            assert(routed(es, hubs@, ways));
            assert(route_road_ids(es, ways, hubs@.len() as int) =~= Seq::<Seq<char>>::empty());
            assert(string_views(out@) =~= Seq::<Seq<char>>::empty());
        }
        return out;
    }
    let mut in_tree: Vec<bool> = Vec::new();
    let mut i: usize = 0;
    while i < n
        invariant
            i <= n,
            in_tree@.len() == i,
            forall|v: int| 0 <= v < i ==> !(#[trigger] in_tree@[v]),
        decreases n - i,
    {
        in_tree.push(false);
        i = i + 1;
    }
    in_tree.set(hubs[0], true);
    let mut seen = id_map_new();
    let ghost mut ways: Seq<Option<Seq<int>>> = seq![None];
    proof {
        assert(route_road_ids(es, ways, 1) =~= Seq::<Seq<char>>::empty());
        assert(string_views(out@) =~= Seq::<Seq<char>>::empty());
    }
    let mut j: usize = 1;
    while j < hubs.len()
        invariant
            1 <= j <= hubs@.len(),
            es == graph_edges(*g),
            n == graph_nodes(*g).len(),
            forall|k: int| 0 <= k < hubs@.len() ==> #[trigger] hubs@[k] < n,
            ways.len() == j,
            forall|jj: int|
                1 <= jj < j ==> joins(es, tree_before(es, hubs@, ways, jj), hubs@[jj] as int, #[trigger] ways[jj]),
            in_tree@.len() == n,
            forall|v: int| 0 <= v < n ==> (#[trigger] in_tree@[v] <==> tree_before(es, hubs@, ways, j as int).contains(v)),
            forall|v: int| #[trigger] tree_before(es, hubs@, ways, j as int).contains(v) ==> 0 <= v < n,
            string_views(out@) == first_occurrences(route_road_ids(es, ways, j as int)),
            forall|x: Seq<char>|
                #[trigger] id_map_view(seen).contains_key(x) <==> first_occurrences(route_road_ids(es, ways, j as int)).contains(x),
        decreases hubs@.len() - j,
    {
        let h = hubs[j];
        let ghost tree = tree_before(es, hubs@, ways, j as int);
        let ghost ids = route_road_ids(es, ways, j as int);
        let ghost start = in_tree@;
        let sources = tree_sources(&in_tree);
        let (dist, parent) = search_with_links(g, &sources, true, None);
        let ghost mut way: Option<Seq<int>> = None;
        proof {
            assert forall|t: int| #[trigger] tree.contains(t) implies exists|k: int|
                0 <= k < sources@.len() && sources@[k].0 == t by {
                assert(start[t]);
            }
        }
        if dist[h].is_some() {
            proof {
                assert forall|v: int|
                    0 <= v < parent@.len() && (#[trigger] dist@[v]) is Some && parent@[v] is None implies tree.contains(v)
                        && dist@[v]->Some_0.1 == 0 by {
                    let k = choose|k: int| 0 <= k < sources@.len() && sources@[k].0 == v;
                    assert(dist@[sources@[k].0 as int] == Some((sources@[k].1, 0u128)));
                    assert(in_tree@[sources@[k].0 as int]);
                }
            }
            let q = follow_links(g, &dist, &parent, h, &mut in_tree, &mut seen, &mut out, Ghost(tree), Ghost(ids));
            proof {
                way = Some(q@);
                lemma_join_found(es, sources@, tree, h as int, dist@[h as int]->Some_0.1 as int, q@);
            }
        } else {
            proof {
                assert forall|k: int, p: Seq<int>| 0 <= k < sources@.len() implies !#[trigger] is_walk(
                    es,
                    sources@[k].0 as int,
                    h as int,
                    p,
                ) by {
                    if is_walk(es, sources@[k].0 as int, h as int, p) {
                        assert(dist@[h as int] is None);
                    }
                }
                lemma_join_none(es, sources@, tree, h as int);
                assert(ids + way_road_ids(es, way) =~= ids);
            }
        }
        proof {
            let ways2 = ways.push(way);
            assert forall|jj: int| 1 <= jj <= j implies tree_before(es, hubs@, ways2, jj) == tree_before(es, hubs@, ways, jj) by {
                lemma_prefix(es, hubs@, ways, way, jj);
            }
            lemma_prefix(es, hubs@, ways, way, j as int);
            assert(ways2[j as int] == way);
            assert(tree_before(es, hubs@, ways2, j + 1) == tree.union(way_nodes(es, h as int, way)));
            assert(route_road_ids(es, ways2, j + 1) == ids + way_road_ids(es, way));
            assert forall|jj: int|
                1 <= jj < j + 1 implies joins(es, tree_before(es, hubs@, ways2, jj), hubs@[jj] as int, #[trigger] ways2[jj]) by {
                if jj < j {
                    assert(ways2[jj] == ways[jj]);
                }
            }
            ways = ways2;
        }
        j = j + 1;
    }
    proof {
        assert(routed(es, hubs@, ways));
    }
    out
}

/// Everything joined before hub `j` stays joined later: the first hub and
/// the nodes of the ways of hubs `1..j`.
proof fn lemma_tree_holds(
    es: Seq<(usize, usize, Edge)>,
    hubs: Seq<usize>,
    ways: Seq<Option<Seq<int>>>,
    j: int,
)
    requires
        1 <= j,
    ensures
        tree_before(es, hubs, ways, j).contains(hubs[0] as int),
        forall|i: int, t: int|
            1 <= i < j && #[trigger] way_nodes(es, hubs[i] as int, ways[i]).contains(t) ==> tree_before(
                es,
                hubs,
                ways,
                j,
            ).contains(t),
    decreases j,
{
    if j > 1 {
        lemma_tree_holds(es, hubs, ways, j - 1);
    }
}

/// Law: every hub after the first is joined to all that was routed before
/// it, not to the earlier hubs alone.  When a walk `q` joins hub `j`, no walk
/// from that hub to the first hub, or to any node on the walk of an earlier
/// hub, costs less than `q`; when hub `j` is left out, no walk leads from it
/// to any of those nodes.
pub proof fn law_route_joins_routed_nodes(
    es: Seq<(usize, usize, Edge)>,
    hubs: Seq<usize>,
    ways: Seq<Option<Seq<int>>>,
    j: int,
    i: int,
    t: int,
    p: Seq<int>,
)
    requires
        routed(es, hubs, ways),
        1 <= j < hubs.len(),
        t == hubs[0] as int || (1 <= i < j && ways[i] is Some && walk_nodes(es, hubs[i] as int, ways[i]->0).contains(t)),
        is_walk(es, hubs[j] as int, t, p),
    ensures
        ways[j] is Some,
        walk_cost(es, p, true) >= walk_cost(es, ways[j]->0, true),
{
    lemma_tree_holds(es, hubs, ways, j);
    if t != hubs[0] as int {
        assert(way_nodes(es, hubs[i] as int, ways[i]).contains(t));
    }
    let tree = tree_before(es, hubs, ways, j);
    assert(tree.contains(t));
    assert(joins(es, tree, hubs[j] as int, ways[j]));
}

/// What is joined before hub `j` is the first hub and the nodes of the ways
/// of hubs `1..j`, nothing else.
proof fn lemma_tree_only(
    es: Seq<(usize, usize, Edge)>,
    hubs: Seq<usize>,
    ways: Seq<Option<Seq<int>>>,
    j: int,
    t: int,
)
    requires
        tree_before(es, hubs, ways, j).contains(t),
    ensures
        t == hubs[0] as int || exists|i: int|
            1 <= i < j && ways[i] is Some && #[trigger] walk_nodes(es, hubs[i] as int, ways[i]->0).contains(t),
    decreases j,
{
    if j > 1 && !tree_before(es, hubs, ways, j - 1).contains(t) {
        assert(way_nodes(es, hubs[j - 1] as int, ways[j - 1]).contains(t));
        assert(walk_nodes(es, hubs[j - 1] as int, ways[j - 1]->0).contains(t));
    } else if j > 1 {
        lemma_tree_only(es, hubs, ways, j - 1, t);
    }
}

/// Law: the walk that joins a later hub ends on what was routed before it:
/// the first hub, or a node on the walk of an earlier hub.
pub proof fn law_route_ends_on_routed_nodes(
    es: Seq<(usize, usize, Edge)>,
    hubs: Seq<usize>,
    ways: Seq<Option<Seq<int>>>,
    j: int,
)
    requires
        routed(es, hubs, ways),
        1 <= j < hubs.len(),
        ways[j] is Some,
    ensures
        exists|t: int|
            #[trigger] is_walk(es, hubs[j] as int, t, ways[j]->0) && (t == hubs[0] as int || exists|i: int|
                1 <= i < j && ways[i] is Some && #[trigger] walk_nodes(es, hubs[i] as int, ways[i]->0).contains(t)),
{
    let tree = tree_before(es, hubs, ways, j);
    assert(joins(es, tree, hubs[j] as int, ways[j]));
    let t = choose|t: int| tree.contains(t) && #[trigger] is_walk(es, hubs[j] as int, t, ways[j]->0);
    lemma_tree_only(es, hubs, ways, j, t);
}

} // verus!
