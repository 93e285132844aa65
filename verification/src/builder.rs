//! Building the spatial graph from connector, building, road and link records.
use std::collections::HashMap;
use vstd::prelude::*;

use crate::id_map::{id_map_contains, id_map_get, id_map_insert, id_map_new, id_map_view};
use crate::model::{
    AT_SCALE, Building, BuildingConnectorLink, BuildErrorView, BuildGraphError, BuiltGraph,
    Connector, Edge, EdgeView, Node, NodeView, RoadConnectorRef, RoadSegment,
};
use crate::petgraph_specs::{
    graph_add_edge, graph_add_node, graph_edges, graph_new, graph_nodes, SpatialGraph,
};

verus! {

/// An edge as plain values.
pub type EdgeTriple = (usize, usize, EdgeView);

/// The edges of a graph as plain values, in index order.
pub open spec fn edges_view(es: Seq<(usize, usize, Edge)>) -> Seq<EdgeTriple> {
    Seq::new(es.len(), |k: int| (es[k].0, es[k].1, es[k].2@))
}

/// The nodes of a graph as plain values, in index order.
pub open spec fn nodes_view(ns: Seq<Node>) -> Seq<NodeView> {
    Seq::new(ns.len(), |k: int| ns[k]@)
}

pub open spec fn connector_ids(cs: Seq<Connector>) -> Seq<Seq<char>> {
    Seq::new(cs.len(), |k: int| cs[k].id@)
}

pub open spec fn building_ids(bs: Seq<Building>) -> Seq<Seq<char>> {
    Seq::new(bs.len(), |k: int| bs[k].id@)
}

/// The node of each connector, then of each building, in input order.
pub open spec fn expected_nodes(cs: Seq<Connector>, bs: Seq<Building>) -> Seq<NodeView> {
    Seq::new(cs.len(), |k: int| NodeView::Connector { id: cs[k].id@, x: cs[k].x, y: cs[k].y })
        + Seq::new(bs.len(), |k: int| NodeView::Building { id: bs[k].id@, x: bs[k].x, y: bs[k].y })
}

/// The first position whose id already occurs earlier in `ids`.
pub open spec fn first_repeat(ids: Seq<Seq<char>>) -> Option<int>
    decreases ids.len(),
{
    if ids.len() == 0 {
        None
    } else {
        match first_repeat(ids.drop_last()) {
            Some(k) => Some(k),
            None => if ids.drop_last().contains(ids.last()) {
                Some(ids.len() - 1)
            } else {
                None
            },
        }
    }
}

/// Maps the `k`-th id to `offset + k`.
pub open spec fn index_map(ids: Seq<Seq<char>>, offset: int) -> Map<Seq<char>, usize>
    decreases ids.len(),
{
    if ids.len() == 0 {
        Map::empty()
    } else {
        index_map(ids.drop_last(), offset).insert(ids.last(), (offset + ids.len() - 1) as usize)
    }
}

/// A connector reference as plain values: its connector id and position.
pub open spec fn ref_views(rs: Seq<RoadConnectorRef>) -> Seq<(Seq<char>, u64)> {
    Seq::new(rs.len(), |k: int| (rs[k].connector_id@, rs[k].at))
}

/// Inserts `x` after the last element whose position is not greater than its own.
pub open spec fn insert_by_at(s: Seq<(Seq<char>, u64)>, x: (Seq<char>, u64)) -> Seq<
    (Seq<char>, u64),
>
    decreases s.len(),
{
    if s.len() == 0 {
        seq![x]
    } else if s.last().1 <= x.1 {
        s.push(x)
    } else {
        insert_by_at(s.drop_last(), x).push(s.last())
    }
}

/// Stable sort by position along the road.
pub open spec fn sort_by_at(s: Seq<(Seq<char>, u64)>) -> Seq<(Seq<char>, u64)>
    decreases s.len(),
{
    if s.len() == 0 {
        s
    } else {
        insert_by_at(sort_by_at(s.drop_last()), s.last())
    }
}

/// How far along a road of length `len` the position `a` lies, in whole
/// millimetres (rounded down).
pub open spec fn mark(len: u32, a: u64) -> int {
    (len as int * a as int) / (AT_SCALE as int)
}

/// The length of the piece of a road of length `len` between positions `a`
/// and `b`: the distance between their marks, so that the pieces of a road
/// add up to the distance between its first and last marks (it saturates at
/// `u32::MAX`).
pub open spec fn piece_length(len: u32, a: u64, b: u64) -> u32 {
    let v: int = if a <= b {
        mark(len, b) - mark(len, a)
    } else {
        mark(len, a) - mark(len, b)
    };
    if v > u32::MAX {
        u32::MAX
    } else {
        v as u32
    }
}

/// The first reference whose connector is unknown.
pub open spec fn first_missing(s: Seq<(Seq<char>, u64)>, m: Map<Seq<char>, usize>) -> Option<int>
    decreases s.len(),
{
    if s.len() == 0 {
        None
    } else {
        match first_missing(s.drop_last(), m) {
            Some(k) => Some(k),
            None => if !m.contains_key(s.last().0) {
                Some(s.len() - 1)
            } else {
                None
            },
        }
    }
}

/// One road edge between each two consecutive references.
pub open spec fn chain_edges(
    s: Seq<(Seq<char>, u64)>,
    m: Map<Seq<char>, usize>,
    seg: Seq<char>,
    len: u32,
) -> Seq<EdgeTriple>
    decreases s.len(),
{
    if s.len() < 2 {
        Seq::empty()
    } else {
        chain_edges(s.drop_last(), m, seg, len).push(
            (
                m[s[s.len() - 2].0],
                m[s.last().0],
                EdgeView::Road {
                    segment_id: seg,
                    length_mm: piece_length(len, s[s.len() - 2].1, s.last().1),
                },
            ),
        )
    }
}

/// The total length of the road edges among `es`.
pub open spec fn road_total(es: Seq<EdgeTriple>) -> int
    decreases es.len(),
{
    if es.len() == 0 {
        0
    } else {
        road_total(es.drop_last()) + match es.last().2 {
            EdgeView::Road { length_mm, .. } => length_mm as int,
            EdgeView::BuildingAccess { .. } => 0,
        }
    }
}

/// Marks do not go back along the road.
proof fn lemma_mark_ordered(len: u32, a: u64, b: u64)
    requires
        a <= b,
    ensures
        mark(len, a) <= mark(len, b),
{
    let l = len as int;
    assert(l * a <= l * b) by (nonlinear_arith)
        requires
            0 <= l,
            a <= b,
    ;
    vstd::arithmetic::div_mod::lemma_div_is_ordered(l * a, l * b, AT_SCALE as int);
}

/// Law: the pieces of a road, between its references in order of position,
/// add up to the distance between the marks of its first and last
/// references, the whole road when they lie at `0` and `AT_SCALE` (unless a
/// piece would pass `u32::MAX`).
pub proof fn law_pieces_add_up(s: Seq<(Seq<char>, u64)>, m: Map<Seq<char>, usize>, seg: Seq<char>, len: u32)
    requires
        s.len() >= 1,
        forall|i: int, j: int| 0 <= i <= j < s.len() ==> #[trigger] s[i].1 <= #[trigger] s[j].1,
        mark(len, s.last().1) - mark(len, s[0].1) <= u32::MAX,
    ensures
        road_total(chain_edges(s, m, seg, len)) == mark(len, s.last().1) - mark(len, s[0].1),
    decreases s.len(),
{
    if s.len() >= 2 {
        let t = s.drop_last();
        assert(s[s.len() - 2].1 <= s.last().1);
        assert(s[0].1 <= s[s.len() - 2].1);
        lemma_mark_ordered(len, s[0].1, s[s.len() - 2].1);
        lemma_mark_ordered(len, s[s.len() - 2].1, s.last().1);
        assert forall|i: int, j: int| 0 <= i <= j < t.len() implies #[trigger] t[i].1 <= #[trigger] t[j].1 by {
            assert(t[i] == s[i] && t[j] == s[j]);
        }
        assert(t.last() == s[s.len() - 2]);
        assert(t[0] == s[0]);
        law_pieces_add_up(t, m, seg, len);
        let c = chain_edges(s, m, seg, len);
        assert(c.drop_last() =~= chain_edges(t, m, seg, len));
        assert(c.last().2 == EdgeView::Road {
            segment_id: seg,
            length_mm: piece_length(len, s[s.len() - 2].1, s.last().1),
        });
    } else {
        assert(s.last() == s[0]);
    }
}

/// The edges of one road, or why it cannot be added.
pub open spec fn road_outcome(r: RoadSegment, m: Map<Seq<char>, usize>) -> Result<
    Seq<EdgeTriple>,
    BuildErrorView,
> {
    if r.connectors@.len() < 2 {
        Err(BuildErrorView::RoadSegmentTooShort(r.id@))
    } else {
        let s = sort_by_at(ref_views(r.connectors@));
        match first_missing(s, m) {
            Some(k) => Err(BuildErrorView::MissingConnector(s[k].0)),
            None => Ok(chain_edges(s, m, r.id@, r.length_mm)),
        }
    }
}

/// The edges of all roads in order, or the error of the first road that fails.
pub open spec fn roads_outcome(rs: Seq<RoadSegment>, m: Map<Seq<char>, usize>) -> Result<
    Seq<EdgeTriple>,
    BuildErrorView,
>
    decreases rs.len(),
{
    if rs.len() == 0 {
        Ok(Seq::empty())
    } else {
        match roads_outcome(rs.drop_last(), m) {
            Err(e) => Err(e),
            Ok(es) => match road_outcome(rs.last(), m) {
                Err(e) => Err(e),
                Ok(es2) => Ok(es + es2),
            },
        }
    }
}

/// The access edge of one link, or why it cannot be added.
pub open spec fn link_outcome(
    l: BuildingConnectorLink,
    bm: Map<Seq<char>, usize>,
    cm: Map<Seq<char>, usize>,
) -> Result<EdgeTriple, BuildErrorView> {
    if !bm.contains_key(l.building_id@) {
        Err(BuildErrorView::MissingBuilding(l.building_id@))
    } else if !cm.contains_key(l.connector_id@) {
        Err(BuildErrorView::MissingConnector(l.connector_id@))
    } else {
        Ok(
            (
                bm[l.building_id@],
                cm[l.connector_id@],
                EdgeView::BuildingAccess { distance_mm: l.distance_mm },
            ),
        )
    }
}

/// The access edges of all links in order, or the error of the first link that fails.
pub open spec fn links_outcome(
    ls: Seq<BuildingConnectorLink>,
    bm: Map<Seq<char>, usize>,
    cm: Map<Seq<char>, usize>,
) -> Result<Seq<EdgeTriple>, BuildErrorView>
    decreases ls.len(),
{
    if ls.len() == 0 {
        Ok(Seq::empty())
    } else {
        match links_outcome(ls.drop_last(), bm, cm) {
            Err(e) => Err(e),
            Ok(es) => match link_outcome(ls.last(), bm, cm) {
                Err(e) => Err(e),
                Ok(t) => Ok(es.push(t)),
            },
        }
    }
}

/// The nodes and edges that the records describe, or the first error in the
/// order connectors, buildings, roads, links.
pub open spec fn build_outcome(
    roads: Seq<RoadSegment>,
    cs: Seq<Connector>,
    bs: Seq<Building>,
    ls: Seq<BuildingConnectorLink>,
) -> Result<(Seq<NodeView>, Seq<EdgeTriple>), BuildErrorView> {
    let cids = connector_ids(cs);
    let bids = building_ids(bs);
    if first_repeat(cids) is Some {
        Err(BuildErrorView::DuplicateConnector(cids[first_repeat(cids).unwrap()]))
    } else if first_repeat(bids) is Some {
        Err(BuildErrorView::DuplicateBuilding(bids[first_repeat(bids).unwrap()]))
    } else {
        let cm = index_map(cids, 0);
        let bm = index_map(bids, cs.len() as int);
        match roads_outcome(roads, cm) {
            Err(e) => Err(e),
            Ok(re) => match links_outcome(ls, bm, cm) {
                Err(e) => Err(e),
                Ok(le) => Ok((expected_nodes(cs, bs), re + le)),
            },
        }
    }
}

/// The number of road edges that the roads give (one less than their connector count each).
pub open spec fn road_edge_count(rs: Seq<RoadSegment>) -> int
    decreases rs.len(),
{
    if rs.len() == 0 {
        0
    } else {
        road_edge_count(rs.drop_last()) + if rs.last().connectors@.len() >= 1 {
            rs.last().connectors@.len() - 1
        } else {
            0
        }
    }
}

proof fn lemma_index_map_dom(ids: Seq<Seq<char>>, offset: int, x: Seq<char>)
    ensures
        index_map(ids, offset).contains_key(x) <==> ids.contains(x),
    decreases ids.len(),
{
    if ids.len() > 0 {
        lemma_index_map_dom(ids.drop_last(), offset, x);
        if ids.drop_last().contains(x) {
            let k = choose|k: int| 0 <= k < ids.drop_last().len() && ids.drop_last()[k] == x;
            assert(ids[k] == x);
        }
        if ids.contains(x) && x != ids.last() {
            let k = choose|k: int| 0 <= k < ids.len() && ids[k] == x;
            assert(ids.drop_last()[k] == x);
        }
    }
}

proof fn lemma_insert_by_at(s: Seq<(Seq<char>, u64)>, x: (Seq<char>, u64), p: int)
    requires
        0 <= p <= s.len(),
        forall|k: int| p <= k < s.len() ==> s[k].1 > x.1,
        p > 0 ==> s[p - 1].1 <= x.1,
    ensures
        insert_by_at(s, x) =~= s.take(p) + seq![x] + s.skip(p),
    decreases s.len(),
{
    if s.len() == 0 {
    } else if s.last().1 <= x.1 {
        assert(p == s.len());
    } else {
        lemma_insert_by_at(s.drop_last(), x, p);
        assert(s.drop_last().take(p) =~= s.take(p));
        assert(s.drop_last().skip(p).push(s.last()) =~= s.skip(p));
    }
}

proof fn lemma_first_repeat_step(ids: Seq<Seq<char>>, i: int)
    requires
        0 <= i < ids.len(),
        first_repeat(ids.take(i)) is None,
    ensures
        first_repeat(ids.take(i + 1)) is None <==> !ids.take(i).contains(ids[i]),
        first_repeat(ids.take(i + 1)) is Some ==> first_repeat(ids.take(i + 1)) == Some(i),
{
    assert(ids.take(i + 1).drop_last() =~= ids.take(i));
}

proof fn lemma_first_repeat_prefix(ids: Seq<Seq<char>>, i: int)
    requires
        0 <= i <= ids.len(),
        first_repeat(ids.take(i)) is Some,
    ensures
        first_repeat(ids) == first_repeat(ids.take(i)),
    decreases ids.len() - i,
{
    if i < ids.len() {
        assert(ids.take(i + 1).drop_last() =~= ids.take(i));
        lemma_first_repeat_prefix(ids, i + 1);
    } else {
        assert(ids.take(i) =~= ids);
    }
}

proof fn lemma_first_missing_prefix(s: Seq<(Seq<char>, u64)>, m: Map<Seq<char>, usize>, i: int)
    requires
        0 <= i <= s.len(),
        first_missing(s.take(i), m) is Some,
    ensures
        first_missing(s, m) == first_missing(s.take(i), m),
    decreases s.len() - i,
{
    if i < s.len() {
        assert(s.take(i + 1).drop_last() =~= s.take(i));
        lemma_first_missing_prefix(s, m, i + 1);
    } else {
        assert(s.take(i) =~= s);
    }
}

proof fn lemma_roads_prefix_err(rs: Seq<RoadSegment>, m: Map<Seq<char>, usize>, i: int)
    requires
        0 <= i <= rs.len(),
        roads_outcome(rs.take(i), m) is Err,
    ensures
        roads_outcome(rs, m) == roads_outcome(rs.take(i), m),
    decreases rs.len() - i,
{
    if i < rs.len() {
        assert(rs.take(i + 1).drop_last() =~= rs.take(i));
        lemma_roads_prefix_err(rs, m, i + 1);
    } else {
        assert(rs.take(i) =~= rs);
    }
}

proof fn lemma_links_prefix_err(
    ls: Seq<BuildingConnectorLink>,
    bm: Map<Seq<char>, usize>,
    cm: Map<Seq<char>, usize>,
    i: int,
)
    requires
        0 <= i <= ls.len(),
        links_outcome(ls.take(i), bm, cm) is Err,
    ensures
        links_outcome(ls, bm, cm) == links_outcome(ls.take(i), bm, cm),
    decreases ls.len() - i,
{
    if i < ls.len() {
        assert(ls.take(i + 1).drop_last() =~= ls.take(i));
        lemma_links_prefix_err(ls, bm, cm, i + 1);
    } else {
        assert(ls.take(i) =~= ls);
    }
}

proof fn lemma_roads_count(rs: Seq<RoadSegment>, m: Map<Seq<char>, usize>)
    requires
        roads_outcome(rs, m) is Ok,
    ensures
        roads_outcome(rs, m)->Ok_0.len() == road_edge_count(rs),
    decreases rs.len(),
{
    if rs.len() > 0 {
        lemma_roads_count(rs.drop_last(), m);
        let r = rs.last();
        let s = sort_by_at(ref_views(r.connectors@));
        lemma_sort_len(ref_views(r.connectors@));
        lemma_chain_len(s, m, r.id@, r.length_mm);
    }
}

proof fn lemma_road_count_prefix(rs: Seq<RoadSegment>, i: int)
    requires
        0 <= i <= rs.len(),
    ensures
        road_edge_count(rs.take(i)) <= road_edge_count(rs),
    decreases rs.len() - i,
{
    if i < rs.len() {
        assert(rs.take(i + 1).drop_last() =~= rs.take(i));
        lemma_road_count_prefix(rs, i + 1);
    } else {
        assert(rs.take(i) =~= rs);
    }
}

proof fn lemma_sort_len(s: Seq<(Seq<char>, u64)>)
    ensures
        sort_by_at(s).len() == s.len(),
    decreases s.len(),
{
    if s.len() > 0 {
        lemma_sort_len(s.drop_last());
        lemma_insert_len(sort_by_at(s.drop_last()), s.last());
    }
}

proof fn lemma_insert_len(s: Seq<(Seq<char>, u64)>, x: (Seq<char>, u64))
    ensures
        insert_by_at(s, x).len() == s.len() + 1,
    decreases s.len(),
{
    if s.len() > 0 && s.last().1 > x.1 {
        lemma_insert_len(s.drop_last(), x);
    }
}

proof fn lemma_chain_len(
    s: Seq<(Seq<char>, u64)>,
    m: Map<Seq<char>, usize>,
    seg: Seq<char>,
    len: u32,
)
    ensures
        chain_edges(s, m, seg, len).len() == if s.len() >= 1 {
            s.len() - 1
        } else {
            0
        },
    decreases s.len(),
{
    if s.len() >= 2 {
        lemma_chain_len(s.drop_last(), m, seg, len);
    }
}

/// The order of `refs` sorted stably by position: `order[k]` is the index of the
/// `k`-th reference.
pub(crate) fn order_by_at(refs: &Vec<RoadConnectorRef>) -> (order: Vec<usize>)
    ensures
        order@.len() == refs@.len(),
        forall|k: int| 0 <= k < order@.len() ==> #[trigger] order@[k] < refs@.len(),
        Seq::new(order@.len(), |k: int| ref_views(refs@)[order@[k] as int]) =~= sort_by_at(
            ref_views(refs@),
        ),
{
    let ghost views = ref_views(refs@);
    let mut order: Vec<usize> = Vec::new();
    let mut i: usize = 0;
    while i < refs.len()
        invariant
            i <= refs@.len(),
            views == ref_views(refs@),
            order@.len() == i,
            forall|k: int| 0 <= k < order@.len() ==> #[trigger] order@[k] < refs@.len(),
            Seq::new(order@.len(), |k: int| views[order@[k] as int]) =~= sort_by_at(
                views.take(i as int),
            ),
        decreases refs@.len() - i,
    {
        let ghost s = Seq::new(order@.len(), |k: int| views[order@[k] as int]);
        let at = refs[i].at;
        let mut p: usize = order.len();
        while p > 0 && refs[order[p - 1]].at > at
            invariant
                p <= order@.len(),
                forall|k: int| 0 <= k < order@.len() ==> #[trigger] order@[k] < refs@.len(),
                s == Seq::new(order@.len(), |k: int| views[order@[k] as int]),
                views == ref_views(refs@),
                i < refs@.len(),
                at == views[i as int].1,
                forall|k: int| p <= k < s.len() ==> s[k].1 > at,
            decreases p,
        {
            p = p - 1;
        }
        proof {
            lemma_insert_by_at(s, views[i as int], p as int);
            assert(views.take(i + 1).drop_last() =~= views.take(i as int));
        }
        order.insert(p, i);
        proof {
            assert(Seq::new(order@.len(), |k: int| views[order@[k] as int]) =~= s.take(p as int)
                + seq![views[i as int]] + s.skip(p as int));
        }
        i = i + 1;
    }
    proof {
        assert(views.take(refs@.len() as int) =~= views);
    }
    order
}

/// Adds the edges of one road, stopping at the first unknown connector.
#[verifier::spinoff_prover]
fn add_road(
    graph: &mut SpatialGraph,
    road: &RoadSegment,
    connector_nodes: &HashMap<String, usize>,
) -> (res: Result<(), BuildGraphError>)
    requires
        graph_edges(*old(graph)).len() + (if road.connectors@.len() >= 1 {
            road.connectors@.len() - 1
        } else {
            0
        }) < u32::MAX,
        forall|x: Seq<char>| #[trigger]
            id_map_view(*connector_nodes).contains_key(x) ==> id_map_view(*connector_nodes)[x]
                < graph_nodes(*old(graph)).len(),
    ensures
        graph_nodes(*final(graph)) == graph_nodes(*old(graph)),
        match road_outcome(*road, id_map_view(*connector_nodes)) {
            Err(e) => res is Err && res->Err_0@ == e,
            Ok(es) => res is Ok && edges_view(graph_edges(*final(graph))) =~= edges_view(
                graph_edges(*old(graph)),
            ) + es,
        },
{
    let ghost m = id_map_view(*connector_nodes);
    if road.connectors.len() < 2 {
        return Err(BuildGraphError::RoadSegmentTooShort(road.id.clone()));
    }
    let order = order_by_at(&road.connectors);
    let ghost views = ref_views(road.connectors@);
    let ghost s = sort_by_at(views);
    let ghost e0 = edges_view(graph_edges(*graph));
    proof {
        lemma_sort_len(views);
    }
    let n = order.len();
    let first = &road.connectors[order[0]];
    let mut prev_idx: usize = match id_map_get(connector_nodes, &first.connector_id) {
        Some(v) => v,
        None => {
            proof {
                assert(s.take(1).drop_last() =~= Seq::<(Seq<char>, u64)>::empty());
                assert(s.take(1).last() == s[0]);
                assert(s[0] == views[order@[0] as int]);
                assert(views[order@[0] as int].0 == first.connector_id@);
                assert(first_missing(s.take(1), m) == Some(0int));
                lemma_first_missing_prefix(s, m, 1);
            }
            return Err(BuildGraphError::MissingConnector(first.connector_id.clone()));
        },
    };
    let mut prev_at: u64 = first.at;
    proof {
        assert(s.take(1).drop_last() =~= Seq::<(Seq<char>, u64)>::empty());
        assert(first_missing(s.take(1).drop_last(), m) is None);
        assert(s[0] == views[order@[0] as int]);
        assert(views[order@[0] as int].0 == first.connector_id@);
        assert(m.contains_key(s[0].0));
        assert(s.take(1).last() == s[0]);
        assert(first_missing(s.take(1), m) is None);
        assert(s.take(1).drop_last() =~= Seq::<(Seq<char>, u64)>::empty());
        assert(s.take(1).len() < 2);
    }
    let mut w: usize = 1;
    while w < n
        invariant
            1 <= w <= n,
            n == order@.len(),
            n == s.len(),
            n == road.connectors@.len(),
            forall|k: int| 0 <= k < order@.len() ==> #[trigger] order@[k] < road.connectors@.len(),
            s == Seq::new(order@.len(), |k: int| views[order@[k] as int]),
            s == sort_by_at(views),
            views == ref_views(road.connectors@),
            m == id_map_view(*connector_nodes),
            first_missing(s.take(w as int), m) is None,
            prev_idx == m[s[w - 1].0],
            prev_at == s[w - 1].1,
            graph_nodes(*graph) == graph_nodes(*old(graph)),
            e0 == edges_view(graph_edges(*old(graph))),
            edges_view(graph_edges(*graph)) =~= e0 + chain_edges(
                s.take(w as int),
                m,
                road.id@,
                road.length_mm,
            ),
            graph_edges(*graph).len() == graph_edges(*old(graph)).len() + w - 1,
            graph_edges(*old(graph)).len() + n - 1 < u32::MAX,
            forall|x: Seq<char>| #[trigger]
                m.contains_key(x) ==> m[x] < graph_nodes(*old(graph)).len(),
        decreases n - w,
    {
        let cur = &road.connectors[order[w]];
        proof {
            assert(s.take(w + 1).drop_last() =~= s.take(w as int));
            assert(s[w as int] == views[order@[w as int] as int]);
        }
        let cur_idx = match id_map_get(connector_nodes, &cur.connector_id) {
            Some(v) => v,
            None => {
                proof {
                    assert(first_missing(s.take(w + 1), m) == Some(w as int));
                    lemma_first_missing_prefix(s, m, w + 1);
                }
                return Err(BuildGraphError::MissingConnector(cur.connector_id.clone()));
            },
        };
        proof {
            let l = road.length_mm as int;
            let x = prev_at as int;
            let y = cur.at as int;
            assert(l * x <= 0xffff_ffffint * 0xffff_ffff_ffff_ffffint) by (nonlinear_arith)
                requires 0 <= l <= 0xffff_ffffint, 0 <= x <= 0xffff_ffff_ffff_ffffint;
            assert(l * y <= 0xffff_ffffint * 0xffff_ffff_ffff_ffffint) by (nonlinear_arith)
                requires 0 <= l <= 0xffff_ffffint, 0 <= y <= 0xffff_ffff_ffff_ffffint;
        }
        let ma: u128 = (road.length_mm as u128) * (prev_at as u128) / (AT_SCALE as u128);
        let mb: u128 = (road.length_mm as u128) * (cur.at as u128) / (AT_SCALE as u128);
        proof {
            let l = road.length_mm as int;
            let x = prev_at as int;
            let y = cur.at as int;
            if x <= y {
                assert(l * x <= l * y) by (nonlinear_arith) requires 0 <= l, x <= y;
                vstd::arithmetic::div_mod::lemma_div_is_ordered(l * x, l * y, AT_SCALE as int);
            } else {
                assert(l * y <= l * x) by (nonlinear_arith) requires 0 <= l, y <= x;
                vstd::arithmetic::div_mod::lemma_div_is_ordered(l * y, l * x, AT_SCALE as int);
            }
        }
        let q: u128 = if prev_at <= cur.at {
            mb - ma
        } else {
            ma - mb
        };
        let len: u32 = if q > u32::MAX as u128 {
            u32::MAX
        } else {
            q as u32
        };
        let ghost before = graph_edges(*graph);
        graph_add_edge(
            graph,
            prev_idx,
            cur_idx,
            Edge::Road { segment_id: road.id.clone(), length_mm: len },
        );
        proof {
            assert(len == piece_length(road.length_mm, s[w - 1].1, s[w as int].1));
            let t = s.take(w + 1);
            assert(t[t.len() - 2] == s[w - 1]);
            assert(t.last() == s[w as int]);
            assert(edges_view(graph_edges(*graph)) =~= edges_view(before).push(
                (
                    prev_idx,
                    cur_idx,
                    EdgeView::Road {
                        segment_id: road.id@,
                        length_mm: piece_length(road.length_mm, s[w - 1].1, s[w as int].1),
                    },
                ),
            ));
        }
        prev_idx = cur_idx;
        prev_at = cur.at;
        w = w + 1;
    }
    proof {
        assert(s.take(n as int) =~= s);
    }
    Ok(())
}

/// Builds an undirected graph where connectors are nodes, road segments become
/// edges between consecutive connectors (ordered by their position along the
/// road, each edge taking its share of the segment length), and buildings are
/// leaf nodes attached to their nearest connector.
///
/// Nodes are the connectors, then the buildings, in input order; edges are the
/// road edges of each road in turn, then one access edge per link.  The first
/// problem found, in that same order, is returned as an error.
#[verifier::spinoff_prover]
pub fn build_graph(
    roads: &[RoadSegment],
    connectors: &[Connector],
    buildings: &[Building],
    building_links: &[BuildingConnectorLink],
) -> (res: Result<BuiltGraph, BuildGraphError>)
    requires
        connectors@.len() + buildings@.len() < u32::MAX,
        road_edge_count(roads@) + building_links@.len() < u32::MAX,
    ensures
        match build_outcome(roads@, connectors@, buildings@, building_links@) {
            Err(e) => res is Err && res->Err_0@ == e,
            Ok((nodes, edges)) => res is Ok && {
                let b = res->Ok_0;
                &&& nodes_view(graph_nodes(b.graph)) == nodes
                &&& edges_view(graph_edges(b.graph)) == edges
                &&& id_map_view(b.connector_nodes) == index_map(connector_ids(connectors@), 0)
                &&& id_map_view(b.building_nodes) == index_map(
                    building_ids(buildings@),
                    connectors@.len() as int,
                )
            },
        },
{
    let ghost cids = connector_ids(connectors@);
    let ghost bids = building_ids(buildings@);
    let ghost nodes0 = expected_nodes(connectors@, buildings@);
    let mut graph = graph_new();
    let mut connector_nodes = id_map_new();
    let mut building_nodes = id_map_new();

    let mut i: usize = 0;
    while i < connectors.len()
        invariant
            i <= connectors@.len(),
            connectors@.len() + buildings@.len() < u32::MAX,
            cids == connector_ids(connectors@),
            first_repeat(cids.take(i as int)) is None,
            id_map_view(connector_nodes) == index_map(cids.take(i as int), 0),
            nodes_view(graph_nodes(graph)) =~= nodes0.take(i as int),
            graph_nodes(graph).len() == i,
            nodes0 == expected_nodes(connectors@, buildings@),
            graph_edges(graph).len() == 0,
            edges_view(graph_edges(graph)) =~= Seq::<EdgeTriple>::empty(),
        decreases connectors@.len() - i,
    {
        let c = &connectors[i];
        proof {
            lemma_index_map_dom(cids.take(i as int), 0, c.id@);
            lemma_first_repeat_step(cids, i as int);
            assert(cids[i as int] == c.id@);
        }
        if id_map_contains(&connector_nodes, &c.id) {
            proof {
                lemma_first_repeat_prefix(cids, i + 1);
            }
            return Err(BuildGraphError::DuplicateConnector(c.id.clone()));
        }
        let ghost before = graph_nodes(graph);
        let idx = graph_add_node(&mut graph, Node::Connector { id: c.id.clone(), x: c.x, y: c.y });
        id_map_insert(&mut connector_nodes, c.id.clone(), idx);
        proof {
            assert(cids.take(i + 1).drop_last() =~= cids.take(i as int));
            assert(nodes_view(graph_nodes(graph)) =~= nodes_view(before).push(nodes0[i as int]));
            assert(nodes0.take(i + 1) =~= nodes0.take(i as int).push(nodes0[i as int]));
        }
        i = i + 1;
    }
    proof {
        assert(cids.take(connectors@.len() as int) =~= cids);
    }

    let nc = connectors.len();
    let mut j: usize = 0;
    while j < buildings.len()
        invariant
            j <= buildings@.len(),
            nc == connectors@.len(),
            nc + buildings@.len() < u32::MAX,
            cids == connector_ids(connectors@),
            bids == building_ids(buildings@),
            first_repeat(cids) is None,
            first_repeat(bids.take(j as int)) is None,
            id_map_view(connector_nodes) == index_map(cids, 0),
            id_map_view(building_nodes) == index_map(bids.take(j as int), nc as int),
            nodes_view(graph_nodes(graph)) =~= nodes0.take(nc + j),
            graph_nodes(graph).len() == nc + j,
            nodes0 == expected_nodes(connectors@, buildings@),
            graph_edges(graph).len() == 0,
            edges_view(graph_edges(graph)) =~= Seq::<EdgeTriple>::empty(),
        decreases buildings@.len() - j,
    {
        let b = &buildings[j];
        proof {
            lemma_index_map_dom(bids.take(j as int), nc as int, b.id@);
            lemma_first_repeat_step(bids, j as int);
            assert(bids[j as int] == b.id@);
        }
        if id_map_contains(&building_nodes, &b.id) {
            proof {
                lemma_first_repeat_prefix(bids, j + 1);
            }
            return Err(BuildGraphError::DuplicateBuilding(b.id.clone()));
        }
        let ghost before = graph_nodes(graph);
        let idx = graph_add_node(&mut graph, Node::Building { id: b.id.clone(), x: b.x, y: b.y });
        id_map_insert(&mut building_nodes, b.id.clone(), idx);
        proof {
            assert(bids.take(j + 1).drop_last() =~= bids.take(j as int));
            assert(nodes_view(graph_nodes(graph)) =~= nodes_view(before).push(
                nodes0[nc + j],
            ));
            assert(nodes0.take(nc + j + 1) =~= nodes0.take(nc + j).push(nodes0[nc + j]));
        }
        j = j + 1;
    }
    proof {
        assert(bids.take(buildings@.len() as int) =~= bids);
        assert(nodes0.take(nc + buildings@.len()) =~= nodes0);
    }
    let ghost cm = index_map(cids, 0);
    let ghost bm = index_map(bids, nc as int);
    proof {
        assert forall|x: Seq<char>| #[trigger] cm.contains_key(x) implies cm[x] < nc by {
            lemma_index_map_range(cids, 0, x);
        }
        assert forall|x: Seq<char>| #[trigger] bm.contains_key(x) implies bm[x] < nc
            + buildings@.len() by {
            lemma_index_map_range(bids, nc as int, x);
        }
    }

    let mut r: usize = 0;
    while r < roads.len()
        invariant
            r <= roads@.len(),
            road_edge_count(roads@) + building_links@.len() < u32::MAX,
            graph_nodes(graph).len() == nc + buildings@.len(),
            nodes_view(graph_nodes(graph)) == nodes0,
            id_map_view(connector_nodes) == cm,
            forall|x: Seq<char>| #[trigger] cm.contains_key(x) ==> cm[x] < nc,
            nc == connectors@.len(),
            cids == connector_ids(connectors@),
            bids == building_ids(buildings@),
            first_repeat(cids) is None,
            first_repeat(bids) is None,
            cm == index_map(cids, 0),
            bm == index_map(bids, nc as int),
            nodes0 == expected_nodes(connectors@, buildings@),
            roads_outcome(roads@.take(r as int), cm) is Ok,
            edges_view(graph_edges(graph)) == roads_outcome(roads@.take(r as int), cm)->Ok_0,
            graph_edges(graph).len() == road_edge_count(roads@.take(r as int)),
        decreases roads@.len() - r,
    {
        let road = &roads[r];
        proof {
            assert(roads@.take(r + 1).drop_last() =~= roads@.take(r as int));
            assert(roads@.take(r + 1).last() == roads@[r as int]);
            lemma_road_count_prefix(roads@, r + 1);
        }
        let ghost before = edges_view(graph_edges(graph));
        match add_road(&mut graph, road, &connector_nodes) {
            Ok(()) => {
                proof {
                    lemma_roads_count(roads@.take(r + 1), cm);
                }
            },
            Err(e) => {
                proof {
                    lemma_roads_prefix_err(roads@, cm, r + 1);
                }
                return Err(e);
            },
        }
        r = r + 1;
    }
    proof {
        assert(roads@.take(roads@.len() as int) =~= roads@);
    }
    let ghost re = roads_outcome(roads@, cm)->Ok_0;

    let mut l: usize = 0;
    while l < building_links.len()
        invariant
            l <= building_links@.len(),
            road_edge_count(roads@) + building_links@.len() < u32::MAX,
            graph_nodes(graph).len() == nc + buildings@.len(),
            nodes_view(graph_nodes(graph)) == nodes0,
            id_map_view(connector_nodes) == cm,
            id_map_view(building_nodes) == bm,
            forall|x: Seq<char>| #[trigger] cm.contains_key(x) ==> cm[x] < nc,
            forall|x: Seq<char>| #[trigger] bm.contains_key(x) ==> bm[x] < nc + buildings@.len(),
            cids == connector_ids(connectors@),
            bids == building_ids(buildings@),
            first_repeat(cids) is None,
            first_repeat(bids) is None,
            cm == index_map(cids, 0),
            bm == index_map(bids, nc as int),
            nodes0 == expected_nodes(connectors@, buildings@),
            nc == connectors@.len(),
            roads_outcome(roads@, cm) is Ok,
            re == roads_outcome(roads@, cm)->Ok_0,
            links_outcome(building_links@.take(l as int), bm, cm) is Ok,
            edges_view(graph_edges(graph)) =~= re + links_outcome(
                building_links@.take(l as int),
                bm,
                cm,
            )->Ok_0,
            graph_edges(graph).len() == road_edge_count(roads@) + l,
        decreases building_links@.len() - l,
    {
        let link = &building_links[l];
        proof {
            assert(building_links@.take(l + 1).drop_last() =~= building_links@.take(l as int));
            assert(building_links@.take(l + 1).last() == building_links@[l as int]);
        }
        let b_idx = match id_map_get(&building_nodes, &link.building_id) {
            Some(v) => v,
            None => {
                proof {
                    assert(link_outcome(*link, bm, cm) == Err::<EdgeTriple, BuildErrorView>(
                        BuildErrorView::MissingBuilding(link.building_id@)));
                    assert(links_outcome(building_links@.take(l + 1), bm, cm) is Err);
                    lemma_links_prefix_err(building_links@, bm, cm, l + 1);
                    
                }
                return Err(BuildGraphError::MissingBuilding(link.building_id.clone()));
            },
        };
        let c_idx = match id_map_get(&connector_nodes, &link.connector_id) {
            Some(v) => v,
            None => {
                proof {
                    assert(link_outcome(*link, bm, cm) == Err::<EdgeTriple, BuildErrorView>(
                        BuildErrorView::MissingConnector(link.connector_id@)));
                    assert(links_outcome(building_links@.take(l + 1), bm, cm) is Err);
                    lemma_links_prefix_err(building_links@, bm, cm, l + 1);
                }
                return Err(BuildGraphError::MissingConnector(link.connector_id.clone()));
            },
        };
        let ghost before = graph_edges(graph);
        graph_add_edge(
            &mut graph,
            b_idx,
            c_idx,
            Edge::BuildingAccess { distance_mm: link.distance_mm },
        );
        proof {
            assert(edges_view(graph_edges(graph)) =~= edges_view(before).push(
                (b_idx, c_idx, EdgeView::BuildingAccess { distance_mm: link.distance_mm }),
            ));
        }
        l = l + 1;
    }
    proof {
        assert(building_links@.take(building_links@.len() as int) =~= building_links@);
    }
    Ok(BuiltGraph { graph, connector_nodes, building_nodes })
}

proof fn lemma_index_map_range(ids: Seq<Seq<char>>, offset: int, x: Seq<char>)
    requires
        index_map(ids, offset).contains_key(x),
        offset >= 0,
        offset + ids.len() <= u32::MAX,
    ensures
        offset <= index_map(ids, offset)[x] < offset + ids.len(),
    decreases ids.len(),
{
    if ids.len() > 0 && x != ids.last() {
        lemma_index_map_range(ids.drop_last(), offset, x);
    }
}

} // verus!
