use graph_builder::cost_queue::CostQueue;
use graph_builder::optimizer::steiner_weight;
use graph_builder::search::{nearest_sources, search_with_links};
use graph_builder::walks::edge_weight;
use graph_builder::{build_graph, Building, BuildingConnectorLink, BuiltGraph, Connector, Edge, RoadConnectorRef, RoadSegment, AT_SCALE};

fn road(id: &str, length_mm: u32, a: &str, b: &str) -> RoadSegment {
    RoadSegment {
        id: id.into(),
        length_mm,
        connectors: vec![
            RoadConnectorRef { connector_id: a.into(), at: 0 },
            RoadConnectorRef { connector_id: b.into(), at: AT_SCALE },
        ],
    }
}

fn connector(id: &str) -> Connector {
    Connector { id: id.into(), x: 0, y: 0 }
}

/// c0 –5m– c1 –7m– c2, c0 –20m– c2, and b (node 3) 1 m off c2.
fn triangle() -> BuiltGraph {
    let roads = vec![road("a", 5_000, "c0", "c1"), road("b", 7_000, "c1", "c2"), road("c", 20_000, "c0", "c2")];
    let connectors = vec![connector("c0"), connector("c1"), connector("c2")];
    let buildings = vec![Building { id: "b".into(), x: 0, y: 0 }];
    let links = vec![BuildingConnectorLink { building_id: "b".into(), connector_id: "c2".into(), distance_mm: 1_000 }];
    build_graph(&roads, &connectors, &buildings, &links).unwrap()
}

#[test]
fn nearest_sources_gives_least_costs_and_labels() {
    let g = triangle();
    let d = nearest_sources(&g.graph, &vec![(0, 10), (2, 20)], true, None);
    assert_eq!(d, vec![Some((10, 0)), Some((10, 5_000)), Some((20, 0)), Some((20, 1_000))]);
}

#[test]
fn nearest_sources_can_skip_access_costs() {
    let g = triangle();
    let d = nearest_sources(&g.graph, &vec![(0, 1)], false, None);
    // c2 is 12 m away through c1; the access link to b costs nothing
    assert_eq!(d, vec![Some((1, 0)), Some((1, 5_000)), Some((1, 12_000)), Some((1, 12_000))]);
}

#[test]
fn nearest_sources_stops_at_the_limit() {
    let g = triangle();
    let d = nearest_sources(&g.graph, &vec![(0, 1)], true, Some(12_000));
    assert_eq!(d, vec![Some((1, 0)), Some((1, 5_000)), Some((1, 12_000)), None]);
    let none = nearest_sources(&g.graph, &vec![], true, None);
    assert_eq!(none, vec![None, None, None, None]);
}

#[test]
fn search_links_lead_back_along_cheapest_walks() {
    let g = triangle();
    let (dist, parent) = search_with_links(&g.graph, &vec![(0, 1)], true, None);
    assert_eq!(dist[3], Some((1, 13_000)));
    assert_eq!(parent[0], None);
    // b is reached from c2, c2 from c1, c1 from c0
    let mut node = 3;
    let mut path = vec![3];
    while let Some((e, u)) = parent[node] {
        let (a, b) = g.graph.edge_endpoints(petgraph::graph::EdgeIndex::new(e)).unwrap();
        assert!(a.index() == node || b.index() == node);
        node = u;
        path.push(u);
    }
    assert_eq!(path, vec![3, 2, 1, 0]);
}

#[test]
fn road_distance_is_the_same_both_ways() {
    let g = triangle();
    assert_eq!(steiner_weight(&g, &[0, 3]), steiner_weight(&g, &[3, 0]));
    assert_eq!(steiner_weight(&g, &[0, 3]), Some(13_000));
}

#[test]
fn edge_weight_counts_access_links_on_request() {
    let r = Edge::Road { segment_id: "r".into(), length_mm: 42 };
    let a = Edge::BuildingAccess { distance_mm: 7 };
    assert_eq!(edge_weight(&r, true), 42);
    assert_eq!(edge_weight(&r, false), 42);
    assert_eq!(edge_weight(&a, true), 7);
    assert_eq!(edge_weight(&a, false), 0);
}

#[test]
fn cost_queue_pops_the_least_entry_first() {
    let mut q = CostQueue::new();
    for x in [(5u128, 1usize), (3, 9), (7, 0), (3, 2), (1, 4)] {
        q.push(x);
    }
    assert_eq!(q.len(), 5);
    let mut out = Vec::new();
    while q.len() > 0 {
        out.push(q.pop_min());
    }
    let costs: Vec<u128> = out.iter().map(|x| x.0).collect();
    assert_eq!(costs, vec![1, 3, 3, 5, 7]);
    out.sort();
    assert_eq!(out, vec![(1, 4), (3, 2), (3, 9), (5, 1), (7, 0)]);
}
