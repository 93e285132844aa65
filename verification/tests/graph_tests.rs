use graph_builder::{
    build_graph, Building, BuildGraphError, BuildingConnectorLink, Connector, Edge, Node, RoadConnectorRef,
    RoadSegment, AT_SCALE,
};
use petgraph::graph::{EdgeIndex, NodeIndex};

fn road(id: &str, length_mm: u32, refs: &[(&str, u64)]) -> RoadSegment {
    RoadSegment {
        id: id.into(),
        length_mm,
        connectors: refs
            .iter()
            .map(|(c, at)| RoadConnectorRef { connector_id: (*c).into(), at: *at })
            .collect(),
    }
}

fn connector(id: &str, x: i64, y: i64) -> Connector {
    Connector { id: id.into(), x, y }
}

fn building(id: &str, x: i64, y: i64) -> Building {
    Building { id: id.into(), x, y }
}

fn link(b: &str, c: &str, distance_mm: u32) -> BuildingConnectorLink {
    BuildingConnectorLink { building_id: b.into(), connector_id: c.into(), distance_mm }
}

#[test]
fn builds_a_small_graph() {
    let roads = vec![road("r1", 100_000, &[("c1", 0), ("c2", AT_SCALE)])];
    let connectors = vec![connector("c1", 0, 0), connector("c2", 1_000, 0)];
    let buildings = vec![building("b1", 200, 100)];
    let building_links = vec![link("b1", "c1", 12_500)];

    let built = build_graph(&roads, &connectors, &buildings, &building_links).unwrap();
    assert_eq!(built.graph.node_count(), 3);
    assert_eq!(built.graph.edge_count(), 2);
    assert_eq!(built.connector_nodes.len(), 2);
    assert_eq!(built.building_nodes.len(), 1);
}

#[test]
fn connectors_come_first_then_buildings() {
    let connectors = vec![connector("c1", 0, 0), connector("c2", 5, 6)];
    let buildings = vec![building("b1", 7, 8)];
    let built = build_graph(&[], &connectors, &buildings, &[]).unwrap();
    assert_eq!(built.connector_nodes["c1"], 0);
    assert_eq!(built.connector_nodes["c2"], 1);
    assert_eq!(built.building_nodes["b1"], 2);
    match &built.graph[NodeIndex::new(1)] {
        Node::Connector { id, x, y } => assert_eq!((id.as_str(), *x, *y), ("c2", 5, 6)),
        other => panic!("unexpected node {other:?}"),
    }
    match &built.graph[NodeIndex::new(2)] {
        Node::Building { id, x, y } => assert_eq!((id.as_str(), *x, *y), ("b1", 7, 8)),
        other => panic!("unexpected node {other:?}"),
    }
}

#[test]
fn road_length_is_split_by_position() {
    // the refs are given out of order; they are sorted by position
    let roads = vec![road("r1", 10_000, &[("c3", AT_SCALE), ("c1", 0), ("c2", AT_SCALE / 4)])];
    let connectors = vec![connector("c1", 0, 0), connector("c2", 1, 0), connector("c3", 2, 0)];
    let built = build_graph(&roads, &connectors, &[], &[]).unwrap();
    assert_eq!(built.graph.edge_count(), 2);
    let (a, b) = built.graph.edge_endpoints(EdgeIndex::new(0)).unwrap();
    assert_eq!((a.index(), b.index()), (0, 1));
    match &built.graph[EdgeIndex::new(0)] {
        Edge::Road { segment_id, length_mm } => assert_eq!((segment_id.as_str(), *length_mm), ("r1", 2_500)),
        other => panic!("unexpected edge {other:?}"),
    }
    let (a, b) = built.graph.edge_endpoints(EdgeIndex::new(1)).unwrap();
    assert_eq!((a.index(), b.index()), (1, 2));
    match &built.graph[EdgeIndex::new(1)] {
        Edge::Road { length_mm, .. } => assert_eq!(*length_mm, 7_500),
        other => panic!("unexpected edge {other:?}"),
    }
}

#[test]
fn piece_lengths_add_up_to_the_road() {
    // a 10 mm road cut at a third: marks at 0, 3 and 10 mm give pieces of 3 and 7
    let roads = vec![road("r1", 10, &[("c1", 0), ("c2", AT_SCALE / 3), ("c3", AT_SCALE)])];
    let connectors = vec![connector("c1", 0, 0), connector("c2", 1, 0), connector("c3", 2, 0)];
    let built = build_graph(&roads, &connectors, &[], &[]).unwrap();
    let lengths: Vec<u32> = (0..2)
        .map(|e| match &built.graph[EdgeIndex::new(e)] {
            Edge::Road { length_mm, .. } => *length_mm,
            other => panic!("unexpected edge {other:?}"),
        })
        .collect();
    assert_eq!(lengths, vec![3, 7]);
    assert_eq!(lengths.iter().sum::<u32>(), 10);
}

#[test]
fn access_links_join_building_and_connector() {
    let connectors = vec![connector("c1", 0, 0)];
    let buildings = vec![building("b1", 3, 4)];
    let built = build_graph(&[], &connectors, &buildings, &[link("b1", "c1", 12_500)]).unwrap();
    let (a, b) = built.graph.edge_endpoints(EdgeIndex::new(0)).unwrap();
    assert_eq!((a.index(), b.index()), (1, 0));
    match &built.graph[EdgeIndex::new(0)] {
        Edge::BuildingAccess { distance_mm } => assert_eq!(*distance_mm, 12_500),
        other => panic!("unexpected edge {other:?}"),
    }
}

#[test]
fn duplicate_connector_is_refused() {
    let connectors = vec![connector("c1", 0, 0), connector("c1", 1, 1)];
    let err = build_graph(&[], &connectors, &[], &[]).err().unwrap();
    assert_eq!(err, BuildGraphError::DuplicateConnector("c1".into()));
    assert_eq!(err.to_string(), "duplicate connector id: c1");
}

#[test]
fn duplicate_building_is_refused() {
    let buildings = vec![building("b1", 0, 0), building("b1", 1, 1)];
    let err = build_graph(&[], &[], &buildings, &[]).err().unwrap();
    assert_eq!(err, BuildGraphError::DuplicateBuilding("b1".into()));
    assert_eq!(err.to_string(), "duplicate building id: b1");
}

#[test]
fn road_with_one_connector_is_refused() {
    let roads = vec![road("r9", 1_000, &[("c1", 0)])];
    let err = build_graph(&roads, &[connector("c1", 0, 0)], &[], &[]).err().unwrap();
    assert_eq!(err, BuildGraphError::RoadSegmentTooShort("r9".into()));
    assert_eq!(err.to_string(), "road segment r9 must reference at least two connectors");
}

#[test]
fn road_to_unknown_connector_is_refused() {
    let roads = vec![road("r1", 1_000, &[("c1", 0), ("cx", AT_SCALE)])];
    let err = build_graph(&roads, &[connector("c1", 0, 0)], &[], &[]).err().unwrap();
    assert_eq!(err, BuildGraphError::MissingConnector("cx".into()));
    assert_eq!(err.to_string(), "missing connector id: cx");
}

#[test]
fn link_to_unknown_building_is_refused() {
    let err = build_graph(&[], &[connector("c1", 0, 0)], &[], &[link("bx", "c1", 5)]).err().unwrap();
    assert_eq!(err, BuildGraphError::MissingBuilding("bx".into()));
    assert_eq!(err.to_string(), "missing building id: bx");
}

#[test]
fn link_to_unknown_connector_is_refused() {
    let err = build_graph(&[], &[], &[building("b1", 0, 0)], &[link("b1", "cx", 5)]).err().unwrap();
    assert_eq!(err, BuildGraphError::MissingConnector("cx".into()));
}

#[test]
fn first_error_wins() {
    // a duplicate connector is reported before a short road
    let roads = vec![road("r1", 1_000, &[("c1", 0)])];
    let connectors = vec![connector("c1", 0, 0), connector("c1", 0, 0)];
    let err = build_graph(&roads, &connectors, &[], &[]).err().unwrap();
    assert_eq!(err, BuildGraphError::DuplicateConnector("c1".into()));
}
