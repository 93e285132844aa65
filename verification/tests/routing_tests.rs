use graph_builder::route::route_segments;
use graph_builder::{build_graph, Building, BuildingConnectorLink, BuiltGraph, Connector, RoadConnectorRef, RoadSegment, AT_SCALE};

fn road(id: &str, length_mm: u32, a: &str, b: &str) -> RoadSegment {
    RoadSegment {
        id: id.into(),
        length_mm,
        connectors: vec![
            RoadConnectorRef { connector_id: a.into(), at: 0 },
            RoadConnectorRef { connector_id: b.into(), at: AT_SCALE },
        ],
    }
}

fn connector(id: &str) -> Connector {
    Connector { id: id.into(), x: 0, y: 0 }
}

fn building(id: &str) -> Building {
    Building { id: id.into(), x: 0, y: 0 }
}

fn link(b: &str, c: &str, distance_mm: u32) -> BuildingConnectorLink {
    BuildingConnectorLink { building_id: b.into(), connector_id: c.into(), distance_mm }
}

/// c1 –r1(100m)– c2 –r2(100m)– c3, a long way round c1 –r3(500m)– c3,
/// c3 –r4(50m)– c4, and an unconnected connector c5; buildings b1, b3, b4
/// and b5 hang 10 m off c1, c3, c4 and c5.
///
/// Node indices: c1..c5 are 0..4, b1 is 5, b3 is 6, b4 is 7, b5 is 8.
fn town() -> BuiltGraph {
    let roads = vec![
        road("r1", 100_000, "c1", "c2"),
        road("r2", 100_000, "c2", "c3"),
        road("r3", 500_000, "c1", "c3"),
        road("r4", 50_000, "c3", "c4"),
    ];
    let connectors = vec![connector("c1"), connector("c2"), connector("c3"), connector("c4"), connector("c5")];
    let buildings = vec![building("b1"), building("b3"), building("b4"), building("b5")];
    let links = vec![link("b1", "c1", 10_000), link("b3", "c3", 10_000), link("b4", "c4", 10_000), link("b5", "c5", 10_000)];
    build_graph(&roads, &connectors, &buildings, &links).unwrap()
}

#[test]
fn routes_follow_the_cheapest_roads() {
    let built = town();
    // b3 joins b1 over r2 and r1 (not the long r3); b4 then joins c3 over r4
    let segs = route_segments(&built.graph, &vec![5, 6, 7]);
    assert_eq!(segs, vec!["r2".to_string(), "r1".to_string(), "r4".to_string()]);
}

#[test]
fn a_later_hub_joins_the_nearest_routed_node() {
    let built = town();
    // b4 joins b1 over r4, r2, r1; b3 then sits on that route and adds nothing
    let segs = route_segments(&built.graph, &vec![5, 7, 6]);
    assert_eq!(segs, vec!["r4".to_string(), "r2".to_string(), "r1".to_string()]);
}

#[test]
fn unreachable_hubs_add_no_roads() {
    let built = town();
    let segs = route_segments(&built.graph, &vec![5, 8, 6]);
    assert_eq!(segs, vec!["r2".to_string(), "r1".to_string()]);
}

#[test]
fn fewer_than_two_hubs_need_no_roads() {
    let built = town();
    assert!(route_segments(&built.graph, &vec![]).is_empty());
    assert!(route_segments(&built.graph, &vec![6]).is_empty());
}

#[test]
fn a_repeated_hub_adds_no_roads() {
    let built = town();
    let segs = route_segments(&built.graph, &vec![5, 5, 6, 6]);
    assert_eq!(segs, vec!["r2".to_string(), "r1".to_string()]);
}
