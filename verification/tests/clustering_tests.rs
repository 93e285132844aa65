use graph_builder::clustering::{cluster_buildings, UnionFind};
use graph_builder::{build_graph, Building, BuildingConnectorLink, Connector, RoadConnectorRef, RoadSegment, AT_SCALE};

fn road(id: &str, length_mm: u32, a: &str, b: &str) -> RoadSegment {
    RoadSegment {
        id: id.into(),
        length_mm,
        connectors: vec![
            RoadConnectorRef { connector_id: a.into(), at: 0 },
            RoadConnectorRef { connector_id: b.into(), at: AT_SCALE },
        ],
    }
}

fn connector(id: &str) -> Connector {
    Connector { id: id.into(), x: 0, y: 0 }
}

fn building(id: &str) -> Building {
    Building { id: id.into(), x: 0, y: 0 }
}

fn link(b: &str, c: &str, distance_mm: u32) -> BuildingConnectorLink {
    BuildingConnectorLink { building_id: b.into(), connector_id: c.into(), distance_mm }
}

#[test]
fn union_find_starts_with_singletons() {
    let mut uf = UnionFind::new(4);
    for i in 0..4 {
        assert_eq!(uf.find(i), i);
    }
}

#[test]
fn union_joins_the_set_of_i_to_the_root_of_j() {
    let mut uf = UnionFind::new(5);
    uf.union(0, 1);
    assert_eq!(uf.find(0), 1);
    assert_eq!(uf.find(1), 1);
    uf.union(2, 3);
    uf.union(1, 3);
    for i in 0..4 {
        assert_eq!(uf.find(i), 3);
    }
    assert_eq!(uf.find(4), 4);
    // joining members of one set changes nothing
    uf.union(0, 2);
    for i in 0..4 {
        assert_eq!(uf.find(i), 3);
    }
}

#[test]
fn find_is_idempotent() {
    let mut uf = UnionFind::new(6);
    uf.union(0, 1);
    uf.union(1, 2);
    uf.union(3, 4);
    for i in 0..6 {
        let r = uf.find(i);
        assert_eq!(uf.find(r), r);
        assert_eq!(uf.find(i), r);
    }
}

/// c1 –(60m)– c2 –(60m)– c3 –(500m)– c4, one building on each connector.
fn street() -> graph_builder::BuiltGraph {
    let roads = vec![road("r1", 60_000, "c1", "c2"), road("r2", 60_000, "c2", "c3"), road("r3", 500_000, "c3", "c4")];
    let connectors = vec![connector("c1"), connector("c2"), connector("c3"), connector("c4")];
    let buildings = vec![building("b1"), building("b2"), building("b3"), building("b4")];
    let links = vec![link("b1", "c1", 30_000), link("b2", "c2", 30_000), link("b3", "c3", 30_000), link("b4", "c4", 30_000)];
    build_graph(&roads, &connectors, &buildings, &links).unwrap()
}

#[test]
fn buildings_within_reach_share_a_cluster() {
    let g = street();
    let clusters = cluster_buildings(&g, 100_000);
    assert_eq!(clusters.len(), 4);
    let b = |id: &str| clusters[&g.building_nodes[id]];
    // b1 and b3 are 120 m apart, but b2 lies 60 m from each: one chain
    assert_eq!(b("b1"), b("b2"));
    assert_eq!(b("b2"), b("b3"));
    assert_ne!(b("b3"), b("b4"));
    // ids are numbered from 0 without gaps
    let mut ids: Vec<usize> = clusters.values().copied().collect();
    ids.sort();
    ids.dedup();
    assert_eq!(ids, vec![0, 1]);
}

#[test]
fn access_links_cost_nothing_when_clustering() {
    let g = street();
    // the access links are 30 m each, yet b1 and b2 are only 60 m apart on the road
    let clusters = cluster_buildings(&g, 60_000);
    let b = |id: &str| clusters[&g.building_nodes[id]];
    assert_eq!(b("b1"), b("b2"));
    let clusters = cluster_buildings(&g, 59_999);
    let b = |id: &str| clusters[&g.building_nodes[id]];
    assert_ne!(b("b1"), b("b2"));
    assert_ne!(b("b2"), b("b3"));
}

#[test]
fn a_graph_without_buildings_has_no_clusters() {
    let roads = vec![road("r1", 1_000, "c1", "c2")];
    let g = build_graph(&roads, &[connector("c1"), connector("c2")], &[], &[]).unwrap();
    assert!(cluster_buildings(&g, 1_000_000).is_empty());
}

#[test]
fn cluster_ids_follow_the_lowest_building_node() {
    let g = street();
    let clusters = cluster_buildings(&g, 100_000);
    let b = |id: &str| clusters[&g.building_nodes[id]];
    assert_eq!(b("b1"), 0);
    assert_eq!(b("b2"), 0);
    assert_eq!(b("b3"), 0);
    assert_eq!(b("b4"), 1);
    let apart = cluster_buildings(&g, 59_999);
    let b = |id: &str| apart[&g.building_nodes[id]];
    assert_eq!((b("b1"), b("b2"), b("b3"), b("b4")), (0, 1, 2, 3));
}

#[test]
fn clustering_twice_gives_the_same_map() {
    let g = street();
    for d in [0, 59_999, 60_000, 100_000, 1_000_000] {
        assert_eq!(cluster_buildings(&g, d), cluster_buildings(&g, d));
    }
    // a graph built again from the same inputs clusters alike too
    assert_eq!(cluster_buildings(&street(), 100_000), cluster_buildings(&g, 100_000));
}
