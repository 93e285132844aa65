use graph_builder::optimizer::ClusterSolution;
use graph_builder::cluster_greedy::last_within_budget;
use std::collections::HashMap;

use graph_builder::clustering::cluster_buildings;
use graph_builder::optimizer::{greedy_cluster_pareto, greedy_cluster_pareto_in_order};
use graph_builder::reduced_graph::build_reduced_graph;
use graph_builder::{build_graph, Building, BuildingConnectorLink, BuiltGraph, Connector, RoadConnectorRef, RoadSegment, AT_SCALE};
use petgraph::graph::{EdgeIndex, NodeIndex};

fn road(id: &str, length_mm: u32, a: &str, b: &str) -> RoadSegment {
    RoadSegment {
        id: id.into(),
        length_mm,
        connectors: vec![
            RoadConnectorRef { connector_id: a.into(), at: 0 },
            RoadConnectorRef { connector_id: b.into(), at: AT_SCALE },
        ],
    }
}

fn connector(id: &str) -> Connector {
    Connector { id: id.into(), x: 0, y: 0 }
}

fn building(id: &str, x: i64, y: i64) -> Building {
    Building { id: id.into(), x, y }
}

fn link(b: &str, c: &str, distance_mm: u32) -> BuildingConnectorLink {
    BuildingConnectorLink { building_id: b.into(), connector_id: c.into(), distance_mm }
}

/// c1 –(60m)– c2 –(60m)– c3 –(500m)– c4, one building 30 m off each connector.
fn street() -> BuiltGraph {
    let roads = vec![road("r1", 60_000, "c1", "c2"), road("r2", 60_000, "c2", "c3"), road("r3", 500_000, "c3", "c4")];
    let connectors = vec![connector("c1"), connector("c2"), connector("c3"), connector("c4")];
    let buildings = vec![building("b1", 0, 0), building("b2", 10, 5), building("b3", 21, -7), building("b4", 500, 40)];
    let links = vec![link("b1", "c1", 30_000), link("b2", "c2", 30_000), link("b3", "c3", 30_000), link("b4", "c4", 30_000)];
    build_graph(&roads, &connectors, &buildings, &links).unwrap()
}

#[test]
fn reduced_graph_has_one_node_per_cluster() {
    let g = street();
    let clusters = cluster_buildings(&g, 100_000);
    let r = build_reduced_graph(&g, &clusters);
    assert_eq!(r.node_count(), 2);
    let n0 = &r[NodeIndex::new(0)];
    let n1 = &r[NodeIndex::new(1)];
    assert_eq!((n0.cluster_id, n1.cluster_id), (0, 1));
    let big = if n0.size == 3 { n0 } else { n1 };
    let small = if n0.size == 3 { n1 } else { n0 };
    assert_eq!(big.size, 3);
    assert_eq!(small.size, 1);
    // (0 + 10 + 21) / 3 rounds down to 10, (0 + 5 - 7) / 3 to -1
    assert_eq!((big.centroid_x, big.centroid_y), (10, -1));
    assert_eq!((small.centroid_x, small.centroid_y), (500, 40));
}

#[test]
fn reduced_edge_carries_the_boundary_distance() {
    let g = street();
    let clusters = cluster_buildings(&g, 100_000);
    let r = build_reduced_graph(&g, &clusters);
    assert_eq!(r.edge_count(), 1);
    let (a, b) = r.edge_endpoints(EdgeIndex::new(0)).unwrap();
    assert_eq!((a.index(), b.index()), (0, 1));
    // 30 m to c3, 500 m of road, 30 m from c4
    assert_eq!(r[EdgeIndex::new(0)].distance_mm, 560_000);
}

#[test]
fn reduced_edge_is_the_road_distance_even_through_another_region() {
    // a on c1, c on c2, b on c3 (1 m access each); c1 –10m– c2 –10m– c3 and a
    // direct road c1 –25m– c3: the regions of A and B meet on the direct road
    // (27 m across it), but the road distance from A to B runs past C: 22 m
    let roads = vec![road("r1", 10_000, "c1", "c2"), road("r2", 10_000, "c2", "c3"), road("r3", 25_000, "c1", "c3")];
    let connectors = vec![connector("c1"), connector("c2"), connector("c3")];
    let buildings = vec![building("a", 0, 0), building("c", 0, 0), building("b", 0, 0)];
    let links = vec![link("a", "c1", 1_000), link("c", "c2", 1_000), link("b", "c3", 1_000)];
    let g = build_graph(&roads, &connectors, &buildings, &links).unwrap();
    let mut clusters = HashMap::new();
    clusters.insert(g.building_nodes["a"], 0);
    clusters.insert(g.building_nodes["b"], 1);
    clusters.insert(g.building_nodes["c"], 2);
    let r = build_reduced_graph(&g, &clusters);
    let mut edges: Vec<(usize, usize, u128)> = (0..r.edge_count())
        .map(|e| {
            let (x, y) = r.edge_endpoints(EdgeIndex::new(e)).unwrap();
            (r[x].cluster_id, r[y].cluster_id, r[EdgeIndex::new(e)].distance_mm)
        })
        .collect();
    edges.sort();
    assert_eq!(edges, vec![(0, 1, 22_000), (0, 2, 12_000), (1, 2, 12_000)]);
}

#[test]
fn clusters_that_meet_nowhere_get_no_edge() {
    let roads = vec![road("r1", 1_000, "c1", "c2")];
    let connectors = vec![connector("c1"), connector("c2"), connector("c3")];
    let buildings = vec![building("b1", 0, 0), building("b2", 0, 0)];
    let links = vec![link("b1", "c1", 1_000), link("b2", "c3", 1_000)];
    let g = build_graph(&roads, &connectors, &buildings, &links).unwrap();
    let mut clusters = HashMap::new();
    clusters.insert(g.building_nodes["b1"], 7);
    clusters.insert(g.building_nodes["b2"], 3);
    let r = build_reduced_graph(&g, &clusters);
    assert_eq!(r.node_count(), 2);
    assert_eq!(r[NodeIndex::new(0)].cluster_id, 3);
    assert_eq!(r[NodeIndex::new(1)].cluster_id, 7);
    assert_eq!(r.edge_count(), 0);
}

#[test]
fn a_cluster_of_connectors_has_no_buildings() {
    let g = street();
    let mut clusters = HashMap::new();
    clusters.insert(g.connector_nodes["c1"], 4);
    let r = build_reduced_graph(&g, &clusters);
    assert_eq!(r.node_count(), 1);
    let n = &r[NodeIndex::new(0)];
    assert_eq!((n.cluster_id, n.size, n.centroid_x, n.centroid_y), (4, 0, 0, 0));
}

/// c0 –(10m)– c1 –(10m)– c2
fn line() -> BuiltGraph {
    let roads = vec![road("r1", 10_000, "c0", "c1"), road("r2", 10_000, "c1", "c2")];
    build_graph(&roads, &[connector("c0"), connector("c1"), connector("c2")], &[], &[]).unwrap()
}

#[test]
fn cluster_greedy_prefers_cost_per_building() {
    let g = line();
    let (c0, c1, c2) = (g.connector_nodes["c0"], g.connector_nodes["c1"], g.connector_nodes["c2"]);
    let mut clusters: HashMap<usize, Vec<usize>> = HashMap::new();
    clusters.insert(10, vec![c0]);
    clusters.insert(11, vec![c1]);
    clusters.insert(12, vec![c2, c2, c2, c2]);
    let s = greedy_cluster_pareto_in_order(&g, &clusters, &[10, 11, 12]);
    assert_eq!(s.len(), 3);
    // step 1: every cost is 0, the first cluster is taken
    assert_eq!(s[0].selected_clusters, vec![10]);
    assert_eq!((s[0].total_buildings_yield, s[0].tree_weight), (1, Some(0)));
    // step 2: cluster 11 costs 10 m for 1 building, cluster 12 20 m for 4
    assert_eq!(s[1].selected_clusters, vec![10, 12]);
    assert_eq!((s[1].total_buildings_yield, s[1].tree_weight), (5, Some(20_000)));
    // step 3: cluster 11 lies on the way and costs nothing
    assert_eq!(s[2].selected_clusters, vec![10, 12, 11]);
    assert_eq!((s[2].total_buildings_yield, s[2].tree_weight), (6, Some(20_000)));
}

#[test]
fn cluster_greedy_takes_clusters_in_id_order() {
    let g = street();
    let clusters = cluster_buildings(&g, 100_000);
    let mut by_cluster: HashMap<usize, Vec<usize>> = HashMap::new();
    for b in ["b1", "b2", "b3", "b4"] {
        let node = g.building_nodes[b];
        by_cluster.entry(clusters[&node]).or_default().push(node);
    }
    let s = greedy_cluster_pareto(&g, &by_cluster);
    assert_eq!(s.len(), 2);
    // step 1: every cost is 0, the lowest id is taken
    assert_eq!(s[0].selected_clusters, vec![0]);
    assert_eq!(s[0].tree_weight, Some(0));
    assert_eq!(s[0].total_buildings_yield, 3);
    // the hubs are b1 and b4: 30 + 60 + 60 + 500 + 30 m apart
    assert_eq!(s[1].selected_clusters, vec![0, 1]);
    assert_eq!(s[1].total_buildings_yield, 4);
    assert_eq!(s[1].tree_weight, Some(680_000));
    // the same as the run in that order
    let t = greedy_cluster_pareto_in_order(&g, &by_cluster, &[0, 1]);
    for (a, b) in s.iter().zip(t.iter()) {
        assert_eq!(a.selected_clusters, b.selected_clusters);
        assert_eq!((a.total_buildings_yield, a.tree_weight), (b.total_buildings_yield, b.tree_weight));
    }
}

#[test]
fn cluster_greedy_of_no_clusters_is_empty() {
    let g = line();
    assert!(greedy_cluster_pareto(&g, &HashMap::new()).is_empty());
}

#[test]
fn the_last_solution_within_the_budget_is_chosen() {
    let s = |n: usize, yield_: usize, w: Option<u128>| ClusterSolution {
        selected_clusters: (0..n).collect(),
        total_buildings_yield: yield_,
        tree_weight: w,
    };
    // 0 m for 10, 2000 m for 20 (100 m each), 9000 m for 25 (360 m each), unreachable
    let sols = vec![s(1, 10, Some(0)), s(2, 20, Some(2_000_000)), s(3, 25, Some(9_000_000)), s(4, 30, None)];
    assert_eq!(last_within_budget(&sols, 300_000), Some(1));
    assert_eq!(last_within_budget(&sols, 400_000), Some(2));
    assert_eq!(last_within_budget(&sols[1..].to_vec(), 50_000), None);
    assert_eq!(last_within_budget(&vec![], 300_000), None);
}
