use std::collections::HashMap;

use graph_builder::selection::{candidate_clusters, clustered_nodes, resolve_sources, selected_hubs};
use graph_builder::{build_graph, Building, BuildingConnectorLink, Connector, RoadConnectorRef, RoadSegment, AT_SCALE};

#[test]
fn clustered_nodes_come_in_node_order_below_the_bound() {
    let clusters: HashMap<usize, usize> = [(5, 1), (2, 0), (9, 2)].into_iter().collect();
    assert_eq!(clustered_nodes(&clusters, 8), vec![(2, 0), (5, 1)]);
    assert_eq!(clustered_nodes(&clusters, 10), vec![(2, 0), (5, 1), (9, 2)]);
    assert!(clustered_nodes(&clusters, 0).is_empty());
}

#[test]
fn sources_resolve_to_their_clusters() {
    // connectors c1 (0), c2 (1) joined by a road; buildings b1 (2), b2 (3);
    // "x" names both a building (b2's node is not used) and a connector
    let roads = vec![RoadSegment {
        id: "r".into(),
        length_mm: 1_000,
        connectors: vec![
            RoadConnectorRef { connector_id: "c1".into(), at: 0 },
            RoadConnectorRef { connector_id: "c2".into(), at: AT_SCALE },
        ],
    }];
    let connectors = vec![
        Connector { id: "c1".into(), x: 0, y: 0 },
        Connector { id: "c2".into(), x: 1, y: 0 },
        Connector { id: "x".into(), x: 2, y: 0 },
    ];
    let buildings = vec![Building { id: "b1".into(), x: 0, y: 0 }, Building { id: "x".into(), x: 1, y: 1 }];
    let links = vec![BuildingConnectorLink { building_id: "b1".into(), connector_id: "c1".into(), distance_mm: 10 }];
    let built = build_graph(&roads, &connectors, &buildings, &links).unwrap();
    let b1 = built.building_nodes["b1"];
    let bx = built.building_nodes["x"];
    let c2 = built.connector_nodes["c2"];
    let clusters: HashMap<usize, usize> = [(b1, 7), (bx, 4)].into_iter().collect();
    // nearest cluster by node: c2 is nearest to cluster 7
    let mut nearest = vec![None; built.graph.node_count()];
    nearest[c2] = Some((7, 1_010));
    let ids: Vec<String> = ["b1", "c2", "missing", "x", "c1", "b1"].iter().map(|s| s.to_string()).collect();
    let r = resolve_sources(&built, &clusters, &nearest, &ids);
    // b1 -> 7, c2 -> nearest 7, x -> the building, in cluster 4, c1 -> none
    assert_eq!(r.cluster_ids, vec![7, 4]);
    assert_eq!(r.resolved, 5);
    assert_eq!(r.unresolved, vec!["missing".to_string()]);
}

#[test]
fn candidates_are_the_source_clusters_and_the_largest() {
    // cluster 0 has 3 buildings, 1 and 2 have 2, 3 has 1
    let pairs = vec![(10, 0), (11, 1), (12, 0), (13, 2), (14, 3), (15, 1), (16, 2), (17, 0)];
    let cands = candidate_clusters(&pairs, &vec![3, 99], 2);
    let mut keys: Vec<usize> = cands.keys().copied().collect();
    keys.sort();
    // the two largest are 0 and 2 (2 beats 1 on the tie); 3 is a source; 99 has no buildings
    assert_eq!(keys, vec![0, 2, 3]);
    assert_eq!(cands[&0], vec![10, 12, 17]);
    assert_eq!(cands[&2], vec![13, 16]);
    assert_eq!(cands[&3], vec![14]);
}

#[test]
fn asking_for_more_largest_clusters_than_exist_takes_them_all() {
    let pairs = vec![(1, 5), (2, 6)];
    let cands = candidate_clusters(&pairs, &vec![], 10);
    assert_eq!(cands.len(), 2);
    assert!(candidate_clusters(&pairs, &vec![], 0).is_empty());
}

#[test]
fn hubs_are_the_first_buildings_of_the_selected_clusters() {
    let cands: HashMap<usize, Vec<usize>> = [(0, vec![10, 12]), (3, vec![14]), (4, vec![])].into_iter().collect();
    assert_eq!(selected_hubs(&cands, &vec![3, 0, 4, 9]), vec![14, 10]);
}
