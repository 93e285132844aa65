use graph_builder::sources::{source_id_of_trimmed, source_line_id};
use graph_builder::road_refs::{group_road_refs, RoadRefRow};
use graph_builder::sources::dedup_ids;

fn row(road: &str, connector: &str, at: u64, len: u32) -> RoadRefRow {
    RoadRefRow { road_id: road.into(), connector_id: connector.into(), at, road_length_mm: len }
}

#[test]
fn road_rows_are_grouped_in_first_seen_order() {
    let rows = vec![
        row("r2", "c5", 500, 7_000),
        row("r1", "c2", 900, 4_000),
        row("r2", "c4", 100, 7_000),
        row("r1", "c1", 0, 4_000),
        row("r2", "c6", 300, 7_000),
    ];
    let roads = group_road_refs(&rows);
    assert_eq!(roads.len(), 2);
    assert_eq!(roads[0].id, "r2");
    assert_eq!(roads[1].id, "r1");
    let refs: Vec<(&str, u64)> = roads[0].connectors.iter().map(|r| (r.connector_id.as_str(), r.at)).collect();
    assert_eq!(refs, vec![("c4", 100), ("c6", 300), ("c5", 500)]);
    let refs: Vec<(&str, u64)> = roads[1].connectors.iter().map(|r| (r.connector_id.as_str(), r.at)).collect();
    assert_eq!(refs, vec![("c1", 0), ("c2", 900)]);
    assert_eq!(roads[0].length_mm, 7_000);
    assert_eq!(roads[1].length_mm, 4_000);
}

#[test]
fn last_road_length_wins_and_ties_keep_row_order() {
    let rows = vec![row("r1", "a", 5, 1_000), row("r1", "b", 5, 2_000), row("r1", "c", 1, 3_000)];
    let roads = group_road_refs(&rows);
    assert_eq!(roads.len(), 1);
    assert_eq!(roads[0].length_mm, 3_000);
    let ids: Vec<&str> = roads[0].connectors.iter().map(|r| r.connector_id.as_str()).collect();
    assert_eq!(ids, vec!["c", "a", "b"]);
}

#[test]
fn no_rows_no_roads() {
    assert!(group_road_refs(&[]).is_empty());
}

#[test]
fn repeated_source_ids_keep_their_first_place() {
    let ids: Vec<String> = ["b7", "c1", "b7", "c2", "c1"].iter().map(|s| s.to_string()).collect();
    assert_eq!(dedup_ids(&ids), vec!["b7".to_string(), "c1".to_string(), "c2".to_string()]);
    assert!(dedup_ids(&Vec::new()).is_empty());
}

#[test]
fn source_lines_skip_blanks_and_comments() {
    assert_eq!(source_line_id("  b42 \t"), Some("b42".to_string()));
    assert_eq!(source_line_id("   "), None);
    assert_eq!(source_line_id(""), None);
    assert_eq!(source_line_id("  # a comment"), None);
    assert_eq!(source_line_id("c#1"), Some("c#1".to_string()));
    assert_eq!(source_id_of_trimmed("#x"), None);
    assert_eq!(source_id_of_trimmed("x"), Some("x".to_string()));
}
