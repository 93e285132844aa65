use graph_builder::optimizer::{brute_force, greedy_pareto, steiner_weight};
use graph_builder::{build_graph, BuiltGraph, Connector, RoadConnectorRef, RoadSegment, AT_SCALE};

/// `a <= b` where `None` is an infinite weight.
fn weight_le(a: Option<u128>, b: Option<u128>) -> bool {
    match (a, b) {
        (_, None) => true,
        (None, Some(_)) => false,
        (Some(x), Some(y)) => x <= y,
    }
}

/// A weight in metres.
fn metres(w: Option<u128>) -> f64 {
    w.expect("finite weight") as f64 / 1000.0
}

fn road(id: &str, length_mm: u32, refs: &[(&str, u64)]) -> RoadSegment {
    RoadSegment {
        id: id.into(),
        length_mm,
        connectors: refs
            .iter()
            .map(|(c, at)| RoadConnectorRef { connector_id: (*c).into(), at: *at })
            .collect(),
    }
}

fn connector(id: &str, x: i64, y: i64) -> Connector {
    Connector { id: id.into(), x, y }
}

/// Three connectors in a line: c1 –(10m)– c2 –(10m)– c3
fn line_graph() -> BuiltGraph {
    let roads = vec![
        road("r1", 10_000, &[("c1", 0), ("c2", AT_SCALE)]),
        road("r2", 10_000, &[("c2", 0), ("c3", AT_SCALE)]),
    ];
    let connectors = vec![connector("c1", 0, 0), connector("c2", 1, 0), connector("c3", 2, 0)];
    build_graph(&roads, &connectors, &[], &[]).unwrap()
}

#[test]
fn steiner_weight_routes_through_intermediate_node() {
    let g = line_graph();
    let c1 = g.connector_nodes["c1"];
    let c3 = g.connector_nodes["c3"];
    let w = metres(steiner_weight(&g, &[c1, c3]));
    assert!((w - 20.0).abs() < 1e-9, "expected 20m, got {w}");
}

#[test]
fn brute_force_returns_pareto_front() {
    let g = line_graph();
    let candidates: Vec<usize> = ["c1", "c2", "c3"].iter().map(|id| g.connector_nodes[*id]).collect();

    let front = brute_force(&g, &candidates);
    assert!(front.iter().any(|s| s.selected.len() == 3));
    for i in 0..front.len() {
        for j in 0..front.len() {
            if i == j {
                continue;
            }
            let a = &front[i];
            let b = &front[j];
            assert!(
                !(b.selected.len() >= a.selected.len() && weight_le(b.tree_weight, a.tree_weight)),
                "solution {i} is dominated by {j}"
            );
        }
    }
}

#[test]
fn greedy_pareto_produces_one_solution_per_step() {
    let g = line_graph();
    let candidates: Vec<usize> = ["c1", "c2", "c3"].iter().map(|id| g.connector_nodes[*id]).collect();

    let solutions = greedy_pareto(&g, &candidates);
    assert_eq!(solutions.len(), 3);
    for (i, s) in solutions.iter().enumerate() {
        assert_eq!(s.selected.len(), i + 1);
    }
    for w in solutions.windows(2) {
        assert!(weight_le(w[0].tree_weight, w[1].tree_weight));
    }
}

#[test]
fn steiner_weight_handles_single_node() {
    let g = line_graph();
    let c1 = g.connector_nodes["c1"];
    let w = metres(steiner_weight(&g, &[c1]));
    assert!((w - 0.0).abs() < 1e-9, "single node should have weight 0, got {w}");
}

#[test]
fn steiner_weight_handles_two_nodes() {
    let g = line_graph();
    let c1 = g.connector_nodes["c1"];
    let c2 = g.connector_nodes["c2"];
    let w = metres(steiner_weight(&g, &[c1, c2]));
    assert!((w - 10.0).abs() < 1e-9, "expected 10m, got {w}");
}

#[test]
fn greedy_pareto_handles_single_candidate() {
    let g = line_graph();
    let c1 = g.connector_nodes["c1"];
    let solutions = greedy_pareto(&g, &[c1]);
    assert_eq!(solutions.len(), 1);
    assert_eq!(solutions[0].selected.len(), 1);
    assert!((metres(solutions[0].tree_weight) - 0.0).abs() < 1e-9);
}

#[test]
fn brute_force_handles_two_candidates() {
    let g = line_graph();
    let c1 = g.connector_nodes["c1"];
    let c2 = g.connector_nodes["c2"];
    let solutions = brute_force(&g, &[c1, c2]);
    assert!(solutions.len() > 0);
    assert!(solutions.iter().any(|s| s.selected.len() == 1));
    assert!(solutions.iter().any(|s| s.selected.len() == 2));
}

#[test]
fn steiner_weight_of_disconnected_terminals_is_infinite() {
    let roads = vec![road("r1", 5_000, &[("a", 0), ("b", AT_SCALE)])];
    let connectors = vec![connector("a", 0, 0), connector("b", 1, 0), connector("z", 9, 9)];
    let g = build_graph(&roads, &connectors, &[], &[]).unwrap();
    let a = g.connector_nodes["a"];
    let b = g.connector_nodes["b"];
    let z = g.connector_nodes["z"];
    assert_eq!(steiner_weight(&g, &[a, b]), Some(5_000));
    assert_eq!(steiner_weight(&g, &[a, b, z]), None);
}

#[test]
fn steiner_weight_of_a_star_spans_the_closure() {
    // star: centre m with three arms of 3m, 4m and 5m
    let roads = vec![
        road("ra", 3_000, &[("m", 0), ("a", AT_SCALE)]),
        road("rb", 4_000, &[("m", 0), ("b", AT_SCALE)]),
        road("rc", 5_000, &[("m", 0), ("c", AT_SCALE)]),
    ];
    let connectors = vec![connector("m", 0, 0), connector("a", 1, 0), connector("b", 0, 1), connector("c", -1, 0)];
    let g = build_graph(&roads, &connectors, &[], &[]).unwrap();
    let a = g.connector_nodes["a"];
    let b = g.connector_nodes["b"];
    let c = g.connector_nodes["c"];
    // closure: ab = 7, ac = 8, bc = 9; spanning tree ab + ac = 15 m
    assert_eq!(steiner_weight(&g, &[a, b, c]), Some(15_000));
    // the same set in another order gives the same weight
    assert_eq!(steiner_weight(&g, &[c, a, b]), Some(15_000));
    // a terminal listed twice adds nothing
    assert_eq!(steiner_weight(&g, &[a, a, b]), Some(7_000));
}

#[test]
fn brute_force_front_is_sorted_by_descending_size() {
    let g = line_graph();
    let candidates: Vec<usize> = ["c1", "c2", "c3"].iter().map(|id| g.connector_nodes[*id]).collect();
    let front = brute_force(&g, &candidates);
    for w in front.windows(2) {
        assert!(w[0].selected.len() > w[1].selected.len());
    }
    // on a line every size has a best subset: a single node (0 m), two
    // neighbours (10 m) and all three (20 m)
    let sizes_and_weights: Vec<(usize, Option<u128>)> = front.iter().map(|s| (s.selected.len(), s.tree_weight)).collect();
    assert_eq!(sizes_and_weights, vec![(3, Some(20_000)), (2, Some(10_000)), (1, Some(0))]);
    // the first subset of each point is kept: {c1}, then {c1, c2}
    assert_eq!(front[2].selected, vec![candidates[0]]);
    assert_eq!(front[1].selected, vec![candidates[0], candidates[1]]);
}

#[test]
fn greedy_pareto_takes_the_first_cheapest_candidate() {
    let g = line_graph();
    let c1 = g.connector_nodes["c1"];
    let c2 = g.connector_nodes["c2"];
    let c3 = g.connector_nodes["c3"];
    let solutions = greedy_pareto(&g, &[c1, c2, c3]);
    // step 1: every single node weighs 0, the first (c1) is taken and c3
    // swaps into its place; step 2: c2 (10 m) beats c3 (20 m)
    assert_eq!(solutions[0].selected, vec![c1]);
    assert_eq!(solutions[1].selected, vec![c1, c2]);
    assert_eq!(solutions[2].selected, vec![c1, c2, c3]);
    assert_eq!(solutions[0].tree_weight, Some(0));
    assert_eq!(solutions[1].tree_weight, Some(10_000));
    assert_eq!(solutions[2].tree_weight, Some(20_000));
}

#[test]
fn greedy_pareto_of_no_candidates_is_empty() {
    let g = line_graph();
    assert!(greedy_pareto(&g, &[]).is_empty());
    assert!(brute_force(&g, &[]).is_empty());
}

#[test]
fn steiner_weight_is_at_most_twice_the_connecting_roads() {
    // star: centre m (not a terminal) with three arms of 3m, 4m and 5m; the
    // arms are the cheapest road set joining a, b and c (12 m)
    let roads = vec![
        road("ra", 3_000, &[("m", 0), ("a", AT_SCALE)]),
        road("rb", 4_000, &[("m", 0), ("b", AT_SCALE)]),
        road("rc", 5_000, &[("m", 0), ("c", AT_SCALE)]),
    ];
    let connectors = vec![connector("m", 0, 0), connector("a", 1, 0), connector("b", 0, 1), connector("c", -1, 0)];
    let g = build_graph(&roads, &connectors, &[], &[]).unwrap();
    let terminals = [g.connector_nodes["a"], g.connector_nodes["b"], g.connector_nodes["c"]];
    let w = steiner_weight(&g, &terminals).unwrap();
    assert!(w >= 12_000);
    assert!(w <= 2 * 12_000);
}

#[test]
fn steiner_weight_is_the_lightest_spanning_tree_of_the_closure() {
    // a path a –2m– b –2m– c –2m– d: the closure's lightest spanning tree takes
    // the three 2 m steps, not the longer pairs
    let roads = vec![
        road("r1", 2_000, &[("a", 0), ("b", AT_SCALE)]),
        road("r2", 2_000, &[("b", 0), ("c", AT_SCALE)]),
        road("r3", 2_000, &[("c", 0), ("d", AT_SCALE)]),
    ];
    let connectors = vec![connector("a", 0, 0), connector("b", 1, 0), connector("c", 2, 0), connector("d", 3, 0)];
    let g = build_graph(&roads, &connectors, &[], &[]).unwrap();
    let [a, b, c, d] = [g.connector_nodes["a"], g.connector_nodes["b"], g.connector_nodes["c"], g.connector_nodes["d"]];
    assert_eq!(steiner_weight(&g, &[d, a, c, b]), Some(6_000));
}
