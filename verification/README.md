# graph_builder

A verified library for planning connections over a road network: it builds an
undirected graph of road connectors and buildings, clusters buildings that lie
close along the roads, coarsens the graph to one node per cluster, and searches
for Pareto trade-offs between the number of buildings reached and the
approximate Steiner tree weight needed to reach them. Every function in `src/`
carries a contract, and Verus proves all of them except the small wrappers
that call `petgraph`, `csv`, `std::collections::HashMap` and `str::trim`
(`src/petgraph_specs.rs`, `src/id_map.rs`, `shortest_from` in
`src/optimizer.rs`, `parse_csv` in `src/csv_input.rs`, `trim` in
`src/sources.rs`): their contracts are taken on trust from those libraries'
sources and documentation.

Quantities are integers: lengths in millimetres, positions along a road in
billionths of its length, coordinates in a fixed-point unit chosen by the
caller. An infinite weight (terminals that the roads do not join) is `None`.

## Layout

- `src/model.rs`: the input records, graph nodes and edges, and build errors.
- `src/builder.rs`: `build_graph`, from records to the spatial graph.
- `src/walks.rs`, `src/search.rs`, `src/cost_queue.rs`: walks and their
  costs, a verified binary heap, and multi-source shortest-path search.
- `src/union_find.rs`, `src/clustering.rs`: single-linkage clustering of
  buildings within a road distance.
- `src/reduced_graph.rs`: the coarsened graph of clusters.
- `src/optimizer.rs`, `src/cluster_greedy.rs`: the Steiner weight estimate
  (metric closure and Prim's tree), brute-force and greedy Pareto searches.
- `src/spanning.rs`, `src/steiner_bound.rs`: laws about the estimate: it is
  the weight of a minimum spanning tree of the closure, and at most twice the
  length of any edge set that connects the terminals.
- `src/selection.rs`, `src/route.rs`, `src/sources.rs`, `src/road_refs.rs`,
  `src/csv_input.rs`: resolving sources to clusters, choosing candidate
  clusters, routing the chosen hubs over the roads, reading source lists,
  reading the CSV tables and grouping input rows.
- `src/petgraph_specs.rs`, `src/id_map.rs`: the contracts under which the
  library calls `petgraph` and `std::collections::HashMap`.
- `app/`: the command-line program (file reading, number conversion, output).
- `tests/`: tests run against the compiled library.
