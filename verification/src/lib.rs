//! Spatial road graph, building clustering, graph coarsening and Pareto
//! optimisation of connection cost against building coverage.
pub mod builder;
pub mod cluster_greedy;
pub mod clustering;
pub mod cost_queue;
pub mod csv_input;
pub mod id_map;
pub mod model;
pub mod optimizer;
pub mod petgraph_specs;
pub mod reduced_graph;
pub mod road_refs;
pub mod route;
pub mod search;
pub mod selection;
pub mod sources;
pub mod spanning;
pub mod steiner_bound;
pub mod union_find;
pub mod walks;

pub use builder::build_graph;
pub use model::{
    AT_SCALE, Building, BuildGraphError, BuildingConnectorLink, BuiltGraph, Connector, Edge, Node, RoadConnectorRef,
    RoadSegment,
};
pub use petgraph_specs::SpatialGraph;
