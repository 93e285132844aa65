//! The input records and the graph they build.
//!
//! Quantities are integers in fixed units: lengths and distances in
//! millimetres, positions along a road (`at`) in billionths of the road
//! (`0` is its start, `AT_SCALE` its end), and coordinates in the fixed-point
//! unit that the caller chose.
use std::collections::HashMap;
use vstd::prelude::*;

use crate::petgraph_specs::SpatialGraph;

verus! {

/// The value of `at` at the far end of a road segment.
pub const AT_SCALE: u64 = 1_000_000_000;

/// A road segment with its length and the connectors placed along it.
#[derive(Debug, Clone)]
pub struct RoadSegment {
    pub id: String,
    /// Length of the whole segment, in millimetres.
    pub length_mm: u32,
    pub connectors: Vec<RoadConnectorRef>,
}

/// A connector placed on a road segment at position `at`.
#[derive(Debug, Clone)]
pub struct RoadConnectorRef {
    pub connector_id: String,
    /// Position along the segment, in billionths of its length.
    pub at: u64,
}

/// A road connector (an intersection or a segment end point).
#[derive(Debug, Clone)]
pub struct Connector {
    pub id: String,
    pub x: i64,
    pub y: i64,
}

/// A building, represented by its centroid.
#[derive(Debug, Clone)]
pub struct Building {
    pub id: String,
    pub x: i64,
    pub y: i64,
}

/// Attachment of a building to its nearest connector.
#[derive(Debug, Clone)]
pub struct BuildingConnectorLink {
    pub building_id: String,
    pub connector_id: String,
    /// Access distance in millimetres.
    pub distance_mm: u32,
}

/// A node of the spatial graph.
#[derive(Debug, Clone)]
pub enum Node {
    Connector { id: String, x: i64, y: i64 },
    Building { id: String, x: i64, y: i64 },
}

/// An edge of the spatial graph.
#[derive(Debug, Clone)]
pub enum Edge {
    /// Part of a road segment between two consecutive connectors; length in millimetres.
    Road { segment_id: String, length_mm: u32 },
    /// The access link of a building; distance in millimetres.
    BuildingAccess { distance_mm: u32 },
}

/// The built graph together with the node index of every connector and building id.
#[derive(Debug)]
pub struct BuiltGraph {
    pub graph: SpatialGraph,
    pub connector_nodes: HashMap<String, usize>,
    pub building_nodes: HashMap<String, usize>,
}

/// Why a set of records does not form a graph.
#[derive(Debug, Clone, PartialEq, Eq)]
pub enum BuildGraphError {
    DuplicateConnector(String),
    DuplicateBuilding(String),
    MissingConnector(String),
    MissingBuilding(String),
    RoadSegmentTooShort(String),
}

/// A node as plain values.
pub enum NodeView {
    Connector { id: Seq<char>, x: i64, y: i64 },
    Building { id: Seq<char>, x: i64, y: i64 },
}

impl View for Node {
    type V = NodeView;

    open spec fn view(&self) -> NodeView {
        match self {
            Node::Connector { id, x, y } => NodeView::Connector { id: id@, x: *x, y: *y },
            Node::Building { id, x, y } => NodeView::Building { id: id@, x: *x, y: *y },
        }
    }
}

/// An edge weight as plain values.
pub enum EdgeView {
    Road { segment_id: Seq<char>, length_mm: u32 },
    BuildingAccess { distance_mm: u32 },
}

impl View for Edge {
    type V = EdgeView;

    open spec fn view(&self) -> EdgeView {
        match self {
            Edge::Road { segment_id, length_mm } => EdgeView::Road {
                segment_id: segment_id@,
                length_mm: *length_mm,
            },
            Edge::BuildingAccess { distance_mm } => EdgeView::BuildingAccess {
                distance_mm: *distance_mm,
            },
        }
    }
}

/// A build error as plain values.
pub enum BuildErrorView {
    DuplicateConnector(Seq<char>),
    DuplicateBuilding(Seq<char>),
    MissingConnector(Seq<char>),
    MissingBuilding(Seq<char>),
    RoadSegmentTooShort(Seq<char>),
}

impl View for BuildGraphError {
    type V = BuildErrorView;

    open spec fn view(&self) -> BuildErrorView {
        match self {
            BuildGraphError::DuplicateConnector(id) => BuildErrorView::DuplicateConnector(id@),
            BuildGraphError::DuplicateBuilding(id) => BuildErrorView::DuplicateBuilding(id@),
            BuildGraphError::MissingConnector(id) => BuildErrorView::MissingConnector(id@),
            BuildGraphError::MissingBuilding(id) => BuildErrorView::MissingBuilding(id@),
            BuildGraphError::RoadSegmentTooShort(id) => BuildErrorView::RoadSegmentTooShort(id@),
        }
    }
}



/// The message of a build error.
pub open spec fn error_message(e: BuildErrorView) -> Seq<char> {
    match e {
        BuildErrorView::DuplicateConnector(id) => "duplicate connector id: "@ + id,
        BuildErrorView::DuplicateBuilding(id) => "duplicate building id: "@ + id,
        BuildErrorView::MissingConnector(id) => "missing connector id: "@ + id,
        BuildErrorView::MissingBuilding(id) => "missing building id: "@ + id,
        BuildErrorView::RoadSegmentTooShort(id) => "road segment "@ + id + " must reference at least two connectors"@,
    }
}

impl BuildGraphError {
    /// The error as a human-readable message.
    pub fn to_string(&self) -> (m: String)
        ensures
            m@ == error_message(self@),
    {
        match self {
            BuildGraphError::DuplicateConnector(id) => {
                let mut m = "duplicate connector id: ".to_owned();
                m.append(id.as_str());
                m
            },
            BuildGraphError::DuplicateBuilding(id) => {
                let mut m = "duplicate building id: ".to_owned();
                m.append(id.as_str());
                m
            },
            BuildGraphError::MissingConnector(id) => {
                let mut m = "missing connector id: ".to_owned();
                m.append(id.as_str());
                m
            },
            BuildGraphError::MissingBuilding(id) => {
                let mut m = "missing building id: ".to_owned();
                m.append(id.as_str());
                m
            },
            BuildGraphError::RoadSegmentTooShort(id) => {
                let mut m = "road segment ".to_owned();
                m.append(id.as_str());
                m.append(" must reference at least two connectors");
                m
            },
        }
    }
}

} // verus!
