[package]
name = "graph_builder"
version = "0.1.0"
edition = "2021"
publish = false

[dependencies]
petgraph = "0.6"
csv = "1"
