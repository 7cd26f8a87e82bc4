[package]
name = "citation_graph"
version = "0.1.0"
edition = "2021"
publish = false

[dependencies]
petgraph = "=0.6.5"
fixedbitset = "=0.4.2"
