[package]
name = "graph_clustering_rs"
version = "0.1.0"
edition = "2021"
publish = false

[dependencies]
petgraph = "*"
num-traits = "*"
