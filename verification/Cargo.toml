[package]
name = "ranking_graph"
version = "0.1.0"
edition = "2021"
publish = false

[dependencies]
roaring = "0.10"
rayon = "1.10"
