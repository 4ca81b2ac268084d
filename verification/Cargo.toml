[package]
name = "graph_stats"
version = "0.1.0"
edition = "2021"
publish = false
