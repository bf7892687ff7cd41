[package]
name = "scalar_dag"
version = "0.1.0"
edition = "2021"
publish = false

[dependencies]
dot-structures = "*"
graphviz-rust = "*"
