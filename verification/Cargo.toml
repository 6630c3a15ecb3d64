[package]
name = "resolver"
version = "0.1.0"
edition = "2021"
publish = false

[dependencies]
anyhow = "1"
petgraph = "0.6"
regex = "1"
rnix = "0.11"
rowan = "0.15"
