[package]
name = "fandango_targets"
version = "0.1.0"
edition = "2021"
publish = false

[dependencies]
rand = "0.9"
hashbrown = "*"
mappable-rc = "*"
petgraph = "*"
anyhow = "1"
