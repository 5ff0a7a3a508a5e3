[package]
name = "ipsolver"
version = "0.1.0"
edition = "2021"
publish = false

[dependencies]
anyhow = "*"
core_affinity = "*"
cplex-rs = "*"
crossbeam = "*"
serde_json = "*"
