[package]
name = "qcs_core"
version = "0.1.0"
edition = "2021"
publish = false

[dependencies]
hashbrown = "0.14"
petgraph = "0.6"
nalgebra = "0.32"
either = "1"
clap = { version = "4", features = ["derive"] }
csv = "1"
rusqlite = { version = "0.31", features = ["bundled"] }
thiserror = "1"
tracing = "0.1"
tracing-subscriber = { version = "0.3", features = ["env-filter"] }
logos = "0.14"
nom = "7"
oq3_semantics = "*"
