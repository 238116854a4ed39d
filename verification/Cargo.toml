[package]
name = "tangl"
version = "0.1.0"
edition = "2021"
publish = false

[dependencies]
petgraph = "*"
termtree = "*"
clap = "4"
colored = "2"
serde = { version = "1", features = ["derive"] }
