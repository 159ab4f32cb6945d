[package]
name = "crater"
version = "0.1.0"
edition = "2021"
publish = false

[dependencies]
chrono = "0.4"
crossbeam = "0.3"
mime = "0.3"
petgraph = "0.4"
rusqlite = { version = "0.14", features = ["bundled", "chrono"] }
serde = { version = "1", features = ["derive"] }
serde_json = "1"
tera = "0.11"
