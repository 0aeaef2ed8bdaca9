[package]
name = "petrivet"
version = "0.1.0"
edition = "2021"
publish = false

[dependencies]
petgraph = "=0.8.3"
graph-cycles = "=0.3.0"
serde = { version = "=1.0.229", features = ["derive"] }
quick-xml = { version = "*", features = ["serialize"] }

[dev-dependencies]
serde_json = "=1.0.154"
