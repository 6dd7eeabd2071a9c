[package]
name = "quanjp"
version = "0.1.0"
edition = "2021"
publish = false

[dependencies]
num-bigint = { version = "=0.4.8", features = ["rand"] }
rand = "=0.8.8"
rayon = "=1.12.0"
sha3 = "=0.10.9"
serde = { version = "=1.0.229", features = ["derive"] }
serde_json = "=1.0.154"
chrono = "=0.4.45"
colored = "=2.2.0"
indicatif = "=0.17.11"
num_cpus = "=1.17.0"
rusqlite = "=0.32.1"
