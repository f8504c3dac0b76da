[package]
name = "peer_stats"
version = "0.1.0"
edition = "2021"
publish = false

[dependencies]
anyhow = "*"
bgpkit-broker = "*"
bgpkit-parser = "*"
bzip2 = "*"
chrono = "*"
clap = { version = "*", features = ["derive"] }
indicatif = "*"
ipnet = "*"
num_cpus = "*"
rayon = "*"
rusqlite = { version = "*", features = ["bundled"] }
serde = { version = "*", features = ["derive"] }
serde_json = "*"
tracing = "*"
tracing-subscriber = "*"
walkdir = "*"
