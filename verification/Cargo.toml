[package]
name = "fact_graph"
version = "0.1.0"
edition = "2021"
publish = false

[dependencies]
itertools = "=0.9.0"
ndarray = { version = "=0.13.1", features = ["rayon"] }
ndarray-stats = "=0.3.0"
petal-decomposition = { version = "=0.3.0", default-features = false }
rand = "=0.7.3"
rand_pcg = "=0.2.1"
rayon = "=1.12.0"
rkm = "=0.8.1"
serde = { version = "=1.0.229", features = ["derive"] }
serde_json = "=1.0.154"
