[package]
name = "tsp_resolution"
version = "0.1.0"
edition = "2021"
publish = false

[dependencies]
smallbitset = "=0.7.1"
clustering = "=0.2.2"
ddo = "=2.0.0"
clap = { version = "=4.6.7", features = ["derive"] }
serde_json = "=1.0.154"
osrm_client = "*"
