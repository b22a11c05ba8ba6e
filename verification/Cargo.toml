[package]
name = "atri-elo-common"
version = "0.1.0"
edition = "2021"
publish = false

[dependencies]
comfy-table = "6"
dashmap = "5"
gjson = "0.8"
itertools = "0.10"
rayon = "1"
reqwest = { version = "0.11", features = ["blocking"] }
serde_json = "1"
