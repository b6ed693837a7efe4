[package]
name = "aw_sync"
version = "0.1.0"
edition = "2021"
publish = false

[dependencies]
aw-client-rust = "*"
aw-datastore = "*"
aw-models = "*"
chrono = "0.4"
serde_json = "1"
