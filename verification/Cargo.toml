[package]
name = "hnsw_index"
version = "0.1.0"
edition = "2021"
publish = false

[dependencies]
rand = "=0.8.8"
log = "0.4"
log4rs = "1"
chrono = "0.4"
