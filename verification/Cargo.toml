[package]
name = "iqdb_hnsw"
version = "1.0.0"
edition = "2021"
publish = false

[dependencies]
iqdb-types = "*"
iqdb-distance = "*"
iqdb-filter = "*"
iqdb-index = "*"

[dev-dependencies]
iqdb-flat = "*"
