[package]
name = "vector_collection"
version = "0.1.0"
edition = "2021"
publish = false

[dependencies]
base64 = "0.22"
hnsw_rs = "*"
napi = "2"
napi-derive = "2"
once_cell = "1"
serde = { version = "1", features = ["derive"] }
serde_json = "1"
