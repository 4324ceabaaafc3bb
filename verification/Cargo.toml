[package]
name = "table_db"
version = "0.1.0"
edition = "2021"
publish = false

[dependencies]
sled = "0.34"
prost = "0.11"
actix = "0.13"
anyhow = "1"
async-trait = "0.1"
serde = { version = "1", features = ["derive"] }
serde_json = "1"
