[package]
name = "map_model"
version = "0.1.0"
edition = "2021"
publish = false

[dependencies]
md5 = "=0.7.0"
petgraph = "0.6"
serde = { version = "=1.0.229", features = ["derive"] }
serde_json = "=1.0.154"
anyhow = "=1.0.104"
geo = "=0.23.1"
aabb-quadtree = "=0.1.0"
