[package]
name = "ferrum_cloud"
version = "0.1.0"
edition = "2021"
publish = false

[dependencies]
rayon = "*"
serde = { version = "*", features = ["derive"] }
serde_json = "*"
thiserror = "*"
pcd-rs = "*"
