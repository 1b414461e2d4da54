[package]
name = "concurrent_labs"
version = "0.1.0"
edition = "2021"
publish = false

[dependencies]
async-recursion = "*"
rayon = "*"
threadpool = "*"
tokio = { version = "*", features = ["full"] }
