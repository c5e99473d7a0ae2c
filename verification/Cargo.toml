[package]
name = "candystore"
version = "0.1.0"
edition = "2021"
publish = false

[dependencies]
anyhow = "*"
databuf = "*"
parking_lot = "*"
uuid = { version = "*", features = ["v4"] }
