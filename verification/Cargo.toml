[package]
name = "mathema"
version = "0.1.0"
edition = "2021"
publish = false

[dependencies]
rand = "*"
uuid = { version = "*", features = ["v4"] }
chrono = { version = "*", default-features = false, features = ["clock"] }
serde = { version = "*", features = ["derive"] }
ron = "*"
atomicwrites = "*"
walkdir = "*"
