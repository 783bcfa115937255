[package]
name = "sod"
version = "0.1.0"
edition = "2021"
publish = false

[dependencies]
blake3 = { version = "1", features = ["pure"] }
postcard = { version = "1", features = ["use-std"] }
getrandom = "0.2"
serde = { version = "1", features = ["derive"] }
fjall = "*"
