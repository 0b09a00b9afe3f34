[package]
name = "my_gzip"
version = "0.1.0"
edition = "2021"
publish = false

[dependencies]
anyhow = "*"
clap = { version = "*", features = ["derive"] }
encoding_rs = "*"

[dev-dependencies]
flate2 = "*"
