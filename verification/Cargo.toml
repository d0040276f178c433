[package]
name = "parry"
version = "0.1.0"
edition = "2021"
publish = false

[dependencies]
xxhash-rust = { version = "*", features = ["xxh3"] }
clap = { version = "*", features = ["derive"] }

[dev-dependencies]
rand = "*"
