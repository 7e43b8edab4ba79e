[package]
name = "rescuemap"
version = "0.1.0"
edition = "2021"
publish = false

[dependencies]
clap = { version = "4", features = ["derive"] }
libc = "0.2"
ron = "0.8"
serde = { version = "1", features = ["derive"] }
