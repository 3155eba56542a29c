[package]
name = "rom"
version = "0.1.0"
edition = "2021"
publish = false

[dependencies]
indexmap = "2"
serde = { version = "1", features = ["derive"] }
serde_json = "1"
serde_repr = "0.1"
clap = { version = "4", features = ["derive"] }
chrono = "0.4"
crossterm = "0.28"
csv = "1"
eyre = "0.6"
libc = "0.2"
