[package]
name = "gameai"
version = "0.1.0"
edition = "2021"
publish = false

[dependencies]
rand = "0.4"
evmap = "*"
rayon = "1"
clap = "2"
serde = { version = "1", features = ["derive"] }
bincode = "1"
