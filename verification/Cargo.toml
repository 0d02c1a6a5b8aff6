[package]
name = "axis"
version = "0.1.0"
edition = "2021"
publish = false

[dependencies]
anyhow = "*"
bincode = "1"
biquad = "*"
clap = { version = "4", features = ["derive"] }
directories = "*"
env_logger = "*"
knuffel = "*"
libloading = "*"
log = "*"
rand = "0.8"
rusqlite = { version = "*", features = ["bundled"] }
rustfft = "*"
serde = { version = "*", features = ["derive"] }
symphonia = "*"
