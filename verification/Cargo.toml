[package]
name = "tacticalmesh"
version = "0.1.0"
edition = "2021"
publish = false

[dependencies]
blake3 = "1.5"
chacha20 = "0.9"
ed25519-dalek = { version = "2", features = ["rand_core"] }
rand = "0.8"
reed-solomon-simd = "3"
image = { version = "0.24", default-features = false, features = ["jpeg"] }
serde = { version = "1", features = ["derive"] }
bincode = "1.3"
tokio = { version = "1", features = ["full"] }
parking_lot = "0.12"
anyhow = "1"
thiserror = "1"
tracing = "0.1"
tracing-subscriber = "0.3"
clap = { version = "4", features = ["derive"] }
ratatui = "0.26"
crossterm = "0.27"
socket2 = { version = "0.5", features = ["all"] }
libc = "0.2"
