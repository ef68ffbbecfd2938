[package]
name = "project_zero"
version = "0.5.0"
edition = "2021"
publish = false

[dependencies]
sha2 = "0.10"
hex = "0.4"
md5 = "0.7"
rand = "0.8"
x25519-dalek = { version = "2", features = ["static_secrets"] }
ed25519-dalek = { version = "2", features = ["rand_core"] }
chacha20poly1305 = "0.10"
serde = { version = "1", features = ["derive"] }
bincode = "1"
tokio = { version = "1", features = ["full"] }
anyhow = "1"
log = "0.4"
env_logger = "0.11"
chrono = "0.4"
if-addrs = "*"
eframe = { version = "0.29", default-features = false, features = ["glow", "default_fonts", "x11"] }
egui_extras = { version = "0.29", default-features = false, features = ["image"] }
image = { version = "0.25", default-features = false, features = ["png", "jpeg"] }
