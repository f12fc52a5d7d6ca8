[package]
name = "zkenc"
version = "0.1.0"
edition = "2021"
publish = false

[dependencies]
ark-bn254 = "=0.5.0"
ark-ec = "=0.5.0"
ark-ff = "=0.5.0"
ark-poly = "=0.5.0"
ark-serialize = "=0.5.0"
ark-std = "=0.5.0"
rand = "=0.8.8"
aes = "=0.8.4"
aes-gcm = "=0.10.3"
ctr = "=0.9.2"
cipher = "=0.4.4"
sha2 = "0.10"
anyhow = "=1.0.104"
clap = { version = "=4.6.7", features = ["derive"] }
serde = { version = "=1.0.229", features = ["derive"] }
serde_json = "=1.0.151"
bincode = "=1.3.3"
