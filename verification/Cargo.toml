[package]
name = "wize_demod"
version = "0.1.0"
edition = "2021"
publish = false

[dependencies]
anyhow = "1"
chrono = "0.4"
clap = { version = "4", features = ["derive"] }
crc16 = "0.4"
env_logger = "0.11"
gethostname = "*"
log = "0.4"
num-complex = "0.4"
rumqttc = { version = "*", default-features = false }
serde = { version = "1", features = ["derive"] }
serde_json = "1"
