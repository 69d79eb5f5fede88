[package]
name = "steadyum"
version = "0.1.0"
edition = "2021"
publish = false

[dependencies]
uuid = { version = "=1.29.0", features = ["v4", "serde"] }
lz4_flex = "=0.11.6"
bytemuck = "=1.25.2"
serde = { version = "1", features = ["derive"] }
serde_json = "1"
bincode = "1"
anyhow = "1"
clap = { version = "4", features = ["derive"] }
tokio = { version = "1", features = ["full"] }
axum = "0.6"
reqwest = { version = "0.11", default-features = false, features = ["json"] }
rapier3d = { version = "0.17", features = ["serde-serialize"] }
async-channel = "1"
log = "0.4"
env_logger = "0.10"
futures = "0.3"
dashmap = "5"
zenoh = { version = "=0.11.0", default-features = false, features = ["transport_tcp"] }
local-ip-address = "0.5"
dotenv = "0.15"
