[package]
name = "game_time_tracker"
version = "0.1.0"
edition = "2021"
publish = false

[dependencies]
anyhow = "=1.0.104"
chrono = { version = "=0.4.45", features = ["serde"] }
clap = { version = "=4.6.7", features = ["derive"] }
dirs = "=7.0.0"
env_logger = "=0.11.11"
image = { version = "=0.25.10", default-features = false, features = ["png"] }
log = "=0.4.35"
md5 = "=0.7.0"
open = "=5.4.5"
serde = { version = "=1.0.229", features = ["derive"] }
serde_json = "=1.0.154"
sysinfo = "=0.37.2"
thiserror = "=2.0.21"
winreg = "=0.56.0"
