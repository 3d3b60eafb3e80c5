[package]
name = "hstdb"
version = "0.1.0"
edition = "2021"
publish = false

[dependencies]
chrono = "0.4"
clap = { version = "4", features = ["derive", "env"] }
clap_complete = "4"
comfy-table = "*"
crossbeam-utils = "0.8"
ctrlc = "3"
directories = "*"
env_logger = "*"
flume = "*"
glob = "0.3"
hostname = "*"
humantime = "2"
log = "0.4"
regex = "1"
serde = { version = "1", features = ["derive"] }
sled = "0.34"
toml = "*"
uuid = { version = "1", features = ["v4"] }

[dev-dependencies]
