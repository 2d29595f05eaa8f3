[package]
name = "magic_loc_central"
version = "0.1.0"
edition = "2021"
publish = false

[dependencies]
clap = { version = "=4.6.7", features = ["derive"] }
futures = "=0.3.34"
nalgebra = "=0.35.0"
num = { version = "=0.4.3", features = ["serde"] }
rzcobs = "=0.1.2"
serde = { version = "=1.0.229", features = ["derive"] }
serde_json = "=1.0.154"
serialport_low_latency = "=0.1.3"
tmq = "=0.5.0"
tokio = { version = "=1.54.1", features = ["full"] }
tokio-serial = "=5.5.0"
tokio-util = { version = "=0.7.20", features = ["codec"] }
tracing = "=0.1.44"
tracing-subscriber = "=0.3.23"
