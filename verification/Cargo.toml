[package]
name = "ipcow"
version = "0.1.1"
edition = "2021"
publish = false

[dependencies]
ipnetwork = "0.20"
tokio = { version = "1", features = ["full"] }
warp = "0.3"
chrono = "0.4"
clap = { version = "4", features = ["derive"] }
ctrlc = "3"
futures = "0.3"
nalgebra = "0.33"
rand = "0.8"
rayon = "1"
serde = { version = "1", features = ["derive"] }
serde_json = "1"
sysinfo = "0.33"
terminal_size = "0.4"
