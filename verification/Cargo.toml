[package]
name = "disk_space_inspect"
version = "0.1.0"
edition = "2021"
publish = false

[dependencies]
chrono = "*"
globset = "*"
rusqlite = { version = "*", features = ["bundled"] }
walkdir = "*"
notify = "*"
crossbeam-channel = "*"
dirs = "*"
shellexpand = "*"
pico-args = "*"
serde = { version = "*", features = ["derive"] }
serde_json = "*"
