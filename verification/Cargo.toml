[package]
name = "liclone"
version = "0.1.0"
edition = "2021"
publish = false

[dependencies]
uuid = { version = "1", features = ["v4"] }
serde = { version = "1", features = ["derive"] }
serde_json = "1"
dirs = "5"
walkdir = "2"
which = "*"
sysinfo = "*"
reqwest = { version = "0.12", default-features = false, features = ["json"] }
