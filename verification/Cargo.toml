[package]
name = "vad_core"
version = "0.1.0"
edition = "2021"
publish = false

[dependencies]
anyhow = "1"
clap = { version = "4", features = ["derive"] }
cpal = "0.15"
csv = "1"
earshot = "*"
hound = "3.5"
serde = { version = "1", features = ["derive"] }
serde_json = "1"
sysinfo = "0.33"
