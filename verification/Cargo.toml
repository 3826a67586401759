[package]
name = "meeting_transcriber"
version = "0.1.0"
edition = "2021"
publish = false

[dependencies]
anyhow = "1"
chrono = "0.4"
cpal = { version = "*", default-features = false }
dirs = "*"
parking_lot = "0.12"
regex = "1"
serde = { version = "1", features = ["derive"] }
serde_json = "1"
thiserror = "2"
ureq = "3"
whisper-rs = { version = "*", default-features = false }
