[package]
name = "cc_cockpit"
version = "0.1.0"
edition = "2021"
publish = false

[dependencies]
base64 = "0.22"
ignore = "0.4"
notify = "6"
serde = { version = "1", features = ["derive"] }
serde_json = "1"
trash = "5"
