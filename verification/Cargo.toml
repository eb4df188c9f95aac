[package]
name = "cursor_tab"
version = "0.1.0"
edition = "2021"
publish = false

[dependencies]
anyhow = "1"
futures = "0.3"
log = "0.4"
prost = "0.9"
serde_json = "1"
sha2 = "0.10"
time = { version = "0.3", features = ["local-offset"] }
uuid = { version = "1", features = ["v4"] }
