[package]
name = "matchbox_server_wasm"
version = "0.1.0"
edition = "2021"
publish = false

[dependencies]
matchbox_protocol = { version = "*", features = ["json"] }
uuid = { version = "*", features = ["v4"] }
serde = { version = "*", features = ["derive"] }
serde_json = "*"
thiserror = "*"
wstd = "*"
