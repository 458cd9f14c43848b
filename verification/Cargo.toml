[package]
name = "dc_project"
version = "0.1.0"
edition = "2021"
publish = false

[dependencies]
hashbrown = "0.14"
itertools = "0.12"
uuid = { version = "1", features = ["v4"] }
message-io = "0.18"
sqlite = "*"
local-ip-address = "*"
rand = "0.8"
serde = { version = "1", features = ["derive"] }
serde_json = "1"
