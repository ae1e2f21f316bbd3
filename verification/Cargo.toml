[package]
name = "openbim-idm"
version = "0.1.0"
edition = "2021"
publish = false

[dependencies]
quick-xml = "*"
serde = { version = "1", features = ["derive"] }
serde_json = "1"
uuid = { version = "1", features = ["v4"] }
thiserror = "*"
clap = { version = "4", features = ["derive"] }
