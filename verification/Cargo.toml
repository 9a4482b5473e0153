[package]
name = "scp_core"
version = "0.1.0"
edition = "2021"
publish = false

[dependencies]
suppaftp = { version = "=12.2.1", default-features = false, features = ["native-tls"] }
ssh2 = "=0.9.6"
chrono = "=0.4.45"
serde = { version = "=1.0.229", features = ["derive"] }
serde_json = "=1.0.154"
keyring = "=4.2.0"
