[package]
name = "vlan-rs"
version = "0.1.0"
edition = "2021"
publish = false

[dependencies]
serde = { version = "1", features = ["derive"] }
thiserror = "2"
tokio = { version = "1", features = ["rt-multi-thread", "macros", "sync", "net", "io-util", "time", "signal"] }
toml = "0.8"
tun-rs = { version = "*", features = ["async"] }

[dev-dependencies]
etherparse = "*"
