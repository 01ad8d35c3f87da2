[package]
name = "orbit"
version = "0.1.0"
edition = "2021"
publish = false

[dependencies]
rkyv = "0.8"
quinn = "0.11"
rcgen = "0.14"
rustls = { version = "0.23", default-features = false, features = ["ring", "std", "logging"] }
thiserror = "2"
tokio = { version = "1", features = ["full"] }
tracing = "0.1"
tracing-subscriber = { version = "0.3", features = ["env-filter"] }
rand = "0.9"

[dev-dependencies]
uuid = { version = "1", features = ["v4"] }
