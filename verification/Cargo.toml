[package]
name = "exchange_core"
version = "0.1.0"
edition = "2021"
publish = false

[dependencies]
anyhow = "1"
argon2 = "0.5"
axum = "0.7"
bigdecimal = "0.4"
bs58 = "0.5"
chrono = "0.4"
ed25519-dalek = { version = "2", features = ["rand_core"] }
futures-util = "0.3"
hex = "0.4"
password-hash = "0.5"
rand = "0.8"
redis = { version = "0.25", features = ["tokio-comp"] }
serde = { version = "1", features = ["derive"] }
serde_json = "1"
sha2 = "0.10"
sqlx = { version = "0.8", default-features = false, features = ["mysql", "runtime-tokio", "chrono", "bigdecimal", "uuid", "macros"] }
tokio = { version = "1", features = ["rt-multi-thread", "macros", "sync", "net", "time", "io-util"] }
tokio-tungstenite = "0.23"
uuid = { version = "1", features = ["v4"] }
validator = "0.20"
