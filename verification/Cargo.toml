[package]
name = "rust_lob"
version = "0.1.0"
edition = "2021"
publish = false

[dependencies]
rust_decimal = { version = "1", features = ["serde-str"] }
flate2 = "1"
hmac = "0.12"
sha2 = "0.10"
hex = "0.4"
serde = { version = "1", features = ["derive"] }
serde_json = "1"
rmp-serde = "1"
axum = { version = "0.8", features = ["ws", "multipart"] }
tokio = { version = "1", features = ["full"] }
tower-http = { version = "0.6", features = ["cors"] }
futures = "0.3"
futures-util = "0.3"
rand = "0.9"
rand_distr = "0.5"
redis = { version = "0.29", features = ["tokio-comp"] }
sqlx = { version = "0.8", default-features = false, features = ["postgres", "runtime-tokio"] }
