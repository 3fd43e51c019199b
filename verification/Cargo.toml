[package]
name = "filepaste"
version = "0.1.0"
edition = "2021"
publish = false

[dependencies]
actix-files = "0.6"
actix-web = "4"
actix-web-httpauth = "0.8"
argon2 = "0.5"
async-trait = "0.1"
base16ct = { version = "0.2", features = ["alloc"] }
chacha20poly1305 = { version = "0.10", features = ["stream"] }
clap = { version = "4", features = ["derive"] }
confy = "0.6"
futures = "0.3"
futures-util = "0.3"
pbkdf2 = "0.12"
qr2term = "0.3"
rand = "0.9"
rust-embed = "8"
serde = { version = "1", features = ["derive"] }
sha2 = "0.10"
thiserror = "2"
tokio = { version = "1", features = ["full"] }
tokio-stream = "0.1"
tokio-util = { version = "0.7", features = ["io"] }
totp-rs = "5"
tracing = "0.1"
tracing-actix-web = "0.7"
tracing-subscriber = "0.3"
