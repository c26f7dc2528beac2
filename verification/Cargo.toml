[package]
name = "novadb"
version = "0.1.0"
edition = "2021"
publish = false

[dependencies]
argon2 = "=0.5.3"
getrandom = "=0.3.4"
thiserror = "2"
tracing-subscriber = { version = "0.3", features = ["env-filter"] }
