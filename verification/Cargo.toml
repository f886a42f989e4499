[package]
name = "dbdev"
version = "0.1.0"
edition = "2021"
publish = false

[dependencies]
anyhow = "1"
sqlx = { version = "0.8", default-features = false, features = ["postgres", "runtime-tokio", "derive"] }
