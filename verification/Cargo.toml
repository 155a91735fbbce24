[package]
name = "modelstore"
version = "0.1.0"
edition = "2021"
publish = false

[dependencies]
deunicode = "*"
md5 = "*"
chrono = "*"
serde = { version = "*", features = ["derive"] }
serde_json = "*"
sqlx = { version = "*", default-features = false, features = ["postgres", "runtime-tokio"] }
tokio = { version = "*", features = ["rt-multi-thread", "macros", "sync", "io-util"] }
tokio-util = { version = "*", features = ["io"] }
async-trait = "*"
futures = "*"
bytes = "*"
miette = "*"
thiserror = "*"
