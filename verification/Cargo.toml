[package]
name = "geodb"
version = "0.1.0"
edition = "2021"
publish = false

[dependencies]
fst = "*"
anyhow = "*"
axum = "*"
clap = { version = "*", features = ["derive"] }
serde = { version = "*", features = ["derive"] }
serde_json = "*"
tokio = { version = "*", features = ["macros", "rt-multi-thread", "net"] }
zip = { version = "*", default-features = false, features = ["deflate"] }
