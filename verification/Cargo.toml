[package]
name = "cardwatch"
version = "0.1.0"
edition = "2021"
publish = false

[dependencies]
chrono = "*"
serde = { version = "*", features = ["derive"] }
serde_json = "*"
sqlx = { version = "*", features = ["sqlite", "runtime-tokio", "chrono"] }
tokio = { version = "*", features = ["full"] }
axum = "*"
thirtyfour = "*"
