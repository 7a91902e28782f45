[package]
name = "matching_engine"
version = "0.1.0"
edition = "2021"
publish = false

[dependencies]
axum = { version = "0.7", features = ["macros"] }
chrono = { version = "0.4", features = ["serde"] }
dotenv = "0.15"
rust_decimal = "1"
serde = { version = "1", features = ["derive"] }
sqlx = { version = "0.7", default-features = false, features = ["postgres", "runtime-tokio", "uuid", "chrono", "rust_decimal"] }
tokio = { version = "1", features = ["full"] }
uuid = { version = "1", features = ["v4", "serde"] }
