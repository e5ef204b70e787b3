[package]
name = "cyclotron-core"
version = "0.1.0"
edition = "2021"
publish = false

[dependencies]
chrono = { version = "0.4", features = ["serde"] }
serde = { version = "1", features = ["derive"] }
sqlx = { version = "*", default-features = false, features = ["postgres", "uuid", "chrono", "derive"] }
uuid = { version = "1", features = ["v4", "v7", "serde"] }
