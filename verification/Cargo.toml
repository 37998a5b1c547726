[package]
name = "course_scheduler"
version = "0.1.0"
edition = "2021"
publish = false

[dependencies]
combinations = "0.1.0"
csv = "1"
itertools = "*"
serde = { version = "1", features = ["derive"] }
thiserror = "1"
toml = "*"
yansi = "1"

[dev-dependencies]
nom = "7"
