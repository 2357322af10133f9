[package]
name = "lsystem"
version = "0.1.0"
edition = "2021"
publish = false

[dependencies]
glam = "0.29"
include_dir = "0.7"
serde = { version = "1", features = ["derive"] }
thiserror = "2"
toml_edit = { version = "0.22", features = ["serde"] }
