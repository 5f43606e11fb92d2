[package]
name = "watershed_editor"
version = "0.1.0"
edition = "2021"
publish = false

[dependencies]
glam = "0.30"
ron = "*"
serde = { version = "1", features = ["derive"] }
thiserror = "2"
