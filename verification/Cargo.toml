[package]
name = "musiq"
version = "0.1.0"
edition = "2021"
publish = false

[dependencies]
image = { version = "0.25", default-features = false, features = ["png", "jpeg"] }
lofty = "0.22"
walkdir = "2"
rfd = { version = "0.15", default-features = false, features = ["gtk3"] }
poll-promise = "0.3"
serde = { version = "1", features = ["derive"] }
toml = "0.8"
