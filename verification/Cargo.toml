[package]
name = "vac"
version = "0.1.0"
edition = "2021"
publish = false

[dependencies]
image = { version = "0.25", default-features = false, features = ["gif"] }
tiny-skia = "0.11"
clap = { version = "4", features = ["derive"] }
anyhow = "1"
thiserror = "1"
