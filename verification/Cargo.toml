[package]
name = "rfconf"
version = "0.1.0"
edition = "2021"
publish = false

[dependencies]
eframe = { version = "*", default-features = false, features = ["glow", "x11"] }
tokio = { version = "*", features = ["rt"] }
tokio-serial = "*"

[dev-dependencies]
postcard = { version = "*", features = ["alloc"] }
