[package]
name = "mfc_cli"
version = "0.1.0"
edition = "2021"
publish = false

[dependencies]
image = { version = "0.25", default-features = false, features = ["png", "jpeg"] }
serde = { version = "1", features = ["derive"] }
serde_json = "1"
rqrr = "*"
qrcode = "0.14"
clap = { version = "4", features = ["derive"] }
