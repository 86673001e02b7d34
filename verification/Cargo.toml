[package]
name = "ripple_reader"
version = "0.1.0"
edition = "2021"
publish = false

[dependencies]
regex = "=1.13.1"
sha1 = "=0.10.7"
image = { version = "=0.25.10", default-features = false, features = ["png", "jpeg"] }
tempfile = "=3.27.0"
anyhow = "=1.0.104"
dotenvy = "0.15"
chrono = { version = "0.4", default-features = false, features = ["clock", "std"] }
