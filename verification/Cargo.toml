[package]
name = "sproutx"
version = "0.1.3"
edition = "2021"
publish = false

[dependencies]
chrono = "=0.4.45"
evdev = "=0.13.2"
libc = "=0.2.191"
serde = { version = "=1.0.229", features = ["derive"] }
serde_yaml = "=0.9.34"
xkbcommon = "=0.9.0"
xkeysym = "=0.2.1"
