[package]
name = "gg"
version = "0.1.0"
edition = "2021"
publish = false

[dependencies]
sha2 = "=0.10.9"
syntect = { version = "=5.3.0", default-features = false, features = ["default-fancy"] }
two-face = { version = "=0.4.5", default-features = false, features = ["syntect-default-fancy"] }
serde = { version = "=1.0.229", features = ["derive"] }
toml = "=0.9.12"
gix = "=0.80.0"
# Held back: later releases ask for a newer rustc than the one this crate is built with.
kstring = "=2.0.2"
ureq = "=3.5.1"
image = { version = "=0.25.10", default-features = false, features = ["png", "ico", "jpeg", "webp"] }
rfd = { version = "=0.15.4", default-features = false, features = ["xdg-portal", "tokio"] }
zbus = { version = "=5.19.0", default-features = false, features = ["blocking-api", "tokio"] }
