[package]
name = "termlens"
version = "0.1.0"
edition = "2021"
publish = false

[dependencies]
vt100 = "*"
unicode-width = "*"
miniz_oxide = "*"
portable-pty = "*"
libc = "*"
serde = { version = "1", features = ["derive"] }
serde_json = "1"
thiserror = "*"
insta = "*"
