[package]
name = "wlrix-desktop"
version = "0.1.0"
edition = "2021"
publish = false

[dependencies]
png = "*"
serde = { version = "1", features = ["derive"] }
toml = "*"
libc = "*"
resvg = "*"
freedesktop-icons = "*"
