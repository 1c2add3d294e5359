[package]
name = "hyprexpose"
version = "0.1.0"
edition = "2021"
publish = false

[dependencies]
cairo-rs = "0.20"
libc = "0.2"
pango = "0.20"
pangocairo = "0.20"
serde = { version = "1", features = ["derive"] }
serde_json = "1"
toml = "0.8"
wayland-client = "0.31"
wayland-protocols-wlr = { version = "0.3", features = ["client"] }
wayland-scanner = "0.31"
