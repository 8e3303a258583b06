[package]
name = "colorblind_sim"
version = "0.1.0"
edition = "2021"
publish = false

[dependencies]
anyhow = "=1.0.104"
image = { version = "=0.24.9", default-features = false, features = ["png", "jpeg", "bmp", "gif"] }
rfd = { version = "=0.15.4", default-features = false, features = ["xdg-portal", "async-std"] }
slint = { version = "=1.18.1", default-features = false, features = ["std", "compat-1-2"] }
