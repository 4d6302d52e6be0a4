[package]
name = "osf_ort"
version = "0.1.0"
edition = "2021"
publish = false

[dependencies]
anyhow = "1"
clap = { version = "4", features = ["derive"] }
half = "2"
image = { version = "0.25", default-features = false, features = ["bmp", "gif", "jpeg", "png", "pnm", "tga", "tiff", "webp"] }
libc = "0.2"
minifb = "*"
nalgebra = "0.33"
nokhwa = { version = "0.10", features = ["input-native"] }
ort = { version = "2.0.0-rc.11", default-features = false, features = ["std", "half", "load-dynamic"] }
rand = "0.8"
rosc = "0.10"
serde = { version = "1", features = ["derive"] }
serde_json = "1"
