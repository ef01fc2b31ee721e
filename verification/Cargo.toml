[package]
name = "static_fs"
version = "0.1.0"
edition = "2021"
publish = false

[dependencies]
byteorder = "1"
chrono = { version = "0.4", default-features = false, features = ["std"] }
flate2 = "1"
mime_guess = "2"
rocket = { version = "0.5", default-features = false }
walkdir = "2"
