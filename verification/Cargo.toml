[package]
name = "wavelet_index"
version = "0.1.0"
edition = "2021"
publish = false

[dependencies]
glob = "*"
image = { version = "*", default-features = false, features = ["jpeg", "png"] }
pbr = "*"
rand = "*"
tiny_http = "*"
