[package]
name = "nostringer"
version = "0.1.0"
edition = "2021"
publish = false

[dependencies]
k256 = { version = "0.13", default-features = false, features = ["arithmetic", "std"] }
rand = "0.8"
sha2 = "0.10"
subtle = "2"
