[package]
name = "shakehand"
version = "0.1.0"
edition = "2021"
publish = false

[dependencies]
just_fmt = "*"
toml = "0.8"
syn = { version = "2", features = ["full"] }
quote = "1"
proc-macro2 = "1"
