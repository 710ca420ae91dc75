[package]
name = "boo"
version = "0.1.0"
edition = "2021"
publish = false

[dependencies]
proc-macro2 = "1"
quote = "1"
rand = "0.9"
syn = { version = "2", features = ["full"] }
