[package]
name = "symspellrs"
version = "0.1.0"
edition = "2021"
publish = false

[dependencies]
phf = "0.11"
proc-macro2 = "1"
quote = "1"
syn = { version = "2", features = ["full"] }

[dev-dependencies]
phf_generator = "0.11"
phf_shared = "0.11"
