[package]
name = "wasm_calling"
version = "0.1.0"
edition = "2021"
publish = false

[dependencies]
walrus = "*"
syn = { version = "2", features = ["full", "extra-traits"] }
quote = "1"
proc-macro2 = "1"
