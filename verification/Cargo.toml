[package]
name = "winrt_import"
version = "0.1.0"
edition = "2021"
publish = false

[dependencies]
proc-macro2 = "1.0"
quote = "1.0"
rayon = "1"
squote = "0.1.2"
syn = { version = "1.0", features = ["full"] }
winrt_gen = "0.7.2"
