[package]
name = "tin_search"
version = "0.1.0"
edition = "2021"
publish = false

[dependencies]
pgrx = { version = "=0.18.1", features = ["pg17"] }
rustc-hash = "=2.1.3"
