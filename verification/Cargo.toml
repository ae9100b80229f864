[package]
name = "lib_web"
version = "0.1.0"
edition = "2021"
publish = false

[dependencies]
axum = "0.8"
tokio = { version = "1", features = ["macros", "rt-multi-thread", "net"] }
itertools = "0.14"
flate2 = "1"
mime_guess = "2"
