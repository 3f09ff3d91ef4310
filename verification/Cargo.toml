[package]
name = "dojo"
version = "0.1.0"
edition = "2021"
publish = false

[dependencies]
anyhow = "=1.0.104"
thiserror = "=2.0.21"
chrono = { version = "=0.4.45", default-features = false, features = ["std", "clock"] }
tokio = { version = "=1.54.1", features = ["sync", "io-util"] }
futures = "=0.3.34"
iced = { version = "=0.14.0", default-features = false, features = ["canvas", "tokio", "tiny-skia", "x11"] }
jj-lib = { version = "=0.36.0", default-features = false }
