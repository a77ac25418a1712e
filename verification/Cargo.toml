[package]
name = "io_reactor"
version = "0.1.0"
edition = "2021"
publish = false

[dependencies]
rustc-hash = "1.1"
nix = { version = "0.26", default-features = false, features = ["fs"] }
polling = "2.8"
socket2 = "0.4"
futures = "0.3"
tokio = "1"
io-uring = "0.5"
