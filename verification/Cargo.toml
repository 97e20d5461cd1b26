[package]
name = "p1c0_kernel"
version = "0.1.0"
edition = "2021"
publish = false

[dependencies]
heapless = "0.7"
rustc-demangle = "0.1"
object = { version = "0.28", default-features = false, features = ["read", "std"] }
structopt = "0.3"
anyhow = "1"
