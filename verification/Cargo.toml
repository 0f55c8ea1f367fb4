[package]
name = "kingly"
version = "0.1.0"
edition = "2021"
publish = false

[dependencies]
arrayvec = "0.7"
bitintr = "0.3"
clap = { version = "4", features = ["derive"] }
thiserror = "1"

[dev-dependencies]
itertools = "*"
