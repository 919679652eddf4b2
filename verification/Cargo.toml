[package]
name = "tapframe"
version = "0.1.0"
edition = "2021"
publish = false

[dependencies]
tokio = { version = "1", features = ["io-util", "macros", "net", "rt", "rt-multi-thread"] }
tokio-serial = "5"
nix = { version = "*", features = ["fs", "ioctl"] }
ifstructs = "*"
