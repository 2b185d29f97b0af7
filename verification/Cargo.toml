[package]
name = "argon40"
version = "0.1.0"
edition = "2021"
rust-version = "1.85"
publish = false

[dependencies]
anyhow = "1"
chrono = { version = "0.4", default-features = false, features = ["clock", "std"] }
clap = { version = "4", features = ["derive"] }
env_logger = "0.11"
gpiocdev = "*"
i2cdev = "*"
log = "0.4"
nix = { version = "0.30", features = ["fs", "time"] }
serialport = { version = "4", default-features = false }
signal-hook = "0.3"
thiserror = "2"
