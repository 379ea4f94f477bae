[package]
name = "fan_curve"
version = "0.1.0"
edition = "2021"
publish = false

[dependencies]
clap = { version = "*", features = ["derive"] }
clap-verbosity-flag = "*"
in-container = "*"
log = "*"
log4rs = "*"
os_info = "*"
rppal = "*"
