[package]
name = "asmap"
version = "0.1.0"
edition = "2021"
publish = false

[dependencies]
flate2 = "1"
log = "0.4"
mrt-rs = "*"
pretty_env_logger = "*"
reqwest = { version = "*", default-features = false, features = ["blocking"] }
structopt = "0.3"
