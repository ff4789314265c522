[package]
name = "git-rust"
version = "0.1.0"
edition = "2021"
publish = false

[dependencies]
sha1 = "=0.10.7"
hex = "=0.4.3"
flate2 = "=1.1.10"
chrono = { version = "=0.4.45", default-features = false, features = ["clock", "std"] }
rand = "=0.9.5"
git-url-parse = "=0.4.6"
reqwest = { version = "=0.12.28", default-features = false, features = ["blocking", "rustls-tls"] }
ctrlc = "=3.5.2"
env_logger = "0.11"
log = "0.4"
