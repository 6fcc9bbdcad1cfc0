[package]
name = "rusmt"
version = "0.1.0"
edition = "2021"
publish = false

[dependencies]
clap = { version = "*", features = ["derive"] }
itertools = "*"
log = "*"
pretty_env_logger = "*"
smt2parser = "*"
strum = "*"
strum_macros = "*"

[dev-dependencies]
rand = "*"
