[package]
name = "poirebot"
version = "0.1.0"
edition = "2021"
publish = false

[dependencies]
itertools = "0.10"
anyhow = "1"
clap = "2.33"
licoricedev = "*"
log = "0.4"
pretty_env_logger = "0.4"
rayon = "1"
regex = "1"
tokio = { version = "1", features = ["full"] }
tokio-stream = "0.1"
