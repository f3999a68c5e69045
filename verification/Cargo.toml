[package]
name = "ecr_janitor"
version = "0.1.0"
edition = "2021"
publish = false

[dependencies]
clap = "*"
env_logger = "*"
log = "*"
rusoto_core = { version = "0.42", default-features = false, features = ["rustls"] }
rusoto_ecr = { version = "0.42", default-features = false, features = ["rustls"] }
