[package]
name = "figure_fit"
version = "0.1.0"
edition = "2021"
publish = false

[dependencies]
bit-vec = "0.6"
geo = "0.18"
log = "0.4"
pretty_env_logger = "0.4"
rand = "0.8"
rayon = "1"
seahash = "4"
serde = { version = "1", features = ["derive"] }
serde_json = "1"
structopt = "0.3"
