[package]
name = "mdopen"
version = "0.1.0"
edition = "2021"
publish = false

[dependencies]
pulldown-cmark = { version = "*", default-features = false, features = ["html"] }
percent-encoding = "2"
tiny_http = "0.12"
minijinja = "2"
serde = { version = "1", features = ["derive"] }
log = "0.4"
env_logger = "0.11"
open = "5"
