[package]
name = "depiction_map"
version = "0.1.0"
edition = "2021"
publish = false

[dependencies]
actix-files = { version = "*", default-features = false }
actix-web = { version = "*", default-features = false, features = ["macros"] }
anyhow = "*"
arc-swap = "*"
clap = { version = "*", features = ["derive"] }
env_logger = "*"
git2 = { version = "*", default-features = false }
log = "*"
mime_guess = "*"
osm_overpass = "*"
pathdiff = "*"
reqwest = { version = "*", default-features = false, features = ["blocking"] }
rust-embed = "*"
serde = { version = "*", features = ["derive"] }
serde_json = "*"
tai-time = "*"
url = "*"
