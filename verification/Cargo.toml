[package]
name = "hq-lib"
version = "0.1.0"
edition = "2021"
publish = false

[dependencies]
lol_html = "2"
cssparser = "0.35"
clap = { version = "4", features = ["derive"] }
anstyle = "1"
serde = { version = "1", features = ["derive"] }
serde_json = "1"
jwalk = "0.8"
rayon = "1"
log = "0.4"
env_logger = "0.11"
