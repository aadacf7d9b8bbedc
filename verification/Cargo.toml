[package]
name = "badge_stats"
version = "0.1.0"
edition = "2021"
publish = false

[dependencies]
actix-web = { version = "=4.18.1", default-features = false, features = ["macros"] }
cached = { version = "=0.51.4", default-features = false }
csscolorparser = "=0.6.2"
dotenv = "=0.15.0"
env_logger = "=0.8.4"
eyre = "=0.6.14"
log = "=0.4.34"
once_cell = "=1.21.4"
percent-encoding = "=2.3.2"
rsbadges = "=1.1.7"
serde = { version = "=1.0.229", features = ["derive"] }
serde_json = "=1.0.154"
tempfile = "=3.27.0"
tokei = "=12.1.2"
