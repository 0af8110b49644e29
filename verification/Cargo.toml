[package]
name = "playlist_sync"
version = "0.1.0"
edition = "2021"
publish = false

[dependencies]
chrono = "=0.4.45"
clap = "=4.6.7"
dotenv = "=0.15.0"
env_logger = "=0.11.11"
log = "=0.4.34"
rspotify = { version = "=0.16.1", features = ["cli"] }
rusqlite = { version = "=0.40.2", features = ["bundled"] }
tempfile = "=3.27.0"
tokio = { version = "=1.53.2", features = ["macros", "rt-multi-thread"] }
