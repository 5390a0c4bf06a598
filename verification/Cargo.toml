[package]
name = "comic_sync"
version = "0.1.0"
edition = "2021"
publish = false

[dependencies]
futures = "0.3"
hyper = { version = "0.14", features = ["client", "http1", "tcp"] }
lazy_static = "1"
log = "0.4"
pico-args = "0.5"
pretty_env_logger = "0.5"
serde_json = "1"
tokio = { version = "1", features = ["macros", "rt", "signal", "sync"] }
warp = "0.3"
