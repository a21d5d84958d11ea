[package]
name = "screen_streamer"
version = "0.300.0"
edition = "2021"
publish = false

[dependencies]
bytes = "=1.12.1"
crossbeam = "=0.8.5"
env_logger = "=0.11.11"
fast-webp = "=0.1.1"
futures-util = "=0.3.34"
libc = "=0.2.191"
log = "=0.4.35"
num_cpus = "=1.17.0"
rustls-pemfile = "=2.2.0"
serde = { version = "=1.0.229", features = ["derive"] }
serde_json = "=1.0.154"
subtle = "=2.6.1"
tokio = { version = "=1.54.1", features = ["full"] }
tokio-rustls = "=0.26.6"
tokio-tungstenite = "=0.24.0"
wayland-client = "=0.31.15"
wayland-protocols = { version = "=0.32.13", features = ["client", "staging", "unstable"] }
wayland-protocols-misc = { version = "=0.3.12", features = ["client"] }
wayland-protocols-wlr = { version = "=0.3.12", features = ["client"] }
webp = "=0.3.1"
webp-rust = { version = "=0.3.2", features = ["legacy"] }
webpx = "=0.4.1"
webrtc = "=0.17.2"
webrtc-ice = "=0.17.2"
xxhash-rust = { version = "=0.8.19", features = ["xxh3"] }
