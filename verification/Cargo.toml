[package]
name = "worlddat"
version = "0.1.0"
edition = "2021"
publish = false

[dependencies]
base64 = "=0.11.0"
blake2 = "=0.8.1"
bytemuck = "=1.25.2"
oorandom = "=11.1.5"
chrono = "=0.4.45"
failure = "=0.1.8"
fern = { version = "=0.6.2", features = ["colored"] }
futures = "=0.3.34"
log = "=0.4.35"
pretty_env_logger = "=0.4.0"
quinn = "=0.5.4"
rcgen = "=0.7.0"
rmp-serde = "1"
rustls = { version = "=0.16.0", features = ["dangerous_configuration"] }
serde = { version = "=1.0.229", features = ["derive"] }
structopt = "=0.3.26"
tokio = { version = "=0.2.25", features = ["full"] }
url = "=2.5.8"
webpki = "=0.21.4"
