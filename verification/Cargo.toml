[package]
name = "rodent_logger"
version = "0.1.0"
edition = "2021"
publish = false

[dependencies]
chrono = "=0.4.45"
clap = { version = "=4.6.7", features = ["derive"] }
csv = "=1.4.0"
ctrlc = "=3.5.2"
etherparse = "=0.21.0"
iced = { version = "=0.14.0", default-features = false, features = ["thread-pool", "tiny-skia", "x11"] }
pcap = "=2.5.0"
serde = { version = "=1.0.229", features = ["derive"] }
serde_json = "=1.0.154"
