[package]
name = "rdp_client"
version = "0.1.0"
edition = "2021"
publish = false

[dependencies]
anyhow = "1"
ironrdp-core = "=0.3.1"
ironrdp-dvc = "=0.10.0"
ironrdp-egfx = "=0.5.0"
ironrdp-pdu = "=0.11.0"
log = "0.4"
openh264 = "=0.9.9"
sspi = "=0.23.1"
tokio = { version = "1", features = ["io-util", "macros", "net", "rt", "sync", "time"] }
yuv = "=0.8.20"
