[package]
name = "exam_paper_detector"
version = "0.1.0"
edition = "2021"
publish = false

[dependencies]
regex = "1"
image = "0.25"
imageproc = "0.25"
serde = { version = "1", features = ["derive"] }
serde_json = "1"
log = "0.4"
env_logger = "0.11"
anyhow = "1"
ort = { version = "=2.0.0-rc.10", default-features = false, features = ["std", "ndarray", "load-dynamic"] }
