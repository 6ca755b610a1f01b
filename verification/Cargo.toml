[package]
name = "gb10_infer"
version = "0.1.0"
edition = "2021"
publish = false

[dependencies]
anyhow = "=1.0.104"
bytemuck = "=1.25.2"
cudarc = { version = "=0.12.1", default-features = false, features = ["std", "driver", "cublas", "nvrtc", "f16", "cuda-12020"] }
half = "=2.7.1"
safetensors = "=0.4.5"
serde = { version = "=1.0.229", features = ["derive"] }
serde_json = "=1.0.154"
tokio = { version = "=1.54.1", features = ["sync", "rt"] }
