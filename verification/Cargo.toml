[package]
name = "baseline_llm_os"
version = "0.1.0"
edition = "2021"
publish = false

[dependencies]
anyhow = "1"
bytemuck = "1"
clap = { version = "4", features = ["derive"] }
crossbeam-channel = "0.5"
cudarc = { version = "0.12", default-features = false, features = ["std", "driver", "nvrtc", "cublas", "f16", "cuda-12050"] }
half = { version = "2", features = ["bytemuck"] }
libc = "0.2"
memmap2 = "0.9"
parking_lot = "0.12"
safetensors = "0.4"
serde = { version = "1", features = ["derive"] }
serde_json = "1"
tokio = { version = "1", features = ["rt-multi-thread", "macros", "net", "io-util"] }
tracing = "0.1"
tracing-subscriber = { version = "0.3", features = ["env-filter"] }
