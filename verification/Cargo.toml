[package]
name = "voxtype"
version = "0.1.0"
edition = "2021"
publish = false

[dependencies]
num_cpus = "1"
ndarray = "0.16"
ksni = "0.3"
tokio = { version = "1", features = ["sync", "rt", "macros", "time"] }
tracing = "0.1"
ort = { version = "2.0.0-rc.10", default-features = false, features = ["std", "load-dynamic"] }
