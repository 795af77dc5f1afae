[package]
name = "metrics_cloudwatch"
version = "0.1.0"
edition = "2021"
publish = false

[dependencies]
chrono = { version = "=0.4.45", default-features = false, features = ["std"] }
futures = "=0.3.34"
log = "=0.4.35"
metrics = { version = "=0.12.1", features = ["std"] }
rusoto_cloudwatch = { version = "=0.45.0", default-features = false, features = ["rustls"] }
rusoto_core = { version = "=0.45.0", default-features = false, features = ["rustls"] }
tokio = { version = "=0.2.25", features = ["rt-core", "time", "stream", "io-driver"] }

[dev-dependencies]
proptest = { version = "=1.12.0", default-features = false, features = ["std"] }
