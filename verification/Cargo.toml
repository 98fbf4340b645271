[package]
name = "grib_idx"
version = "0.1.0"
edition = "2021"
publish = false

[dependencies]
aws-config = "*"
aws-sdk-s3 = "*"
chrono = "*"
tokio = { version = "*", features = ["macros", "rt-multi-thread", "io-util"] }
