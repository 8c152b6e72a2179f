[package]
name = "dirstat"
version = "0.1.0"
edition = "2021"
publish = false

[dependencies]
byte-unit = { version = "=4.0.19", default-features = false, features = ["std", "serde"] }
chrono = { version = "=0.4.45", default-features = false, features = ["clock"] }
log = "=0.4.34"
serde = { version = "=1.0.229", features = ["derive"] }
sysinfo = { version = "=0.25.3", default-features = false }
